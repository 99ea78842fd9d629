//! Cutting a command line into tokens: words, pipes and redirections.

use vstd::prelude::*;

use crate::commands::{count_commands, is_quote, type_of_text, ElementLine, ParseTypes, ParsedHead};
use crate::text::{
    chars_of, find_char, find_char_from, lemma_find_char_from, push_all, string_of, subvec, trim_by,
    trim_end_by, trim_pred, trim_range, trim_start_by,
};

verus! {

/// The line without the newline that ends it, if any.
pub open spec fn without_newline(v: Seq<char>) -> Seq<char> {
    if v.len() > 0 && v.last() == '\n' {
        v.drop_last()
    } else {
        v
    }
}

/// The tokens gathered so far, with the pending word `cur` added when it
/// is not blank (spaces around it are dropped).
pub open spec fn flush(cur: Seq<char>, toks: Seq<(ParseTypes, Seq<char>)>) -> Seq<(ParseTypes, Seq<char>)> {
    let w = trim_by(cur, trim_pred(false, ' '));
    if w.len() == 0 {
        toks
    } else {
        toks.push((type_of_text(w), w))
    }
}

/// The tokens of `v` from index `i` on, `cur` being the word under way and
/// `toks` the tokens already found. A quoted part runs to the same quote
/// and stays in the word with its quotes; `|` is a pipe; `<`, `>`, `<<`
/// and `>>` are redirections; the text between them makes the words.
/// `None` when a quote is not closed.
pub open spec fn lex(v: Seq<char>, i: nat, cur: Seq<char>, toks: Seq<(ParseTypes, Seq<char>)>) -> Option<Seq<(ParseTypes, Seq<char>)>>
    decreases v.len() - i,
{
    if i >= v.len() {
        Some(flush(cur, toks))
    } else if is_quote(v[i as int]) {
        match find_char_from(v, v[i as int], i + 1int) {
            None => None,
            Some(j) => {
                proof {
                    lemma_find_char_from(v, v[i as int], i + 1int);
                }
                lex(v, (j + 1) as nat, cur + v.subrange(i as int, j + 1), toks)
            },
        }
    } else if v[i as int] == '|' {
        lex(v, i + 1, Seq::empty(), flush(cur, toks).push((ParseTypes::Pipe, seq!['|'])))
    } else if v[i as int] == '<' || v[i as int] == '>' {
        let len: nat = if i + 1 < v.len() && v[i + 1int] == v[i as int] { 2 } else { 1 };
        lex(v, i + len, Seq::empty(), flush(cur, toks).push((ParseTypes::Redirection, v.subrange(i as int, i + len as int))))
    } else {
        lex(v, i + 1, cur.push(v[i as int]), toks)
    }
}

/// The tokens of a command line read from the terminal.
pub open spec fn tokens_of(line: Seq<char>) -> Option<Seq<(ParseTypes, Seq<char>)>> {
    lex(without_newline(line), 0, Seq::empty(), Seq::empty())
}

/// Whether `head` holds exactly the tokens `toks`.
pub open spec fn holds_tokens(head: ParsedHead, toks: Seq<(ParseTypes, Seq<char>)>) -> bool {
    &&& head.tokens@.len() == toks.len()
    &&& forall|k: int| 0 <= k < toks.len() ==> #[trigger] head.tokens@[k].parse_type == toks[k].0
        && head.tokens@[k].value@ == toks[k].1
}

proof fn lemma_count_commands_bound(t: Seq<ElementLine>)
    ensures
        0 <= count_commands(t) <= t.len(),
    decreases t.len(),
{
    if t.len() > 0 {
        lemma_count_commands_bound(t.drop_last());
    }
}

/// Appends the token of kind `type_of_text(text)` and text `text`.
fn push_token(head: &mut ParsedHead, text: String)
    requires
        old(head).wf(),
        old(head).tokens@.len() < i32::MAX,
    ensures
        final(head).wf(),
        final(head).tokens@.len() == old(head).tokens@.len() + 1,
        final(head).tokens@.drop_last() == old(head).tokens@,
        final(head).tokens@.last().parse_type == type_of_text(text@),
        final(head).tokens@.last().value@ == text@,
{
    let mut el = ElementLine::new();
    el.select_type(&text);
    el.add_value(text);
    proof {
        lemma_count_commands_bound(head.tokens@);
    }
    head.add_token(el);
    proof {
        assert(head.tokens@.drop_last() =~= old(head).tokens@);
    }
}

/// Adds the pending word, if not blank (see `flush`).
fn flush_word(head: &mut ParsedHead, cur: &Vec<char>, Ghost(toks): Ghost<Seq<(ParseTypes, Seq<char>)>>)
    requires
        old(head).wf(),
        old(head).tokens@.len() < i32::MAX,
        holds_tokens(*old(head), toks),
    ensures
        final(head).wf(),
        holds_tokens(*final(head), flush(cur@, toks)),
        final(head).tokens@.len() <= old(head).tokens@.len() + 1,
        cur@.len() == 0 ==> final(head).tokens@ == old(head).tokens@,
{
    let w = trim_range(cur, false, ' ');
    if w.len() > 0 {
        let ghost before = head.tokens@;
        push_token(head, string_of(&w));
        proof {
            let t2 = flush(cur@, toks);
            assert forall|k: int| 0 <= k < t2.len() implies #[trigger] head.tokens@[k].parse_type == t2[k].0
                && head.tokens@[k].value@ == t2[k].1 by {
                if k < before.len() {
                    assert(head.tokens@[k] == before[k]);
                }
            }
        }
    }
}

/// Whether `c` is read into a word as it is: not a space, a quote, a
/// pipe, a redirection sign or a newline.
pub open spec fn plain_char(c: char) -> bool {
    c != ' ' && c != '\'' && c != '"' && c != '|' && c != '<' && c != '>' && c != '\n'
}

/// A run of characters that are neither quotes nor operators goes into the
/// word under way.
proof fn lemma_lex_run(v: Seq<char>, i: nat, k: nat, cur: Seq<char>, toks: Seq<(ParseTypes, Seq<char>)>)
    requires
        i <= k <= v.len(),
        forall|m: int| i <= m < k ==> #[trigger] v[m] != '\'' && v[m] != '"' && v[m] != '|' && v[m] != '<'
            && v[m] != '>',
    ensures
        lex(v, i, cur, toks) == lex(v, k, cur + v.subrange(i as int, k as int), toks),
    decreases k - i,
{
    if i < k {
        assert(v[i as int] != '\'' && v[i as int] != '"' && v[i as int] != '|' && v[i as int] != '<' && v[i as int] != '>');
        lemma_lex_run(v, i + 1, k, cur.push(v[i as int]), toks);
        assert(cur.push(v[i as int]) + v.subrange(i + 1int, k as int) =~= cur + v.subrange(i as int, k as int));
    } else {
        assert(cur + v.subrange(i as int, k as int) =~= cur);
    }
}

/// A word of plain characters, with spaces on one side, is added as it is,
/// as a word.
proof fn lemma_flush_plain(w: Seq<char>, sp_before: bool, toks: Seq<(ParseTypes, Seq<char>)>)
    requires
        w.len() > 0,
        forall|k: int| 0 <= k < w.len() ==> plain_char(#[trigger] w[k]),
    ensures
        flush(if sp_before { seq![' '] + w } else { w + seq![' '] }, toks) == toks.push((ParseTypes::Word, w)),
{
    let p = trim_pred(false, ' ');
    assert(plain_char(w[0]) && plain_char(w[w.len() - 1]));
    if sp_before {
        let c = seq![' '] + w;
        assert(p(c[0]));
        assert(c.drop_first() =~= w);
        assert(!p(w[0]));
        assert(trim_start_by(c, p) == trim_start_by(w, p));
        assert(trim_start_by(w, p) == w);
        assert(!p(w.last()));
        assert(trim_end_by(w, p) == w);
    } else {
        let c = w + seq![' '];
        assert(!p(c[0]));
        assert(trim_start_by(c, p) == c);
        assert(p(c.last()));
        assert(c.drop_last() =~= w);
        assert(!p(w.last()));
        assert(trim_end_by(c, p) == trim_end_by(w, p));
        assert(trim_end_by(w, p) == w);
    }
    reveal_strlit("|");
    reveal_strlit(">");
    reveal_strlit("<");
    reveal_strlit(">>");
    reveal_strlit("<<");
    assert(w != "|"@ && w != ">"@ && w != "<"@ && w != ">>"@ && w != "<<"@) by {
        assert(plain_char(w[0]));
    }
    assert(type_of_text(w) == ParseTypes::Word);
}

/// An operator written between two words, with a space on each side, is
/// one token of its own between the two words: `|` a pipe, and each of
/// `<`, `>`, `<<`, `>>` one redirection whose text is the operator (a
/// doubled sign is never cut in two).
pub proof fn law_operator_between_words(w1: Seq<char>, op: Seq<char>, w2: Seq<char>)
    requires
        w1.len() > 0,
        w2.len() > 0,
        forall|k: int| 0 <= k < w1.len() ==> plain_char(#[trigger] w1[k]),
        forall|k: int| 0 <= k < w2.len() ==> plain_char(#[trigger] w2[k]),
        op == seq!['|'] || op == seq!['<'] || op == seq!['>'] || op == seq!['<', '<'] || op == seq!['>', '>'],
    ensures
        tokens_of(w1 + seq![' '] + op + seq![' '] + w2) == Some(
            seq![
                (ParseTypes::Word, w1),
                (if op == seq!['|'] { ParseTypes::Pipe } else { ParseTypes::Redirection }, op),
                (ParseTypes::Word, w2),
            ],
        ),
{
    let v = w1 + seq![' '] + op + seq![' '] + w2;
    let a: int = w1.len() as int;
    let b: int = a + 1 + op.len();
    let e = Seq::<char>::empty();
    let none = Seq::<(ParseTypes, Seq<char>)>::empty();
    assert(v.last() == w2.last());
    assert(plain_char(w2[w2.len() - 1]));
    assert(without_newline(v) == v);
    assert forall|m: int| 0 <= m < a + 1 implies #[trigger] v[m] != '\'' && v[m] != '"' && v[m] != '|' && v[m]
        != '<' && v[m] != '>' by {
        if m < a {
            assert(v[m] == w1[m]);
            assert(plain_char(w1[m]));
        }
    }
    lemma_lex_run(v, 0, (a + 1) as nat, e, none);
    assert(e + v.subrange(0, a + 1) =~= w1 + seq![' ']);
    lemma_flush_plain(w1, false, none);
    let t1 = none.push((ParseTypes::Word, w1));
    assert(v[a + 1] == op[0]);
    assert(v.subrange(a + 1, b as int) =~= op);
    if op.len() == 2 {
        assert(v[a + 2] == op[1]);
    } else {
        assert(v[a + 2] == ' ');
    }
    let kind = if op == seq!['|'] { ParseTypes::Pipe } else { ParseTypes::Redirection };
    let t2 = t1.push((kind, op));
    assert(lex(v, 0, e, none) == lex(v, b as nat, e, t2));
    assert forall|m: int| b <= m < v.len() implies #[trigger] v[m] != '\'' && v[m] != '"' && v[m] != '|' && v[m]
        != '<' && v[m] != '>' by {
        if m > b {
            assert(v[m] == w2[m - b - 1]);
            assert(plain_char(w2[m - b - 1]));
        }
    }
    lemma_lex_run(v, b as nat, v.len(), e, t2);
    assert(e + v.subrange(b as int, v.len() as int) =~= seq![' '] + w2);
    lemma_flush_plain(w2, true, t2);
    assert(t2.push((ParseTypes::Word, w2)) =~= seq![(ParseTypes::Word, w1), (kind, op), (ParseTypes::Word, w2)]);
}

/// A quoted text is one word that keeps its quotes, whatever it holds
/// between them (spaces, pipes and redirection signs included).
pub proof fn law_quoted_text_is_one_word(q: char, x: Seq<char>)
    requires
        q == '\'' || q == '"',
        forall|k: int| 0 <= k < x.len() ==> #[trigger] x[k] != q,
    ensures
        tokens_of(seq![q] + x + seq![q]) == Some(seq![(ParseTypes::Word, seq![q] + x + seq![q])]),
{
    let v = seq![q] + x + seq![q];
    let e = Seq::<char>::empty();
    let none = Seq::<(ParseTypes, Seq<char>)>::empty();
    assert(v.last() == q);
    assert(without_newline(v) == v);
    lemma_find_char_from(v, q, 1);
    assert forall|k: int| 1 <= k < v.len() - 1 implies v[k] != q by {
        assert(v[k] == x[k - 1]);
    }
    assert(find_char_from(v, q, 1) == Some(v.len() - 1));
    assert(e + v.subrange(0, v.len() as int) =~= v);
    assert(lex(v, 0, e, none) == lex(v, v.len(), v, none));
    let p = trim_pred(false, ' ');
    assert(!p(v[0]) && !p(v.last()));
    assert(trim_start_by(v, p) == v);
    assert(trim_end_by(v, p) == v);
    reveal_strlit("|");
    reveal_strlit(">");
    reveal_strlit("<");
    reveal_strlit(">>");
    reveal_strlit("<<");
    assert(v != "|"@ && v != ">"@ && v != "<"@ && v != ">>"@ && v != "<<"@) by {
        assert(v[0] == q);
    }
    assert(none.push((ParseTypes::Word, v)) =~= seq![(ParseTypes::Word, v)]);
}

/// A quote that is never closed makes the line unreadable.
pub proof fn law_open_quote_fails(q: char, x: Seq<char>)
    requires
        q == '\'' || q == '"',
        forall|k: int| 0 <= k < x.len() ==> #[trigger] x[k] != q,
    ensures
        tokens_of(seq![q] + x) is None,
{
    let l = seq![q] + x;
    let v = without_newline(l);
    assert(v.len() >= 1 && v[0] == q) by {
        if x.len() > 0 && l.last() == '\n' {
            assert(v =~= l.drop_last());
        }
    }
    lemma_find_char_from(v, q, 1);
    assert forall|k: int| 1 <= k < v.len() implies v[k] != q by {
        assert(v[k] == l[k]);
        assert(l[k] == x[k - 1]);
    }
    assert(find_char_from(v, q, 1) is None);
}

/// Cuts a command line into tokens (see `lex`); the status is 2, with no
/// tokens, when a quote is left open, and 0 otherwise.
pub fn parser(line: &String) -> (r: (ParsedHead, i32))
    requires
        line@.len() < i32::MAX,
    ensures
        r.0.wf(),
        match tokens_of(line@) {
            Some(toks) => r.1 == 0 && holds_tokens(r.0, toks),
            None => r.1 == 2 && r.0.tokens@.len() == 0 && r.0.n_cmds == 0,
        },
{
    let all = chars_of(line.as_str());
    let v = if all.len() > 0 && all[all.len() - 1] == '\n' {
        subvec(&all, 0, all.len() - 1)
    } else {
        subvec(&all, 0, all.len())
    };
    proof {
        assert(all@.subrange(0, all@.len() as int) =~= all@);
        assert(all@.subrange(0, all@.len() - 1) =~= all@.drop_last());
    }
    let n = v.len();
    let mut head = ParsedHead::new();
    let mut cur: Vec<char> = Vec::new();
    let ghost mut toks: Seq<(ParseTypes, Seq<char>)> = Seq::empty();
    let mut i: usize = 0;
    while i < n
        invariant
            v@ == without_newline(line@),
            n == v@.len(),
            n < i32::MAX,
            i <= n,
            head.wf(),
            head.tokens@.len() + (if cur@.len() > 0 { 1int } else { 0int }) <= i,
            holds_tokens(head, toks),
            lex(v@, i as nat, cur@, toks) == tokens_of(line@),
        decreases n - i,
    {
        let c = v[i];
        if c == '"' || c == '\'' {
            proof {
                lemma_find_char_from(v@, c, i + 1);
            }
            match find_char(&v, c, i + 1) {
                None => {
                    return (ParsedHead::new(), 2);
                },
                Some(j) => {
                    push_all(&mut cur, &subvec(&v, i, j + 1));
                    i = j + 1;
                },
            }
        } else if c == '|' {
            flush_word(&mut head, &cur, Ghost(toks));
            proof {
                toks = flush(cur@, toks);
            }
            let ghost before = head.tokens@;
            push_token(&mut head, String::from_str("|"));
            proof {
                reveal_strlit("|");
                assert(type_of_text("|"@) == ParseTypes::Pipe);
                assert("|"@ =~= seq!['|']);
                let t2 = toks.push((ParseTypes::Pipe, seq!['|']));
                assert forall|k: int| 0 <= k < t2.len() implies #[trigger] head.tokens@[k].parse_type == t2[k].0
                    && head.tokens@[k].value@ == t2[k].1 by {
                    if k < before.len() {
                        assert(head.tokens@[k] == before[k]);
                    }
                }
                toks = t2;
            }
            cur = Vec::new();
            i += 1;
        } else if c == '<' || c == '>' {
            let len: usize = if i + 1 < n && v[i + 1] == c { 2 } else { 1 };
            flush_word(&mut head, &cur, Ghost(toks));
            proof {
                toks = flush(cur@, toks);
            }
            let op = subvec(&v, i, i + len);
            let ghost before = head.tokens@;
            push_token(&mut head, string_of(&op));
            proof {
                reveal_strlit("|");
                reveal_strlit(">");
                reveal_strlit("<");
                reveal_strlit(">>");
                reveal_strlit("<<");
                if len == 1 {
                    assert(op@ =~= seq![c]);
                    if c == '<' {
                        assert(op@ =~= "<"@);
                    } else {
                        assert(op@ =~= ">"@);
                    }
                } else {
                    assert(op@ =~= seq![c, c]);
                    if c == '<' {
                        assert(op@ =~= "<<"@);
                    } else {
                        assert(op@ =~= ">>"@);
                    }
                }
                assert("|"@ =~= seq!['|']);
                assert(op@[0] == c);
                assert(op@ != "|"@);
                assert(type_of_text(op@) == ParseTypes::Redirection);
                let t2 = toks.push((ParseTypes::Redirection, op@));
                assert forall|k: int| 0 <= k < t2.len() implies #[trigger] head.tokens@[k].parse_type == t2[k].0
                    && head.tokens@[k].value@ == t2[k].1 by {
                    if k < before.len() {
                        assert(head.tokens@[k] == before[k]);
                    }
                }
                toks = t2;
            }
            cur = Vec::new();
            i += len;
        } else {
            cur.push(c);
            i += 1;
        }
    }
    flush_word(&mut head, &cur, Ghost(toks));
    (head, 0)
}

} // verus!
