//! Tokens of a command line: their kinds, their text, the list of tokens
//! of a line with its number of commands, the splitting of a command into
//! words, the dispatch of builtins and what becomes of the pipe after a
//! command.

use vstd::prelude::*;

use crate::builtins::{
    arg_names, built_cd, built_env, built_exit, built_export, built_unset, cd_target,
    export_complaint, export_from, views, HostAction,
};
use crate::expand::{expand, expand_chars};
use crate::shell::Shell;
use crate::text::{
    chars_of, find_char, find_char_from, lemma_find_char_from, parse_i32_spec, push_all, str_eq,
    string_of, subvec,
};

verus! {

/// The kind of a token.
#[derive(PartialEq, Eq, Clone, Copy, Debug, Structural)]
pub enum ParseTypes {
    Word,
    Pipe,
    Redirection,
    End,
}

/// One token of a command line: its kind and its text.
#[derive(Clone, PartialEq, Debug)]
pub struct ElementLine {
    pub parse_type: ParseTypes,
    pub value: String,
}

/// The kind that `select_type` gives to a token with text `v`.
pub open spec fn type_of_text(v: Seq<char>) -> ParseTypes {
    if v == "|"@ {
        ParseTypes::Pipe
    } else if v == ">"@ || v == "<"@ || v == ">>"@ || v == "<<"@ {
        ParseTypes::Redirection
    } else {
        ParseTypes::Word
    }
}

impl ElementLine {
    /// An empty token of kind `End`.
    pub fn new() -> (r: ElementLine)
        ensures
            r.parse_type == ParseTypes::End,
            r.value@ == Seq::<char>::empty(),
    {
        ElementLine { parse_type: ParseTypes::End, value: String::new() }
    }

    /// Sets the kind from a token text: `|` is a pipe, `>`, `<`, `>>` and
    /// `<<` are redirections, anything else is a word. The text is kept.
    pub fn select_type(&mut self, value: &String)
        ensures
            final(self).parse_type == type_of_text(value@),
            final(self).value == old(self).value,
    {
        let v = value.as_str();
        if str_eq(v, "|") {
            self.parse_type = ParseTypes::Pipe;
        } else if str_eq(v, ">") || str_eq(v, "<") || str_eq(v, ">>") || str_eq(v, "<<") {
            self.parse_type = ParseTypes::Redirection;
        } else {
            self.parse_type = ParseTypes::Word;
        }
    }

    /// Appends `value` to the text of the token.
    pub fn add_value(&mut self, value: String)
        ensures
            final(self).value@ == old(self).value@ + value@,
            final(self).parse_type == old(self).parse_type,
    {
        self.value.append(value.as_str());
    }

    /// The text of the token.
    pub fn get_value(&self) -> (r: &String)
        ensures
            r == &self.value,
    {
        &self.value
    }

    /// The kind of the token.
    pub fn get_type(&self) -> (r: &ParseTypes)
        ensures
            *r == self.parse_type,
    {
        &self.parse_type
    }
}

/// Whether the token `cmd`, added after `tokens`, starts a new command: it
/// is a word that does not follow a redirection (the word after a
/// redirection names its file).
pub open spec fn starts_command(tokens: Seq<ElementLine>, cmd: ElementLine) -> bool {
    cmd.parse_type == ParseTypes::Word && (tokens.len() == 0 || tokens.last().parse_type
        != ParseTypes::Redirection)
}

/// The number of commands among `tokens`.
pub open spec fn count_commands(tokens: Seq<ElementLine>) -> int
    decreases tokens.len(),
{
    if tokens.len() == 0 {
        0
    } else {
        count_commands(tokens.drop_last()) + if starts_command(tokens.drop_last(), tokens.last()) {
            1int
        } else {
            0int
        }
    }
}

/// The tokens of a command line and the number of commands among them.
#[derive(Clone)]
pub struct ParsedHead {
    pub n_cmds: i32,
    pub tokens: Vec<ElementLine>,
}

impl ParsedHead {
    /// Whether `n_cmds` is the number of commands among the tokens.
    pub open spec fn wf(&self) -> bool {
        self.n_cmds == count_commands(self.tokens@)
    }

    /// Appends a token, counting it as a command where it starts one.
    pub fn add_token(&mut self, cmd: ElementLine)
        requires
            starts_command(old(self).tokens@, cmd) ==> old(self).n_cmds < i32::MAX,
        ensures
            final(self).tokens@ == old(self).tokens@.push(cmd),
            final(self).n_cmds == old(self).n_cmds + if starts_command(old(self).tokens@, cmd) {
                1int
            } else {
                0int
            },
            old(self).wf() ==> final(self).wf(),
    {
        let ghost old_tokens = self.tokens@;
        let n = self.tokens.len();
        if n > 0 && cmd.parse_type == ParseTypes::Word && self.tokens[n - 1].parse_type
            != ParseTypes::Redirection {
            self.n_cmds += 1;
        }
        if n == 0 && cmd.parse_type == ParseTypes::Word {
            self.n_cmds += 1;
        }
        self.tokens.push(cmd);
        proof {
            assert(self.tokens@.drop_last() =~= old_tokens);
        }
    }

    /// An empty list of tokens.
    pub fn new() -> (r: ParsedHead)
        ensures
            r.n_cmds == 0,
            r.tokens@.len() == 0,
            r.wf(),
    {
        ParsedHead { n_cmds: 0, tokens: Vec::new() }
    }
}



/// Whether `c` opens or closes a quoted part of a command.
pub open spec fn is_quote(c: char) -> bool {
    c == '"' || c == '\''
}

/// For the quote at index `i` of `line`: the number of characters up to the
/// next occurrence of the same quote, and whether there is one. Without a
/// closing quote the count runs to the end of the line.
pub fn validade_quote(line: &str, i: &usize) -> (r: (usize, bool))
    requires
        *i < line@.len(),
    ensures
        match find_char_from(line@, line@[*i as int], *i + 1) {
            Some(j) => r == (((j - *i - 1) as usize), true),
            None => r == (((line@.len() - *i - 1) as usize), false),
        },
{
    let v = chars_of(line);
    let q = v[*i];
    proof {
        lemma_find_char_from(v@, q, *i + 1);
    }
    match find_char(&v, q, *i + 1) {
        Some(j) => (j - *i - 1, true),
        None => (v.len() - *i - 1, false),
    }
}

/// The index of the quote that closes the one at index `i` of `v`, or the
/// length of `v` where it is left open.
pub open spec fn closing_quote(v: Seq<char>, i: int) -> int {
    match find_char_from(v, v[i], i + 1) {
        Some(j) => j,
        None => v.len() as int,
    }
}

/// The words of `v` from index `i` on, where `word` is the part of the
/// current word already read, `pending` its unquoted characters not yet
/// expanded, `started` whether the word as written (quotes left out) is
/// not empty, and `acc` the words already found.
///
/// Spaces separate words. A part in single quotes is taken as it is
/// written; a part in double quotes is expanded, and so is each unquoted
/// run (up to the next space or quote). The quotes themselves are dropped,
/// and a quote left open runs to the end of the text. A word is kept where
/// what is written of it, quotes left out, is not empty, even when it
/// expands to nothing: `$UNSET` gives an empty word, `''` gives none.
pub open spec fn split_from(
    v: Seq<char>,
    i: int,
    word: Seq<char>,
    pending: Seq<char>,
    started: bool,
    acc: Seq<Seq<char>>,
    env: Map<Seq<char>, Seq<char>>,
    last_error: i32,
) -> Seq<Seq<char>>
    decreases v.len() - i,
{
    let x = expand(pending, env, last_error);
    if i < 0 || i >= v.len() {
        if started {
            acc.push(word + x)
        } else {
            acc
        }
    } else if is_quote(v[i]) {
        proof {
            lemma_find_char_from(v, v[i], i + 1);
        }
        let j = closing_quote(v, i);
        let part = v.subrange(i + 1, j);
        let q = if v[i] == '"' {
            expand(part, env, last_error)
        } else {
            part
        };
        let next = if j < v.len() {
            j + 1
        } else {
            j
        };
        split_from(v, next, word + x + q, Seq::empty(), started || part.len() > 0, acc, env, last_error)
    } else if v[i] == ' ' {
        if started {
            split_from(v, i + 1, Seq::empty(), Seq::empty(), false, acc.push(word + x), env, last_error)
        } else {
            split_from(v, i + 1, Seq::empty(), Seq::empty(), false, acc, env, last_error)
        }
    } else {
        split_from(v, i + 1, word, pending.push(v[i]), true, acc, env, last_error)
    }
}

/// The words of the command text `v` (see `split_from`).
pub open spec fn split_words(v: Seq<char>, env: Map<Seq<char>, Seq<char>>, last_error: i32) -> Seq<Seq<char>> {
    split_from(v, 0, Seq::empty(), Seq::empty(), false, Seq::empty(), env, last_error)
}

impl ElementLine {
    /// Splits the text of the token into words (see `split_from`).
    pub fn split_string(&self, shell: &Shell) -> (r: Vec<String>)
        ensures
            r@.len() == split_words(self.value@, shell.env@, shell.last_error).len(),
            forall|k: int| 0 <= k < r@.len() ==> #[trigger] r@[k]@ == split_words(
                self.value@,
                shell.env@,
                shell.last_error,
            )[k],
    {
        let ghost env = shell.env@;
        let ghost err = shell.last_error;
        let ghost target = split_words(self.value@, env, err);
        let v = chars_of(self.value.as_str());
        let n = v.len();
        let mut splitted: Vec<String> = Vec::new();
        let ghost mut acc: Seq<Seq<char>> = Seq::empty();
        let mut word: Vec<char> = Vec::new();
        let mut pending: Vec<char> = Vec::new();
        let mut started = false;
        let mut i: usize = 0;
        while i < n
            invariant
                v@ == self.value@,
                n == v@.len(),
                i <= n,
                split_from(v@, i as int, word@, pending@, started, acc, env, err) == target,
                splitted@.len() == acc.len(),
                forall|k: int| 0 <= k < acc.len() ==> #[trigger] splitted@[k]@ == acc[k],
                env == shell.env@,
                err == shell.last_error,
            decreases n - i,
        {
            let c = v[i];
            if c == '"' || c == '\'' {
                let (pos, _closed) = validade_quote(self.value.as_str(), &i);
                proof {
                    lemma_find_char_from(v@, c, i + 1);
                }
                let x = expand_chars(&pending, shell);
                push_all(&mut word, &x);
                let part = subvec(&v, i + 1, i + pos + 1);
                if c == '"' {
                    push_all(&mut word, &expand_chars(&part, shell));
                } else {
                    push_all(&mut word, &part);
                }
                pending = Vec::new();
                started = started || part.len() > 0;
                if i + pos + 1 < n {
                    i = i + pos + 2;
                } else {
                    i = n;
                }
            } else if c == ' ' {
                if started {
                    let x = expand_chars(&pending, shell);
                    push_all(&mut word, &x);
                    splitted.push(string_of(&word));
                    proof {
                        acc = acc.push(word@);
                    }
                }
                word = Vec::new();
                pending = Vec::new();
                started = false;
                i += 1;
            } else {
                pending.push(c);
                started = true;
                i += 1;
            }
        }
        if started {
            let x = expand_chars(&pending, shell);
            push_all(&mut word, &x);
            splitted.push(string_of(&word));
            proof {
                acc = acc.push(word@);
            }
        }
        splitted
    }
}

/// A word in single quotes is kept as it is written, `$` included: the
/// text `'x'` splits into the one word `x`, or into no word when `x` is
/// empty.
pub proof fn law_single_quotes_are_literal(x: Seq<char>, env: Map<Seq<char>, Seq<char>>, last_error: i32)
    requires
        forall|k: int| 0 <= k < x.len() ==> #[trigger] x[k] != '\'',
    ensures
        split_words(seq!['\''] + x + seq!['\''], env, last_error) == if x.len() > 0 {
            seq![x]
        } else {
            Seq::empty()
        },
{
    let v = seq!['\''] + x + seq!['\''];
    lemma_find_char_from(v, '\'', 1);
    assert forall|k: int| 1 <= k < v.len() - 1 implies v[k] != '\'' by {
        assert(v[k] == x[k - 1]);
    }
    assert(v[v.len() - 1] == '\'');
    assert(closing_quote(v, 0) == v.len() - 1);
    assert(v.subrange(1, v.len() - 1) =~= x);
    let e = Seq::<char>::empty();
    assert(expand(e, env, last_error) == e);
    assert(e + e + x =~= x);
    assert(x + e =~= x);
    let none = Seq::<Seq<char>>::empty();
    assert(is_quote(v[0]) && v[0] != '"');
    assert(split_from(v, 0, e, e, false, none, env, last_error) == split_from(
        v,
        v.len() as int,
        x,
        e,
        x.len() > 0,
        none,
        env,
        last_error,
    ));
    assert(split_from(v, v.len() as int, x, e, x.len() > 0, none, env, last_error) == if x.len() > 0 {
        none.push(x)
    } else {
        none
    });
    assert(none.push(x) =~= seq![x]);
}

/// A word in double quotes has its `$` references replaced: the text
/// `"x"` splits into the one word that `x` expands to, empty or not, or
/// into no word when `x` is empty.
pub proof fn law_double_quotes_expand(x: Seq<char>, env: Map<Seq<char>, Seq<char>>, last_error: i32)
    requires
        forall|k: int| 0 <= k < x.len() ==> #[trigger] x[k] != '"',
    ensures
        split_words(seq!['"'] + x + seq!['"'], env, last_error) == if x.len() > 0 {
            seq![expand(x, env, last_error)]
        } else {
            Seq::empty()
        },
{
    let v = seq!['"'] + x + seq!['"'];
    lemma_find_char_from(v, '"', 1);
    assert forall|k: int| 1 <= k < v.len() - 1 implies v[k] != '"' by {
        assert(v[k] == x[k - 1]);
    }
    assert(v[v.len() - 1] == '"');
    assert(closing_quote(v, 0) == v.len() - 1);
    assert(v.subrange(1, v.len() - 1) =~= x);
    let e = Seq::<char>::empty();
    let y = expand(x, env, last_error);
    assert(expand(e, env, last_error) == e);
    assert(e + e + y =~= y);
    assert(y + e =~= y);
    let none = Seq::<Seq<char>>::empty();
    assert(is_quote(v[0]) && v[0] == '"');
    assert(split_from(v, 0, e, e, false, none, env, last_error) == split_from(
        v,
        v.len() as int,
        y,
        e,
        x.len() > 0,
        none,
        env,
        last_error,
    ));
    assert(split_from(v, v.len() as int, y, e, x.len() > 0, none, env, last_error) == if x.len() > 0 {
        none.push(y)
    } else {
        none
    });
    assert(none.push(y) =~= seq![y]);
}

/// Whether the token at index `i` starts a command: a word that is the
/// first token or does not follow a redirection.
pub open spec fn starts_at(tokens: Seq<ElementLine>, i: int) -> bool {
    tokens[i].parse_type == ParseTypes::Word && (i == 0 || tokens[i - 1].parse_type
        != ParseTypes::Redirection)
}

/// The indices of the tokens that start a command.
pub open spec fn command_starts(tokens: Seq<ElementLine>) -> Set<int> {
    Set::new(|i: int| 0 <= i < tokens.len() && starts_at(tokens, i))
}

/// The number of commands that `add_token` keeps is the number of tokens
/// that start one: words that come first or do not follow a redirection.
pub proof fn law_count_commands(tokens: Seq<ElementLine>)
    ensures
        command_starts(tokens).finite(),
        count_commands(tokens) == command_starts(tokens).len(),
    decreases tokens.len(),
{
    if tokens.len() == 0 {
        assert(command_starts(tokens) =~= Set::<int>::empty());
    } else {
        let n = tokens.len() - 1;
        let prev = tokens.drop_last();
        law_count_commands(prev);
        assert forall|i: int| 0 <= i < n implies #[trigger] starts_at(prev, i) == starts_at(tokens, i) by {
            if i > 0 {
                assert(prev[i - 1] == tokens[i - 1]);
            }
        }
        if n > 0 {
            assert(prev.last() == tokens[n - 1]);
        }
        assert(starts_command(prev, tokens.last()) == starts_at(tokens, n));
        if starts_at(tokens, n) {
            assert(command_starts(tokens) =~= command_starts(prev).insert(n));
            assert(!command_starts(prev).contains(n));
        } else {
            assert(command_starts(tokens) =~= command_starts(prev));
        }
    }
}

/// Whether `w` can stand as a word of its own without quotes: it is not
/// empty and holds no space, quote or `$`.
pub open spec fn plain_word(w: Seq<char>) -> bool {
    w.len() > 0 && forall|k: int| 0 <= k < w.len() ==> !is_quote(#[trigger] w[k]) && w[k] != ' '
        && w[k] != '$'
}

/// The words of `ws` written one after the other, a single space between
/// two of them.
pub open spec fn join_words(ws: Seq<Seq<char>>) -> Seq<char>
    decreases ws.len(),
{
    if ws.len() == 0 {
        Seq::empty()
    } else if ws.len() == 1 {
        ws[0]
    } else {
        ws[0] + seq![' '] + join_words(ws.drop_first())
    }
}

/// An unquoted run without spaces goes into the pending characters of the
/// current word.
proof fn lemma_split_run(
    v: Seq<char>,
    i: int,
    k: int,
    word: Seq<char>,
    pending: Seq<char>,
    started: bool,
    acc: Seq<Seq<char>>,
    env: Map<Seq<char>, Seq<char>>,
    last_error: i32,
)
    requires
        0 <= i <= k <= v.len(),
        forall|m: int| i <= m < k ==> !is_quote(#[trigger] v[m]) && v[m] != ' ',
    ensures
        split_from(v, i, word, pending, started, acc, env, last_error) == split_from(
            v,
            k,
            word,
            pending + v.subrange(i, k),
            started || i < k,
            acc,
            env,
            last_error,
        ),
    decreases k - i,
{
    if i < k {
        assert(!is_quote(v[i]) && v[i] != ' ');
        lemma_split_run(v, i + 1, k, word, pending.push(v[i]), true, acc, env, last_error);
        assert(pending.push(v[i]) + v.subrange(i + 1, k) =~= pending + v.subrange(i, k));
    } else {
        assert(pending + v.subrange(i, k) =~= pending);
    }
}

/// The words of `v` from index `i` on, where `v` goes on with the plain
/// words `ws` joined by single spaces, are those words.
proof fn lemma_split_joined(
    v: Seq<char>,
    i: int,
    ws: Seq<Seq<char>>,
    acc: Seq<Seq<char>>,
    env: Map<Seq<char>, Seq<char>>,
    last_error: i32,
)
    requires
        0 <= i <= v.len(),
        ws.len() > 0,
        forall|k: int| 0 <= k < ws.len() ==> plain_word(#[trigger] ws[k]),
        v.skip(i) == join_words(ws),
    ensures
        split_from(v, i, Seq::empty(), Seq::empty(), false, acc, env, last_error) == acc + ws,
    decreases ws.len(),
{
    let w0 = ws[0];
    let e = Seq::<char>::empty();
    assert(plain_word(w0));
    let k = i + w0.len();
    assert(v.skip(i).len() == v.len() - i);
    assert(k <= v.len()) by {
        if ws.len() > 1 {
            assert(join_words(ws) == w0 + seq![' '] + join_words(ws.drop_first()));
        }
    }
    assert forall|m: int| i <= m < k implies !is_quote(#[trigger] v[m]) && v[m] != ' ' by {
        assert(v[m] == v.skip(i)[m - i]);
        if ws.len() > 1 {
            assert(join_words(ws) == w0 + seq![' '] + join_words(ws.drop_first()));
        }
        assert(v.skip(i)[m - i] == w0[m - i]);
    }
    lemma_split_run(v, i, k, e, e, false, acc, env, last_error);
    assert(v.subrange(i, k) =~= w0) by {
        assert forall|m: int| 0 <= m < w0.len() implies v.subrange(i, k)[m] == w0[m] by {
            assert(v[i + m] == v.skip(i)[m]);
            if ws.len() > 1 {
                assert(join_words(ws) == w0 + seq![' '] + join_words(ws.drop_first()));
            }
        }
    }
    assert(e + w0 =~= w0);
    crate::expand::law_expand_without_dollar(w0, env, last_error);
    if ws.len() == 1 {
        assert(k == v.len());
        assert(acc.push(w0) =~= acc + ws);
    } else {
        let rest = ws.drop_first();
        assert(join_words(ws) == w0 + seq![' '] + join_words(rest));
        assert(v[k] == ' ') by {
            assert(v[k] == v.skip(i)[w0.len() as int]);
        }
        assert(v.skip(k + 1) =~= join_words(rest)) by {
            assert forall|m: int| 0 <= m < v.skip(k + 1).len() implies #[trigger] v.skip(k + 1)[m]
                == join_words(rest)[m] by {
                assert(v.skip(k + 1)[m] == v.skip(i)[w0.len() + 1 + m]);
            }
        }
        assert forall|m: int| 0 <= m < rest.len() implies plain_word(#[trigger] rest[m]) by {
            assert(rest[m] == ws[m + 1]);
        }
        lemma_split_joined(v, k + 1, rest, acc.push(w0), env, last_error);
        assert(acc.push(w0) + rest =~= acc + ws);
    }
}

/// Spaces separate words: plain words joined by single spaces split back
/// into those words.
pub proof fn law_spaces_separate_words(ws: Seq<Seq<char>>, env: Map<Seq<char>, Seq<char>>, last_error: i32)
    requires
        ws.len() > 0,
        forall|k: int| 0 <= k < ws.len() ==> plain_word(#[trigger] ws[k]),
    ensures
        split_words(join_words(ws), env, last_error) == ws,
{
    let v = join_words(ws);
    assert(v.skip(0) =~= v);
    lemma_split_joined(v, 0, ws, Seq::empty(), env, last_error);
    assert(Seq::<Seq<char>>::empty() + ws =~= ws);
}

/// An unquoted word without spaces is expanded as a whole: it gives the
/// one word it expands to, even an empty one; only the empty text gives
/// no word.
pub proof fn law_unquoted_word_expands(w: Seq<char>, env: Map<Seq<char>, Seq<char>>, last_error: i32)
    requires
        forall|k: int| 0 <= k < w.len() ==> !is_quote(#[trigger] w[k]) && w[k] != ' ',
    ensures
        split_words(w, env, last_error) == if w.len() > 0 {
            seq![expand(w, env, last_error)]
        } else {
            Seq::empty()
        },
{
    let e = Seq::<char>::empty();
    let none = Seq::<Seq<char>>::empty();
    lemma_split_run(w, 0, w.len() as int, e, e, false, none, env, last_error);
    assert(e + w.subrange(0, w.len() as int) =~= w);
    let x = expand(w, env, last_error);
    assert(e + x =~= x);
    assert(none.push(x) =~= seq![x]);
}

/// Scanning `u` with an empty quoted part after it goes as scanning `u`
/// alone, from any index of `u` on, when `u` holds no quote.
proof fn lemma_split_empty_quotes(
    u: Seq<char>,
    q: char,
    i: int,
    word: Seq<char>,
    pending: Seq<char>,
    started: bool,
    acc: Seq<Seq<char>>,
    env: Map<Seq<char>, Seq<char>>,
    last_error: i32,
)
    requires
        q == '\'' || q == '"',
        forall|k: int| 0 <= k < u.len() ==> #[trigger] u[k] != '\'' && u[k] != '"',
        0 <= i <= u.len(),
    ensures
        split_from(u + seq![q, q], i, word, pending, started, acc, env, last_error) == split_from(
            u,
            i,
            word,
            pending,
            started,
            acc,
            env,
            last_error,
        ),
    decreases u.len() - i,
{
    let v = u + seq![q, q];
    let e = Seq::<char>::empty();
    if i < u.len() {
        assert(v[i] == u[i]);
        assert(u[i] != '\'' && u[i] != '"');
        lemma_split_empty_quotes(u, q, i + 1, e, e, false, acc.push(word + expand(pending, env, last_error)), env, last_error);
        lemma_split_empty_quotes(u, q, i + 1, e, e, false, acc, env, last_error);
        lemma_split_empty_quotes(u, q, i + 1, word, pending.push(u[i]), true, acc, env, last_error);
    } else {
        assert(v[i] == q && v[i + 1] == q);
        assert(find_char_from(v, q, i + 1) == Some(i + 1));
        assert(closing_quote(v, i) == i + 1);
        assert(v.subrange(i + 1, i + 1) =~= e);
        assert(expand(e, env, last_error) == e);
        let x = expand(pending, env, last_error);
        assert(word + x + e + e =~= word + x);
        assert(split_from(v, i, word, pending, started, acc, env, last_error) == split_from(
            v,
            i + 2,
            word + x + e,
            e,
            started,
            acc,
            env,
            last_error,
        ));
    }
}

/// An empty quoted part adds nothing and removes nothing: after a text
/// without quotes, `''` or `""` leaves its words as they are (a word
/// already begun is kept).
pub proof fn law_empty_quotes_add_nothing(u: Seq<char>, q: char, env: Map<Seq<char>, Seq<char>>, last_error: i32)
    requires
        q == '\'' || q == '"',
        forall|k: int| 0 <= k < u.len() ==> #[trigger] u[k] != '\'' && u[k] != '"',
    ensures
        split_words(u + seq![q, q], env, last_error) == split_words(u, env, last_error),
{
    let e = Seq::<char>::empty();
    lemma_split_empty_quotes(u, q, 0, e, e, false, Seq::empty(), env, last_error);
}

/// A plain word followed by an empty quoted part is that one word.
pub proof fn law_word_then_empty_quotes(w: Seq<char>, q: char, env: Map<Seq<char>, Seq<char>>, last_error: i32)
    requires
        q == '\'' || q == '"',
        plain_word(w),
    ensures
        split_words(w + seq![q, q], env, last_error) == seq![w],
{
    assert forall|k: int| 0 <= k < w.len() implies #[trigger] w[k] != '\'' && w[k] != '"' by {
        assert(!is_quote(w[k]));
    }
    law_empty_quotes_add_nothing(w, q, env, last_error);
    law_unquoted_word_expands(w, env, last_error);
    crate::expand::law_expand_without_dollar(w, env, last_error);
}

/// Whether some word after the first one is not empty, that is whether
/// the words after the command, put together, are not empty.
pub fn has_arguments(splitted: &Vec<String>) -> (r: bool)
    ensures
        r == exists|i: int| 1 <= i < splitted@.len() && #[trigger] splitted@[i]@.len() > 0,
{
    let mut i: usize = 1;
    while i < splitted.len()
        invariant
            1 <= i,
            forall|j: int| 1 <= j < i && j < splitted@.len() ==> #[trigger] splitted@[j]@.len() == 0,
        decreases splitted.len() - i,
    {
        if splitted[i].as_str().unicode_len() > 0 {
            return true;
        }
        i += 1;
    }
    false
}

/// How a command of a pipeline was handled.
#[derive(Clone, Copy, PartialEq, Eq, Debug, Structural)]
pub enum CommandOutcome {
    /// It was a builtin, run by the shell itself.
    Builtin,
    /// It was found in `PATH` and a child process was started.
    Spawned,
    /// It was neither.
    NotFound,
}

/// What becomes of the two ends of the pipe after a command.
#[derive(Clone, Copy, PartialEq, Eq, Debug, Structural)]
pub enum PipeRewire {
    /// The input end is closed; the output end stays.
    CloseIn,
    /// The output end becomes the next input; the output end is closed.
    ForwardOut,
    /// The child is waited for and both ends are closed.
    CloseBoth,
    /// The child's output becomes the next input; the output end is closed.
    ChildOut,
}

/// How the pipe is rewired after a command handled as `outcome`, `last`
/// telling whether it ends the pipeline: a builtin closes the input when
/// last and forwards the output otherwise; a child is waited for when last
/// and feeds the next command otherwise; a command not found forwards the
/// output.
pub fn rewire(outcome: CommandOutcome, last: bool) -> (r: PipeRewire)
    ensures
        r == match outcome {
            CommandOutcome::Builtin => if last {
                PipeRewire::CloseIn
            } else {
                PipeRewire::ForwardOut
            },
            CommandOutcome::Spawned => if last {
                PipeRewire::CloseBoth
            } else {
                PipeRewire::ChildOut
            },
            CommandOutcome::NotFound => PipeRewire::ForwardOut,
        },
{
    match outcome {
        CommandOutcome::Builtin => if last {
            PipeRewire::CloseIn
        } else {
            PipeRewire::ForwardOut
        },
        CommandOutcome::Spawned => if last {
            PipeRewire::CloseBoth
        } else {
            PipeRewire::ChildOut
        },
        CommandOutcome::NotFound => PipeRewire::ForwardOut,
    }
}

/// The inputs on which the shell can run the builtin `cmd` without
/// panicking: `cd` needs `PWD` (and a command word), `env` panics without
/// arguments.
pub open spec fn builtin_runs(cmd: Seq<char>, splitted: Seq<String>, env: Map<Seq<char>, Seq<char>>) -> bool {
    &&& cmd == "cd"@ && splitted.len() <= 2 ==> splitted.len() >= 1 && env.contains_key("PWD"@)
    &&& cmd == "env"@ ==> splitted.len() > 1
}

impl ElementLine {
    /// Runs `cmd` if it is a builtin, with `splitted` as its words (the
    /// first being the command). Gives 1 for a builtin (for `env`, its
    /// status, which is 1), 0 otherwise, together with what the host still
    /// has to do. The status of the builtin goes to `shell.error`.
    pub fn is_builtin(&self, shell: &mut Shell, cmd: String, splitted: &mut Vec<String>) -> (r: (i32, HostAction))
        requires
            builtin_runs(cmd@, old(splitted)@, old(shell).env@),
        ensures
            final(shell).line == old(shell).line,
            final(shell).tokens == old(shell).tokens,
            final(shell).last_error == old(shell).last_error,
            cmd@ != "cd"@ ==> final(splitted)@ == old(splitted)@,
            if cmd@ == "cd"@ {
                r.0 == 1 && if old(splitted)@.len() > 2 {
                    final(shell).error == 1 && (r.1 matches HostAction::Complain(m) && m@
                        == "minishell: cd: too many arguments"@) && final(shell).env@ == old(shell).env@
                        && final(splitted)@ == old(splitted)@
                } else {
                    final(splitted)@ == (if old(splitted)@.len() == 1 {
                        old(splitted)@.push(final(splitted)@[1])
                    } else {
                        old(splitted)@
                    }) && (old(splitted)@.len() == 1 ==> final(splitted)@[1]@ == "~"@) &&
                    final(shell).error == 0 && (r.1 matches HostAction::ChangeDir(d) && d@
                        == cd_target(old(splitted)@)) && final(shell).env@ == old(shell).env@.insert(
                        "OLDPWD"@,
                        old(shell).env@["PWD"@],
                    )
                }
            } else if cmd@ == "env"@ {
                r.0 == 1 && final(shell).error == 1 && (r.1 matches HostAction::Complain(m) && m@
                    == "minishell: env: too many arguments"@) && final(shell).env@ == old(shell).env@
            } else if cmd@ == "export"@ {
                r.0 == 1 && final(shell).env@ == export_from(old(shell).env@, views(old(splitted)@), 1).0
                    && match export_from(old(shell).env@, views(old(splitted)@), 1).1 {
                    None => final(shell).error == 0 && r.1 is Nothing,
                    Some(b) => final(shell).error == 1 && (r.1 matches HostAction::Complain(m) && m@
                        == export_complaint(old(splitted)@[b]@)),
                }
            } else if cmd@ == "pwd"@ {
                r.0 == 1 && r.1 is PrintWorkingDir && final(shell).error == 0 && final(shell).env@
                    == old(shell).env@
            } else if cmd@ == "unset"@ {
                r.0 == 1 && r.1 is Nothing && final(shell).error == 0 && final(shell).env@ == old(
                    shell).env@.remove_keys(arg_names(old(splitted)@))
            } else if cmd@ == "exit"@ {
                r.0 == 1 && final(shell).env@ == old(shell).env@ && if old(splitted)@.len() > 2 {
                    final(shell).error == 1 && (r.1 matches HostAction::Complain(m) && m@
                        == "minishell: exit: too many arguments"@)
                } else if old(splitted)@.len() == 2 {
                    final(shell).error == 0 && r.1 == HostAction::Exit(
                        parse_i32_spec(old(splitted)@[1]@),
                    )
                } else {
                    final(shell).error == 0 && r.1 == HostAction::Exit(Some(old(shell).error))
                }
            } else {
                r.0 == 0 && r.1 is Nothing && final(shell).env@ == old(shell).env@ && final(
                    shell).error == old(shell).error
            },
    {
        let c = cmd.as_str();
        if str_eq(c, "cd") {
            let (e, a) = built_cd(shell, splitted);
            shell.error = e;
            (1, a)
        } else if str_eq(c, "env") {
            let (e, a) = built_env(shell, splitted);
            shell.error = e;
            (shell.error, a)
        } else if str_eq(c, "export") {
            let (e, a) = built_export(shell, splitted.as_mut_slice());
            shell.error = e;
            (1, a)
        } else if str_eq(c, "pwd") {
            shell.error = 0;
            (1, HostAction::PrintWorkingDir)
        } else if str_eq(c, "unset") {
            shell.error = built_unset(shell, splitted.as_mut_slice());
            (1, HostAction::Nothing)
        } else if str_eq(c, "exit") {
            let (e, a) = built_exit(shell, splitted);
            shell.error = e;
            (1, a)
        } else {
            (0, HostAction::Nothing)
        }
    }
}

/// A command that is neither a builtin nor found in `PATH`: the status
/// becomes 127 and the complaint to print on standard error is given back.
pub fn command_not_found(shell: &mut Shell, cmd: &String) -> (r: String)
    ensures
        r@ == "minishell: "@ + cmd@ + ": command not found"@,
        final(shell).error == 127,
        final(shell).env@ == old(shell).env@,
        final(shell).line == old(shell).line,
        final(shell).tokens == old(shell).tokens,
        final(shell).last_error == old(shell).last_error,
{
    shell.error = 127;
    let mut m = String::from_str("minishell: ");
    m.append(cmd.as_str());
    m.append(": command not found");
    m
}

} // verus!
