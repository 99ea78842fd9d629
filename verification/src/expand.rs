//! Replacement of `$` references in a word by the values of environment
//! variables, or by the previous exit status for `$?`.

use vstd::prelude::*;

use crate::shell::Shell;
use crate::text::{
    all_digits, chars_of, decimal, decimal_of, is_digit, lemma_nat_decimal_digits, nat_decimal,
    push_all, push_char, string_of, subvec,
};

verus! {

/// The characters of the class `[!#%^&*()+={}\[\]|:;\\<>,?/]`.
pub open spec fn is_special_char(c: char) -> bool {
    c == '!' || c == '#' || c == '%' || c == '^' || c == '&' || c == '*' || c == '(' || c == ')'
        || c == '+' || c == '=' || c == '{' || c == '}' || c == '[' || c == ']' || c == '|'
        || c == ':' || c == ';' || c == '\\' || c == '<' || c == '>' || c == ',' || c == '?'
        || c == '/'
}

/// Whether some character of `s` is one of the special characters.
pub open spec fn has_special_char(s: Seq<char>) -> bool {
    exists|i: int| 0 <= i < s.len() && #[trigger] is_special_char(s[i])
}

/// What `regex::Regex::new(pattern)` followed by `is_match(haystack)`
/// gives: whether the expression matches somewhere in the haystack, or
/// `None` where the pattern is refused. It depends on the two texts alone.
pub uninterp spec fn regex_match(pattern: Seq<char>, haystack: Seq<char>) -> Option<bool>;

/// Whether the regular expression `pattern` matches somewhere in
/// `haystack`; `None` where `regex::Regex::new` refuses the pattern.
/// The calls are `regex::Regex::new` and `regex::Regex::is_match`.
///
/// The result is `regex_match` of the two texts. Of the pattern
/// `[!#%^&*()+={}\[\]|:;\\<>,?/]`, a character class, the regex
/// documentation says that it compiles and matches any one of the listed
/// characters, and `is_match` reports a match anywhere in the haystack;
/// that is stated. Nothing more is stated for other patterns.
#[verifier::external_body]
fn regex_is_match(pattern: &str, haystack: &str) -> (r: Option<bool>)
    ensures
        r == regex_match(pattern@, haystack@),
        pattern@ == "[!#%^&*()+={}\\[\\]|:;\\\\<>,?/]"@ ==> r == Some(has_special_char(haystack@)),
{
    match regex::Regex::new(pattern) {
        Ok(re) => Some(re.is_match(haystack)),
        Err(_) => None,
    }
}

/// Whether `c` is one of the special characters, as the regular
/// expression of their class tells.
pub fn is_special(c: char) -> (r: bool)
    ensures
        r == is_special_char(c),
{
    let mut s = String::new();
    push_char(&mut s, c);
    proof {
        assert(s@ =~= seq![c]);
        if is_special_char(c) {
            assert(is_special_char(s@[0]));
        }
    }
    match regex_is_match("[!#%^&*()+={}\\[\\]|:;\\\\<>,?/]", s.as_str()) {
        Some(b) => b,
        None => false,
    }
}

/// Whether `c` ends the name of a `$` reference: a space, a quote, a `$`
/// or a special character.
pub open spec fn ends_name(c: char) -> bool {
    c == ' ' || c == '\'' || c == '"' || c == '$' || is_special_char(c)
}

/// The exec form of `ends_name`.
fn ends_name_exec(c: char) -> (r: bool)
    ensures
        r == ends_name(c),
{
    c == ' ' || c == '\'' || c == '"' || c == '$' || is_special(c)
}

/// The index where a name that starts at `i` in `w` ends: the first index
/// from `i` on holding a character that ends names, or the length of `w`.
pub open spec fn name_end(w: Seq<char>, i: int) -> int
    decreases w.len() - i,
{
    if 0 <= i < w.len() && !ends_name(w[i]) {
        name_end(w, i + 1)
    } else {
        i
    }
}

/// `name_end` lies between its start and the end of the word, and the
/// characters before it belong to the name.
pub proof fn lemma_name_end(w: Seq<char>, i: int)
    requires
        0 <= i <= w.len(),
    ensures
        i <= name_end(w, i) <= w.len(),
        forall|k: int| i <= k < name_end(w, i) ==> !ends_name(#[trigger] w[k]),
        name_end(w, i) < w.len() ==> ends_name(w[name_end(w, i)]),
    decreases w.len() - i,
{
    if i < w.len() && !ends_name(w[i]) {
        lemma_name_end(w, i + 1);
    }
}

/// The value of the variable `name`, empty where it is not set.
pub open spec fn variable_value(env: Map<Seq<char>, Seq<char>>, name: Seq<char>) -> Seq<char> {
    if env.contains_key(name) {
        env[name]
    } else {
        Seq::empty()
    }
}

/// The expansion of `w` from index `i` on. `$?` gives the previous exit
/// status in decimal. A `$` followed by a character that does not end a
/// name starts a reference: the name runs up to `name_end`, and the `$`
/// and the name give the value of the variable (nothing where it is not
/// set). A `$` that starts no reference (at the end of the word, or before
/// a character that ends names) is removed. Any other character is kept.
pub open spec fn expand_from(w: Seq<char>, i: int, env: Map<Seq<char>, Seq<char>>, last_error: i32) -> Seq<char>
    decreases w.len() - i,
{
    if i < 0 || i >= w.len() {
        Seq::empty()
    } else if w[i] == '$' && i + 1 < w.len() && w[i + 1] == '?' {
        decimal(last_error as int) + expand_from(w, i + 2, env, last_error)
    } else if w[i] == '$' && i + 1 < w.len() && !ends_name(w[i + 1]) {
        proof {
            lemma_name_end(w, i + 1);
        }
        let e = name_end(w, i + 1);
        variable_value(env, w.subrange(i + 1, e)) + expand_from(w, e, env, last_error)
    } else if w[i] == '$' {
        expand_from(w, i + 1, env, last_error)
    } else {
        seq![w[i]] + expand_from(w, i + 1, env, last_error)
    }
}

/// The word `w` with its `$` references replaced (see `expand_from`).
pub open spec fn expand(w: Seq<char>, env: Map<Seq<char>, Seq<char>>, last_error: i32) -> Seq<char> {
    expand_from(w, 0, env, last_error)
}

/// The characters of `w` with their `$` references replaced.
pub fn expand_chars(w: &Vec<char>, shell: &Shell) -> (r: Vec<char>)
    ensures
        r@ == expand(w@, shell.env@, shell.last_error),
{
    let ghost env = shell.env@;
    let ghost err = shell.last_error;
    let n = w.len();
    let mut out: Vec<char> = Vec::new();
    let mut i: usize = 0;
    while i < n
        invariant
            n == w@.len(),
            i <= n,
            env == shell.env@,
            err == shell.last_error,
            out@ + expand_from(w@, i as int, env, err) == expand(w@, env, err),
        decreases n - i,
    {
        if w[i] == '$' && i + 1 < n && w[i + 1] == '?' {
            let status = chars_of(decimal_of(shell.last_error).as_str());
            let ghost before = out@;
            push_all(&mut out, &status);
            proof {
                assert(before + expand_from(w@, i as int, env, err) == out@ + expand_from(w@, i + 2, env, err));
            }
            i = i + 2;
        } else if w[i] == '$' && i + 1 < n && !ends_name_exec(w[i + 1]) {
            let mut e = i + 1;
            while e < n && !ends_name_exec(w[e])
                invariant
                    n == w@.len(),
                    i + 1 <= e <= n,
                    name_end(w@, i + 1) == name_end(w@, e as int),
                decreases n - e,
            {
                e += 1;
            }
            proof {
                lemma_name_end(w@, i + 1);
            }
            let name = string_of(&subvec(w, i + 1, e));
            let ghost before = out@;
            match shell.env.get_env(name.as_str()) {
                Some(val) => {
                    push_all(&mut out, &chars_of(val.as_str()));
                },
                None => {},
            }
            proof {
                assert(out@ == before + variable_value(env, w@.subrange(i + 1, e as int)));
                assert(before + expand_from(w@, i as int, env, err) == out@ + expand_from(w@, e as int, env, err));
            }
            i = e;
        } else if w[i] == '$' {
            i = i + 1;
        } else {
            let ghost before = out@;
            out.push(w[i]);
            proof {
                assert(before + expand_from(w@, i as int, env, err) == out@ + expand_from(w@, i + 1, env, err));
            }
            i = i + 1;
        }
    }
    assert(out@ + Seq::<char>::empty() =~= out@);
    out
}

/// Replaces the `$` references of `word` (see `expand_from`): `$?` by the
/// previous exit status, `$NAME` by the value of `NAME` or by nothing, and
/// removes any other `$`.
pub fn remove_dolar_by_env(word: String, shell: &Shell) -> (r: String)
    ensures
        r@ == expand(word@, shell.env@, shell.last_error),
{
    let w = chars_of(word.as_str());
    string_of(&expand_chars(&w, shell))
}

/// From index `i` on, a word without `$` expands to itself.
proof fn lemma_expand_from_plain(w: Seq<char>, i: int, env: Map<Seq<char>, Seq<char>>, last_error: i32)
    requires
        0 <= i <= w.len(),
        forall|k: int| 0 <= k < w.len() ==> #[trigger] w[k] != '$',
    ensures
        expand_from(w, i, env, last_error) == w.skip(i),
    decreases w.len() - i,
{
    if i < w.len() {
        lemma_expand_from_plain(w, i + 1, env, last_error);
        assert(w.skip(i) =~= seq![w[i]] + w.skip(i + 1));
    } else {
        assert(w.skip(i) =~= Seq::<char>::empty());
    }
}

/// A word without `$` is left as it is.
pub proof fn law_expand_without_dollar(w: Seq<char>, env: Map<Seq<char>, Seq<char>>, last_error: i32)
    requires
        forall|k: int| 0 <= k < w.len() ==> #[trigger] w[k] != '$',
    ensures
        expand(w, env, last_error) == w,
{
    lemma_expand_from_plain(w, 0, env, last_error);
    assert(w.skip(0) =~= w);
}

/// `name_end` depends only on the characters from its start on.
proof fn lemma_name_end_shift(w: Seq<char>, i: int, u: Seq<char>, j: int)
    requires
        0 <= i <= w.len(),
        0 <= j <= u.len(),
        w.skip(i) == u.skip(j),
    ensures
        name_end(w, i) - i == name_end(u, j) - j,
    decreases w.len() - i,
{
    assert(w.len() - i == u.len() - j) by {
        assert(w.skip(i).len() == w.len() - i);
        assert(u.skip(j).len() == u.len() - j);
    }
    if i < w.len() {
        assert(w[i] == w.skip(i)[0]);
        assert(u[j] == u.skip(j)[0]);
        assert(w.skip(i + 1) =~= u.skip(j + 1)) by {
            assert forall|k: int| 0 <= k < w.skip(i + 1).len() implies #[trigger] w.skip(i + 1)[k] == u.skip(j + 1)[k] by {
                assert(w.skip(i + 1)[k] == w.skip(i)[k + 1]);
                assert(u.skip(j + 1)[k] == u.skip(j)[k + 1]);
            }
        }
        lemma_name_end_shift(w, i + 1, u, j + 1);
    }
}

/// `expand_from` depends only on the characters from its start on.
proof fn lemma_expand_from_shift(
    w: Seq<char>,
    i: int,
    u: Seq<char>,
    j: int,
    env: Map<Seq<char>, Seq<char>>,
    last_error: i32,
)
    requires
        0 <= i <= w.len(),
        0 <= j <= u.len(),
        w.skip(i) == u.skip(j),
    ensures
        expand_from(w, i, env, last_error) == expand_from(u, j, env, last_error),
    decreases w.len() - i,
{
    assert(w.len() - i == u.len() - j) by {
        assert(w.skip(i).len() == w.len() - i);
        assert(u.skip(j).len() == u.len() - j);
    }
    assert forall|k: int| i <= k < w.len() implies #[trigger] w[k] == u[k - i + j] by {
        assert(w[k] == w.skip(i)[k - i]);
        assert(u[k - i + j] == u.skip(j)[k - i]);
    }
    if i < w.len() {
        assert(w[i] == u[j]);
        if i + 1 < w.len() {
            assert(w[i + 1] == u[j + 1]);
        }
        if w[i] == '$' && i + 1 < w.len() && w[i + 1] == '?' {
            assert(w.skip(i + 2) =~= u.skip(j + 2));
            lemma_expand_from_shift(w, i + 2, u, j + 2, env, last_error);
        } else if w[i] == '$' && i + 1 < w.len() && !ends_name(w[i + 1]) {
            assert(w.skip(i + 1) =~= u.skip(j + 1));
            lemma_name_end_shift(w, i + 1, u, j + 1);
            lemma_name_end(w, i + 1);
            lemma_name_end(u, j + 1);
            let e = name_end(w, i + 1);
            let f = name_end(u, j + 1);
            assert(w.subrange(i + 1, e) =~= u.subrange(j + 1, f));
            assert(w.skip(e) =~= u.skip(f));
            lemma_expand_from_shift(w, e, u, f, env, last_error);
        } else {
            assert(w.skip(i + 1) =~= u.skip(j + 1));
            lemma_expand_from_shift(w, i + 1, u, j + 1, env, last_error);
        }
    }
}

/// `$NAME`, where `NAME` holds no space, quote, `$` or special character,
/// followed by text that starts with one of these (or by nothing), gives
/// the value of `NAME`, or nothing where it is not set, followed by the
/// expansion of that text. So exactly these characters end a name.
pub proof fn law_expand_reference(name: Seq<char>, rest: Seq<char>, env: Map<Seq<char>, Seq<char>>, last_error: i32)
    requires
        name.len() > 0,
        forall|k: int|
            0 <= k < name.len() ==> #[trigger] name[k] != ' ' && name[k] != '\'' && name[k] != '"'
                && name[k] != '$' && !is_special_char(name[k]),
        rest.len() > 0 ==> rest[0] == ' ' || rest[0] == '\'' || rest[0] == '"' || rest[0] == '$'
            || is_special_char(rest[0]),
    ensures
        expand(seq!['$'] + name + rest, env, last_error) == variable_value(env, name) + expand(
            rest,
            env,
            last_error,
        ),
{
    let w = seq!['$'] + name + rest;
    let e: int = name.len() as int + 1;
    assert forall|k: int| 1 <= k < e implies !ends_name(#[trigger] w[k]) by {
        assert(w[k] == name[k - 1]);
        assert(name[k - 1] != ' ' && name[k - 1] != '\'' && name[k - 1] != '"' && name[k - 1] != '$'
            && !is_special_char(name[k - 1]));
    }
    if e < w.len() {
        assert(w[e] == rest[0]);
    }
    lemma_name_end(w, 1);
    if name_end(w, 1) < e {
        assert(!ends_name(w[name_end(w, 1)]));
    }
    assert(name_end(w, 1) == e);
    assert(w[1] == name[0]);
    assert(w[1] != '?');
    assert(w.subrange(1, e) =~= name);
    assert(w.skip(e) =~= rest.skip(0));
    lemma_expand_from_shift(w, e, rest, 0, env, last_error);
}

/// Text without `$` in front of a word is kept as it is, and the rest
/// expands on its own.
pub proof fn law_expand_plain_prefix(a: Seq<char>, b: Seq<char>, env: Map<Seq<char>, Seq<char>>, last_error: i32)
    requires
        forall|k: int| 0 <= k < a.len() ==> #[trigger] a[k] != '$',
    ensures
        expand(a + b, env, last_error) == a + expand(b, env, last_error),
    decreases a.len(),
{
    if a.len() > 0 {
        let w = a + b;
        let a2 = a.drop_first();
        assert(w[0] == a[0]);
        assert(forall|k: int| 0 <= k < a2.len() ==> #[trigger] a2[k] == a[k + 1]);
        law_expand_plain_prefix(a2, b, env, last_error);
        assert(w.skip(1) =~= (a2 + b).skip(0));
        lemma_expand_from_shift(w, 1, a2 + b, 0, env, last_error);
        assert(seq![a[0]] + (a2 + expand(b, env, last_error)) =~= a + expand(b, env, last_error));
    } else {
        assert(a + b =~= b);
        assert(a + expand(b, env, last_error) =~= expand(b, env, last_error));
    }
}

/// `$?` gives the previous exit status, whatever follows it.
pub proof fn law_expand_status_then(rest: Seq<char>, env: Map<Seq<char>, Seq<char>>, last_error: i32)
    ensures
        expand(seq!['$', '?'] + rest, env, last_error) == decimal(last_error as int) + expand(rest, env, last_error),
{
    let w = seq!['$', '?'] + rest;
    assert(w[0] == '$' && w[1] == '?');
    assert(w.skip(2) =~= rest.skip(0));
    lemma_expand_from_shift(w, 2, rest, 0, env, last_error);
}

/// A `$` at the end of the word, or before a space, a quote, a `$` or a
/// special character other than `?`, is removed.
pub proof fn law_expand_lone_dollar(rest: Seq<char>, env: Map<Seq<char>, Seq<char>>, last_error: i32)
    requires
        rest.len() > 0 ==> rest[0] != '?' && (rest[0] == ' ' || rest[0] == '\'' || rest[0] == '"' || rest[0]
            == '$' || is_special_char(rest[0])),
    ensures
        expand(seq!['$'] + rest, env, last_error) == expand(rest, env, last_error),
{
    let w = seq!['$'] + rest;
    assert(w[0] == '$');
    if rest.len() > 0 {
        assert(w[1] == rest[0]);
    }
    assert(w.skip(1) =~= rest.skip(0));
    lemma_expand_from_shift(w, 1, rest, 0, env, last_error);
}

/// Whether `c` is an ASCII letter, an ASCII digit or `_`.
pub open spec fn is_word_char(c: char) -> bool {
    ('a' <= c && c <= 'z') || ('A' <= c && c <= 'Z') || ('0' <= c && c <= '9') || c == '_'
}

/// `$NAME` for a name of letters, digits and `_` gives the value of
/// `NAME`, or nothing where it is not set.
pub proof fn law_expand_word_name(name: Seq<char>, env: Map<Seq<char>, Seq<char>>, last_error: i32)
    requires
        name.len() > 0,
        forall|k: int| 0 <= k < name.len() ==> is_word_char(#[trigger] name[k]),
    ensures
        expand(seq!['$'] + name, env, last_error) == variable_value(env, name),
{
    assert forall|k: int|
        0 <= k < name.len() implies #[trigger] name[k] != ' ' && name[k] != '\'' && name[k] != '"' && name[k]
        != '$' && !is_special_char(name[k]) by {
        assert(is_word_char(name[k]));
    }
    let e = Seq::<char>::empty();
    law_expand_reference(name, e, env, last_error);
    assert(seq!['$'] + name + e =~= seq!['$'] + name);
    assert(expand(e, env, last_error) == e);
    assert(variable_value(env, name) + e =~= variable_value(env, name));
}

/// Whether no value in `env` holds a `$`.
pub open spec fn values_without_dollar(env: Map<Seq<char>, Seq<char>>) -> bool {
    forall|k: Seq<char>, j: int| #[trigger] env.contains_key(k) && 0 <= j < env[k].len() ==> #[trigger] env[k][j] != '$'
}

/// From index `i` on, the expansion holds no `$` when no value does.
proof fn lemma_expand_from_no_dollar(w: Seq<char>, i: int, env: Map<Seq<char>, Seq<char>>, last_error: i32)
    requires
        0 <= i <= w.len(),
        values_without_dollar(env),
    ensures
        forall|j: int| 0 <= j < expand_from(w, i, env, last_error).len() ==> #[trigger] expand_from(w, i, env, last_error)[j] != '$',
    decreases w.len() - i,
{
    if i < w.len() {
        let x = expand_from(w, i, env, last_error);
        if w[i] == '$' && i + 1 < w.len() && w[i + 1] == '?' {
            lemma_expand_from_no_dollar(w, i + 2, env, last_error);
            let d = decimal(last_error as int);
            let m: nat = if last_error < 0 { (-(last_error as int)) as nat } else { last_error as nat };
            lemma_nat_decimal_digits(m);
            assert(all_digits(nat_decimal(m)));
            assert forall|j: int| 0 <= j < d.len() implies #[trigger] d[j] != '$' by {
                if last_error < 0 {
                    if j > 0 {
                        assert(d[j] == nat_decimal(m)[j - 1]);
                        assert(is_digit(nat_decimal(m)[j - 1]));
                    }
                } else {
                    assert(is_digit(nat_decimal(m)[j]));
                }
            }
            let rest = expand_from(w, i + 2, env, last_error);
            assert forall|j: int| 0 <= j < x.len() implies #[trigger] x[j] != '$' by {
                if j < d.len() {
                    assert(x[j] == d[j]);
                } else {
                    assert(x[j] == rest[j - d.len()]);
                }
            }
        } else if w[i] == '$' && i + 1 < w.len() && !ends_name(w[i + 1]) {
            lemma_name_end(w, i + 1);
            let e = name_end(w, i + 1);
            lemma_expand_from_no_dollar(w, e, env, last_error);
            let v = variable_value(env, w.subrange(i + 1, e));
            let rest = expand_from(w, e, env, last_error);
            assert forall|j: int| 0 <= j < x.len() implies #[trigger] x[j] != '$' by {
                if j < v.len() {
                    assert(x[j] == v[j]);
                    assert(env[w.subrange(i + 1, e)][j] != '$');
                } else {
                    assert(x[j] == rest[j - v.len()]);
                }
            }
        } else if w[i] == '$' {
            lemma_expand_from_no_dollar(w, i + 1, env, last_error);
        } else {
            lemma_expand_from_no_dollar(w, i + 1, env, last_error);
            let rest = expand_from(w, i + 1, env, last_error);
            assert forall|j: int| 0 <= j < x.len() implies #[trigger] x[j] != '$' by {
                if j > 0 {
                    assert(x[j] == rest[j - 1]);
                }
            }
        }
    }
}

/// Every `$` is replaced or removed: where no value holds a `$`, the
/// expansion of a word holds none.
pub proof fn law_expansion_has_no_dollar(w: Seq<char>, env: Map<Seq<char>, Seq<char>>, last_error: i32)
    requires
        values_without_dollar(env),
    ensures
        forall|j: int| 0 <= j < expand(w, env, last_error).len() ==> #[trigger] expand(w, env, last_error)[j] != '$',
{
    lemma_expand_from_no_dollar(w, 0, env, last_error);
}

/// `$?` gives the previous exit status in decimal.
pub proof fn law_expand_status(env: Map<Seq<char>, Seq<char>>, last_error: i32)
    ensures
        expand(seq!['$', '?'], env, last_error) == decimal(last_error as int),
{
    let w = seq!['$', '?'];
    assert(w.len() == 2 && w[0] == '$' && w[1] == '?');
    assert(expand_from(w, 2, env, last_error) == Seq::<char>::empty());
    assert(decimal(last_error as int) + Seq::<char>::empty() =~= decimal(last_error as int));
}

} // verus!
