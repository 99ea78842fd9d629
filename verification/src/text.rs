//! Character-level helpers shared by the shell: conversions between
//! strings and character vectors, decimal rendering and parsing of `i32`.

use vstd::prelude::*;

verus! {

/// Appends one character at the end of a string (`String::push` of std,
/// documented to append the given `char`).
#[verifier::external_body]
pub(crate) fn push_char(s: &mut String, c: char)
    ensures
        final(s)@ == old(s)@.push(c),
{
    s.push(c);
}

/// The characters of `s`, in order.
pub fn chars_of(s: &str) -> (r: Vec<char>)
    ensures
        r@ == s@,
{
    let n = s.unicode_len();
    let mut r: Vec<char> = Vec::new();
    let mut i: usize = 0;
    while i < n
        invariant
            n == s@.len(),
            i <= n,
            r@ == s@.subrange(0, i as int),
        decreases n - i,
    {
        r.push(s.get_char(i));
        i += 1;
    }
    r
}

/// The string made of the characters of `v`, in order.
pub fn string_of(v: &Vec<char>) -> (r: String)
    ensures
        r@ == v@,
{
    let mut r = String::new();
    let mut i: usize = 0;
    while i < v.len()
        invariant
            i <= v.len(),
            r@ == v@.subrange(0, i as int),
        decreases v.len() - i,
    {
        push_char(&mut r, v[i]);
        i += 1;
    }
    r
}


/// The character of a decimal digit `d` (`0 <= d < 10`).
pub open spec fn digit_char(d: nat) -> char {
    ((48 + d) as u8) as char
}

/// Whether `c` is one of the ASCII digits `0` to `9`.
pub open spec fn is_digit(c: char) -> bool {
    '0' <= c && c <= '9'
}

/// The value of an ASCII digit.
pub open spec fn digit_value(c: char) -> nat {
    (c as int - 48) as nat
}

/// Decimal digits of a natural number, most significant first, without
/// leading zeros (`0` is written `0`).
pub open spec fn nat_decimal(n: nat) -> Seq<char>
    decreases n,
{
    if n < 10 {
        seq![digit_char(n)]
    } else {
        nat_decimal(n / 10).push(digit_char(n % 10))
    }
}

/// Decimal rendering of an integer, as `Display` writes it: a `-` in front
/// of negative numbers, no sign otherwise.
pub open spec fn decimal(n: int) -> Seq<char> {
    if n < 0 {
        seq!['-'] + nat_decimal((-n) as nat)
    } else {
        nat_decimal(n as nat)
    }
}

/// Renders `n` in decimal, as `i32::to_string` does.
pub fn decimal_of(n: i32) -> (r: String)
    ensures
        r@ == decimal(n as int),
{
    let neg = n < 0;
    let mut m: u64 = if neg { (0i64 - n as i64) as u64 } else { n as u64 };
    let ghost m0: nat = m as nat;
    // digits collected least significant first
    let mut rev: Vec<char> = Vec::new();
    let ghost mut q: nat = m0;
    loop
        invariant_except_break
            m as nat == q,
            nat_decimal(m0) == nat_decimal(q) + rev@.reverse(),
        ensures
            nat_decimal(m0) == rev@.reverse(),
        decreases m,
    {
        let d = (m % 10) as u8;
        let c = (48u8 + d) as char;
        let ghost old_rev = rev@;
        rev.push(c);
        proof {
            assert(rev@.reverse() =~= seq![c] + old_rev.reverse());
        }
        if m < 10 {
            proof {
                assert(nat_decimal(q) == seq![digit_char(q)]);
                assert(nat_decimal(m0) =~= rev@.reverse());
            }
            break;
        }
        proof {
            assert(nat_decimal(q) == nat_decimal(q / 10).push(digit_char(q % 10)));
            assert(nat_decimal(m0) =~= nat_decimal(q / 10) + rev@.reverse());
        }
        m = m / 10;
        proof {
            q = q / 10;
        }
    }
    let mut out: Vec<char> = Vec::new();
    if neg {
        out.push('-');
    }
    let mut i: usize = rev.len();
    while i > 0
        invariant
            i <= rev.len(),
            out@ == (if neg { seq!['-'] } else { Seq::<char>::empty() }) + rev@.subrange(i as int, rev@.len() as int).reverse(),
        decreases i,
    {
        i -= 1;
        let ghost before = out@;
        out.push(rev[i]);
        proof {
            assert(rev@.subrange(i as int, rev@.len() as int).reverse() =~= rev@.subrange(
                (i + 1) as int,
                rev@.len() as int,
            ).reverse().push(rev@[i as int]));
        }
    }
    proof {
        assert(rev@.subrange(0, rev@.len() as int) =~= rev@);
    }
    string_of(&out)
}

/// The number written by a sequence of decimal digits.
pub open spec fn digits_value(d: Seq<char>) -> nat
    decreases d.len(),
{
    if d.len() == 0 {
        0
    } else {
        digits_value(d.drop_last()) * 10 + digit_value(d.last())
    }
}

/// Whether every character of `d` is a decimal digit.
pub open spec fn all_digits(d: Seq<char>) -> bool {
    forall|i: int| 0 <= i < d.len() ==> is_digit(#[trigger] d[i])
}

/// Whether `s` starts with a `+` or `-` sign.
pub open spec fn has_sign(s: Seq<char>) -> bool {
    s.len() > 0 && (s[0] == '+' || s[0] == '-')
}

/// `s` without its leading sign, if it has one.
pub open spec fn unsigned_part(s: Seq<char>) -> Seq<char> {
    if has_sign(s) { s.drop_first() } else { s }
}

/// `i32::from_str`: an optional `+` or `-`, then at least one decimal digit
/// and nothing else; the value must fit in an `i32`.
pub open spec fn parse_i32_spec(s: Seq<char>) -> Option<i32> {
    let d = unsigned_part(s);
    if d.len() == 0 || !all_digits(d) {
        None
    } else {
        let v: int = if s[0] == '-' { -(digits_value(d) as int) } else { digits_value(d) as int };
        if i32::MIN <= v <= i32::MAX {
            Some(v as i32)
        } else {
            None
        }
    }
}

/// Parses a decimal `i32` as `str::parse::<i32>` does; `None` where that
/// call returns an error.
pub fn parse_i32(s: &str) -> (r: Option<i32>)
    ensures
        r == parse_i32_spec(s@),
{
    let v = chars_of(s);
    let n = v.len();
    let mut start: usize = 0;
    let mut neg = false;
    if n > 0 && (v[0] == '+' || v[0] == '-') {
        start = 1;
        neg = v[0] == '-';
    }
    let ghost d = unsigned_part(s@);
    if start == n {
        return None;
    }
    // the value, capped at a bound beyond every `i32`
    let cap: u64 = 4294967296;
    let mut acc: u64 = 0;
    let mut i: usize = start;
    while i < n
        invariant
            start <= i <= n,
            n == v@.len(),
            v@ == s@,
            d == s@.subrange(start as int, n as int),
            forall|k: int| 0 <= k < i - start ==> is_digit(#[trigger] d[k]),
            acc <= cap,
            cap == 4294967296,
            has_sign(s@) == (start == 1),
            neg == (s@.len() > 0 && s@[0] == '-'),
            d == unsigned_part(s@),
            acc as nat == if digits_value(d.take(i - start)) < cap { digits_value(d.take(i - start)) } else { cap as nat },
        decreases n - i,
    {
        let c = v[i];
        assert(d[i - start] == c);
        if !('0' <= c && c <= '9') {
            assert(!is_digit(d[i - start]));
            return None;
        }
        let dv = (c as u32 - 48) as u64;
        proof {
            assert(d.take(i - start + 1).drop_last() =~= d.take(i - start));
            assert(d.take(i - start + 1).last() == c);
        }
        let next = acc * 10 + dv;
        acc = if next < cap { next } else { cap };
        i += 1;
    }
    proof {
        assert(d.take(n - start) =~= d);
    }
    if neg {
        if acc <= 2147483648 {
            Some((0i64 - acc as i64) as i32)
        } else {
            None
        }
    } else {
        if acc <= 2147483647 {
            Some(acc as i32)
        } else {
            None
        }
    }
}


/// The fields of `s` separated by `sep`, as `str::split` with a `char`
/// pattern yields them: always at least one field, empty fields kept.
pub open spec fn split_on(s: Seq<char>, sep: char) -> Seq<Seq<char>>
    decreases s.len(),
{
    if s.len() == 0 {
        seq![Seq::<char>::empty()]
    } else {
        let rest = split_on(s.drop_last(), sep);
        if s.last() == sep {
            rest.push(Seq::<char>::empty())
        } else {
            rest.update(rest.len() - 1, rest.last().push(s.last()))
        }
    }
}

proof fn lemma_split_on_nonempty(s: Seq<char>, sep: char)
    ensures
        split_on(s, sep).len() >= 1,
    decreases s.len(),
{
    if s.len() > 0 {
        lemma_split_on_nonempty(s.drop_last(), sep);
    }
}

/// The number of times `c` occurs in `s`.
pub open spec fn count_char(s: Seq<char>, c: char) -> nat
    decreases s.len(),
{
    if s.len() == 0 {
        0
    } else {
        count_char(s.drop_last(), c) + if s.last() == c {
            1nat
        } else {
            0nat
        }
    }
}

/// The fields `f` written one after the other, `sep` between two of them.
pub open spec fn join_with(f: Seq<Seq<char>>, sep: char) -> Seq<char>
    decreases f.len(),
{
    if f.len() == 0 {
        Seq::empty()
    } else if f.len() == 1 {
        f[0]
    } else {
        join_with(f.drop_last(), sep) + seq![sep] + f.last()
    }
}

/// `split_on` cuts at every separator: there is one field more than there
/// are separators, no field holds a separator, and joining the fields with
/// the separator gives the text back. These three facts leave only one
/// way to cut the text.
pub proof fn law_split_on_cuts_at_every_separator(s: Seq<char>, sep: char)
    ensures
        split_on(s, sep).len() == count_char(s, sep) + 1,
        forall|i: int, j: int|
            0 <= i < split_on(s, sep).len() && 0 <= j < split_on(s, sep)[i].len() ==> #[trigger] split_on(
                s,
                sep,
            )[i][j] != sep,
        join_with(split_on(s, sep), sep) == s,
    decreases s.len(),
{
    if s.len() > 0 {
        let prev = s.drop_last();
        law_split_on_cuts_at_every_separator(prev, sep);
        let f = split_on(prev, sep);
        let c = s.last();
        assert(prev.push(c) =~= s);
        if c == sep {
            let g = f.push(Seq::<char>::empty());
            assert(g.drop_last() =~= f);
            assert(join_with(g, sep) =~= join_with(f, sep) + seq![sep] + Seq::<char>::empty());
            assert forall|i: int, j: int| 0 <= i < g.len() && 0 <= j < g[i].len() implies #[trigger] g[i][j]
                != sep by {
                assert(i < f.len());
                assert(g[i] == f[i]);
            }
        } else {
            let n = f.len() - 1;
            let g = f.update(n, f.last().push(c));
            assert forall|i: int, j: int| 0 <= i < g.len() && 0 <= j < g[i].len() implies #[trigger] g[i][j]
                != sep by {
                if i < n {
                    assert(g[i] == f[i]);
                } else {
                    if j < f[n].len() {
                        assert(g[i][j] == f[n][j]);
                    }
                }
            }
            if f.len() == 1 {
                assert(join_with(f, sep) == f[0]);
                assert(join_with(g, sep) =~= join_with(f, sep).push(c));
            } else {
                assert(g.drop_last() =~= f.drop_last());
                assert(join_with(f, sep) == join_with(f.drop_last(), sep) + seq![sep] + f.last());
                assert(join_with(g, sep) =~= join_with(f, sep).push(c));
            }
        }
    }
}

/// Splits `s` at every `sep`, as `s.split(sep)` does.
pub fn split_char(s: &str, sep: char) -> (r: Vec<String>)
    ensures
        r@.len() == split_on(s@, sep).len(),
        forall|i: int| 0 <= i < r@.len() ==> #[trigger] r@[i]@ == split_on(s@, sep)[i],
{
    let v = chars_of(s);
    let mut fields: Vec<String> = Vec::new();
    let mut cur: Vec<char> = Vec::new();
    let mut i: usize = 0;
    while i < v.len()
        invariant
            v@ == s@,
            i <= v@.len(),
            fields@.len() + 1 == split_on(s@.take(i as int), sep).len(),
            forall|j: int| 0 <= j < fields@.len() ==> #[trigger] fields@[j]@ == split_on(s@.take(i as int), sep)[j],
            cur@ == split_on(s@.take(i as int), sep).last(),
        decreases v.len() - i,
    {
        proof {
            lemma_split_on_nonempty(s@.take(i as int), sep);
            assert(s@.take(i + 1).drop_last() =~= s@.take(i as int));
        }
        if v[i] == sep {
            fields.push(string_of(&cur));
            cur = Vec::new();
        } else {
            cur.push(v[i]);
        }
        i += 1;
    }
    proof {
        assert(s@.take(v@.len() as int) =~= s@);
    }
    fields.push(string_of(&cur));
    fields
}


/// Whether two strings hold the same characters.
pub fn str_eq(a: &str, b: &str) -> (r: bool)
    ensures
        r == (a@ == b@),
{
    let x = chars_of(a);
    let y = chars_of(b);
    if x.len() != y.len() {
        return false;
    }
    let mut i: usize = 0;
    while i < x.len()
        invariant
            x@ == a@,
            y@ == b@,
            x@.len() == y@.len(),
            i <= x@.len(),
            forall|j: int| 0 <= j < i ==> x@[j] == y@[j],
        decreases x.len() - i,
    {
        if x[i] != y[i] {
            return false;
        }
        i += 1;
    }
    assert(x@ =~= y@);
    true
}


/// The first index at or after `i` where `s` holds `c`.
pub open spec fn find_char_from(s: Seq<char>, c: char, i: int) -> Option<int>
    decreases s.len() - i,
{
    if i < 0 || i >= s.len() {
        None
    } else if s[i] == c {
        Some(i)
    } else {
        find_char_from(s, c, i + 1)
    }
}

/// What `find_char_from` gives back: the first position of `c` from `i` on.
pub proof fn lemma_find_char_from(s: Seq<char>, c: char, i: int)
    requires
        0 <= i,
    ensures
        match find_char_from(s, c, i) {
            Some(j) => i <= j < s.len() && s[j] == c && forall|k: int| i <= k < j ==> s[k] != c,
            None => forall|k: int| i <= k < s.len() ==> s[k] != c,
        },
    decreases s.len() - i,
{
    if i < s.len() && s[i] != c {
        lemma_find_char_from(s, c, i + 1);
    }
}

/// The first index at or after `from` where `v` holds `c`.
pub fn find_char(v: &Vec<char>, c: char, from: usize) -> (r: Option<usize>)
    ensures
        match r {
            Some(j) => find_char_from(v@, c, from as int) == Some(j as int),
            None => find_char_from(v@, c, from as int) is None,
        },
{
    let mut i = from;
    while i < v.len()
        invariant
            from <= i,
            find_char_from(v@, c, from as int) == find_char_from(v@, c, i as int),
        decreases v.len() - i,
    {
        if v[i] == c {
            return Some(i);
        }
        i += 1;
    }
    None
}

/// The characters of `v` from `from` up to, not including, `to`.
pub fn subvec(v: &Vec<char>, from: usize, to: usize) -> (r: Vec<char>)
    requires
        from <= to <= v@.len(),
    ensures
        r@ == v@.subrange(from as int, to as int),
{
    let mut r: Vec<char> = Vec::new();
    let mut i = from;
    while i < to
        invariant
            from <= i <= to,
            to <= v@.len(),
            r@ == v@.subrange(from as int, i as int),
        decreases to - i,
    {
        r.push(v[i]);
        i += 1;
    }
    r
}

/// Appends the characters of `b` to `a`.
pub fn push_all(a: &mut Vec<char>, b: &Vec<char>)
    ensures
        final(a)@ == old(a)@ + b@,
{
    let mut i: usize = 0;
    while i < b.len()
        invariant
            i <= b@.len(),
            a@ == old(a)@ + b@.subrange(0, i as int),
        decreases b.len() - i,
    {
        a.push(b[i]);
        i += 1;
    }
    assert(b@.subrange(0, b@.len() as int) =~= b@);
}


/// `char::is_whitespace`: the characters with the Unicode `White_Space`
/// property.
pub open spec fn is_white_space(c: char) -> bool {
    c == '\t' || c == '\n' || c == '\u{0B}' || c == '\u{0C}' || c == '\r' || c == ' ' || c
        == '\u{85}' || c == '\u{A0}' || c == '\u{1680}' || ('\u{2000}' <= c && c <= '\u{200A}')
        || c == '\u{2028}' || c == '\u{2029}' || c == '\u{202F}' || c == '\u{205F}' || c
        == '\u{3000}'
}

/// `s` without its leading characters that satisfy `p`.
pub open spec fn trim_start_by(s: Seq<char>, p: spec_fn(char) -> bool) -> Seq<char>
    decreases s.len(),
{
    if s.len() > 0 && p(s[0]) {
        trim_start_by(s.drop_first(), p)
    } else {
        s
    }
}

/// `s` without its trailing characters that satisfy `p`.
pub open spec fn trim_end_by(s: Seq<char>, p: spec_fn(char) -> bool) -> Seq<char>
    decreases s.len(),
{
    if s.len() > 0 && p(s.last()) {
        trim_end_by(s.drop_last(), p)
    } else {
        s
    }
}

/// `s` without its leading and trailing characters that satisfy `p`, as
/// `str::trim_matches` gives it.
pub open spec fn trim_by(s: Seq<char>, p: spec_fn(char) -> bool) -> Seq<char> {
    trim_end_by(trim_start_by(s, p), p)
}

/// The predicate `trim_range` removes with: white space, or the one
/// character `c`.
pub open spec fn trim_pred(white: bool, c: char) -> spec_fn(char) -> bool {
    |x: char| if white { is_white_space(x) } else { x == c }
}

fn trims(white: bool, c: char, x: char) -> (r: bool)
    ensures
        r == trim_pred(white, c)(x),
{
    if white {
        x == '\t' || x == '\n' || x == '\u{0B}' || x == '\u{0C}' || x == '\r' || x == ' ' || x
            == '\u{85}' || x == '\u{A0}' || x == '\u{1680}' || ('\u{2000}' <= x && x <= '\u{200A}')
            || x == '\u{2028}' || x == '\u{2029}' || x == '\u{202F}' || x == '\u{205F}' || x
            == '\u{3000}'
    } else {
        x == c
    }
}

/// Removes from both ends of `v` the white space (`white`), or else every
/// `c`: `str::trim` and `str::trim_matches(c)`.
pub fn trim_range(v: &Vec<char>, white: bool, c: char) -> (r: Vec<char>)
    ensures
        r@ == trim_by(v@, trim_pred(white, c)),
{
    let ghost p = trim_pred(white, c);
    let n = v.len();
    let mut i: usize = 0;
    assert(v@.skip(0) =~= v@);
    while i < n && trims(white, c, v[i])
        invariant
            n == v@.len(),
            i <= n,
            p == trim_pred(white, c),
            trim_start_by(v@, p) == trim_start_by(v@.skip(i as int), p),
        decreases n - i,
    {
        proof {
            assert(p(v@[i as int]));
            assert(v@.skip(i as int)[0] == v@[i as int]);
            assert(v@.skip(i as int).drop_first() =~= v@.skip(i + 1));
        }
        i += 1;
    }
    let mut j: usize = n;
    proof {
        assert(v@.subrange(i as int, n as int) =~= v@.skip(i as int));
        if i < n {
            assert(!p(v@[i as int]));
            assert(v@.skip(i as int)[0] == v@[i as int]);
        }
        assert(trim_start_by(v@.skip(i as int), p) == v@.skip(i as int));
    }
    while j > i && trims(white, c, v[j - 1])
        invariant
            n == v@.len(),
            i <= j <= n,
            p == trim_pred(white, c),
            trim_by(v@, p) == trim_end_by(v@.subrange(i as int, j as int), p),
            trim_start_by(v@, p) == trim_start_by(v@.skip(i as int), p),
        decreases j,
    {
        proof {
            assert(p(v@[j - 1]));
            assert(v@.subrange(i as int, j as int).last() == v@[j - 1]);
            assert(v@.subrange(i as int, j as int).drop_last() =~= v@.subrange(i as int, j - 1));
        }
        j -= 1;
    }
    proof {
        if j > i {
            assert(!p(v@[j - 1]));
            assert(v@.subrange(i as int, j as int).last() == v@[j - 1]);
        }
    }
    subvec(v, i, j)
}


proof fn lemma_digit_char(d: nat)
    requires
        d < 10,
    ensures
        is_digit(digit_char(d)),
        digit_value(digit_char(d)) == d,
{
    let b: u8 = (48 + d) as u8;
    assert(b as int == 48 + d);
    assert((b as char) as int == b as int);
}

/// The decimal rendering of a natural number is a non-empty run of digits
/// that reads back as the number.
pub proof fn lemma_nat_decimal_digits(n: nat)
    ensures
        nat_decimal(n).len() > 0,
        all_digits(nat_decimal(n)),
        digits_value(nat_decimal(n)) == n,
    decreases n,
{
    if n < 10 {
        lemma_digit_char(n);
        assert(nat_decimal(n).drop_last() =~= Seq::<char>::empty());
        assert(nat_decimal(n).last() == digit_char(n));
        assert(digits_value(nat_decimal(n)) == digits_value(Seq::<char>::empty()) * 10 + digit_value(digit_char(n)));
    } else {
        lemma_nat_decimal_digits(n / 10);
        lemma_digit_char(n % 10);
        let s = nat_decimal(n / 10);
        assert(nat_decimal(n).drop_last() =~= s);
        assert(all_digits(nat_decimal(n))) by {
            assert forall|i: int| 0 <= i < nat_decimal(n).len() implies is_digit(#[trigger] nat_decimal(n)[i]) by {
                if i < s.len() {
                    assert(nat_decimal(n)[i] == s[i]);
                }
            }
        }
        assert(nat_decimal(n).last() == digit_char(n % 10));
        assert(digits_value(nat_decimal(n)) == digits_value(s) * 10 + digit_value(digit_char(n % 10)));
        assert((n / 10) * 10 + n % 10 == n) by (nonlinear_arith);
    }
}

/// `exit` reads back the statuses that `$?` writes: parsing the decimal
/// rendering of an `i32` gives that number.
pub proof fn law_parse_reads_decimal(n: i32)
    ensures
        parse_i32_spec(decimal(n as int)) == Some(n),
{
    if n < 0 {
        let m: nat = (-(n as int)) as nat;
        lemma_nat_decimal_digits(m);
        let s = seq!['-'] + nat_decimal(m);
        assert(has_sign(s));
        assert(s.drop_first() =~= nat_decimal(m));
    } else {
        lemma_nat_decimal_digits(n as nat);
        let s = nat_decimal(n as nat);
        assert(is_digit(s[0]));
        assert(!has_sign(s));
    }
}

} // verus!
