//! Character-level text handling shared by the parsers and formatters: the
//! lines of a text, whitespace trimming, splitting at a character, and decimal
//! numbers, each with the meaning that std gives it.
use vstd::prelude::*;

verus! {

broadcast use vstd::string::group_string_axioms;

// ---------------------------------------------------------------------------
// Strings as character sequences
// ---------------------------------------------------------------------------

/// The characters of `s`, in order.
pub fn chars_of(s: &str) -> (v: Vec<char>)
    ensures
        v@ == s@,
{
    let mut v: Vec<char> = Vec::new();
    for c in it: s.chars()
        invariant
            v@ == it.seq().take(it.index() as int),
            it.seq() == s@,
    {
        v.push(c);
    }
    v
}

/// `String::push`: appends `c` to the end of `s`.
#[verifier::external_body]
fn push_char(s: &mut String, c: char)
    ensures
        final(s)@ == old(s)@.push(c),
{
    s.push(c);
}

/// The string made of `chars`, in order.
pub fn string_of(chars: &[char]) -> (s: String)
    ensures
        s@ == chars@,
{
    let mut s = String::new();
    let mut i: usize = 0;
    while i < chars.len()
        invariant
            i <= chars.len(),
            s@ == chars@.take(i as int),
        decreases chars.len() - i,
    {
        push_char(&mut s, chars[i]);
        i += 1;
        assert(s@ =~= chars@.take(i as int));
    }
    assert(chars@.take(chars.len() as int) =~= chars@);
    s
}

/// Appends every character of `chars` to `v`.
pub fn extend_chars(v: &mut Vec<char>, chars: &[char])
    ensures
        final(v)@ == old(v)@ + chars@,
{
    let mut i: usize = 0;
    while i < chars.len()
        invariant
            i <= chars.len(),
            v@ == old(v)@ + chars@.take(i as int),
        decreases chars.len() - i,
    {
        v.push(chars[i]);
        i += 1;
        assert(v@ =~= old(v)@ + chars@.take(i as int));
    }
    assert(chars@.take(chars.len() as int) =~= chars@);
}

/// Appends every character of `s` to `v`.
pub fn extend_str(v: &mut Vec<char>, s: &str)
    ensures
        final(v)@ == old(v)@ + s@,
{
    let cs = chars_of(s);
    extend_chars(v, &cs);
}

/// Whether `a` and `b` hold the same characters.
pub fn chars_eq(a: &[char], b: &[char]) -> (r: bool)
    ensures
        r == (a@ == b@),
{
    if a.len() != b.len() {
        return false;
    }
    let mut i: usize = 0;
    while i < a.len()
        invariant
            a.len() == b.len(),
            i <= a.len(),
            forall|j: int| 0 <= j < i ==> a@[j] == b@[j],
        decreases a.len() - i,
    {
        if a[i] != b[i] {
            return false;
        }
        i += 1;
    }
    assert(a@ =~= b@);
    true
}

/// Whether the characters `a` spell out the string `b`.
pub fn chars_eq_str(a: &[char], b: &str) -> (r: bool)
    ensures
        r == (a@ == b@),
{
    let bs = chars_of(b);
    chars_eq(a, &bs)
}

/// The characters `s[from..to]`.
pub fn slice_chars(s: &[char], from: usize, to: usize) -> (r: Vec<char>)
    requires
        from <= to <= s.len(),
    ensures
        r@ == s@.subrange(from as int, to as int),
{
    let mut r: Vec<char> = Vec::new();
    let mut i: usize = from;
    while i < to
        invariant
            from <= i <= to <= s.len(),
            r@ == s@.subrange(from as int, i as int),
        decreases to - i,
    {
        r.push(s[i]);
        i += 1;
        assert(r@ =~= s@.subrange(from as int, i as int));
    }
    r
}

// ---------------------------------------------------------------------------
// Searching
// ---------------------------------------------------------------------------

/// The index of the first `c` in `s`, or `s.len()` where there is none.
pub open spec fn index_of(s: Seq<char>, c: char) -> int
    decreases s.len(),
{
    if s.len() == 0 {
        0
    } else if s[0] == c {
        0
    } else {
        1 + index_of(s.drop_first(), c)
    }
}

pub proof fn lemma_index_of(s: Seq<char>, c: char)
    ensures
        0 <= index_of(s, c) <= s.len(),
        index_of(s, c) < s.len() ==> s[index_of(s, c)] == c,
        forall|j: int| 0 <= j < index_of(s, c) ==> s[j] != c,
    decreases s.len(),
{
    if s.len() > 0 && s[0] != c {
        lemma_index_of(s.drop_first(), c);
        assert forall|j: int| 0 <= j < index_of(s, c) implies s[j] != c by {
            if j > 0 {
                assert(s[j] == s.drop_first()[j - 1]);
            }
        }
    }
}

/// `index_of` is the one position that has `c` (or is the end) with no `c` before it.
pub proof fn lemma_index_of_is(s: Seq<char>, c: char, k: int)
    requires
        0 <= k <= s.len(),
        k < s.len() ==> s[k] == c,
        forall|j: int| 0 <= j < k ==> s[j] != c,
    ensures
        index_of(s, c) == k,
    decreases s.len(),
{
    if s.len() > 0 && s[0] != c {
        assert(k > 0);
        lemma_index_of_is(s.drop_first(), c, k - 1);
    }
}

/// The index of the first `c` in `s[from..]`, or `s.len()` where there is none.
pub fn find_char(s: &[char], from: usize, c: char) -> (i: usize)
    requires
        from <= s.len(),
    ensures
        i == from + index_of(s@.skip(from as int), c),
        from <= i <= s.len(),
{
    let mut i: usize = from;
    while i < s.len() && s[i] != c
        invariant
            from <= i <= s.len(),
            forall|j: int| from <= j < i ==> s@[j] != c,
        decreases s.len() - i,
    {
        i += 1;
    }
    proof {
        let t = s@.skip(from as int);
        lemma_index_of_is(t, c, i - from);
    }
    i
}

/// The index of the last `c` in `s`, if any.
pub open spec fn last_index_of(s: Seq<char>, c: char) -> Option<int>
    decreases s.len(),
{
    if s.len() == 0 {
        None
    } else if s.last() == c {
        Some(s.len() - 1)
    } else {
        last_index_of(s.drop_last(), c)
    }
}

pub proof fn lemma_last_index_of(s: Seq<char>, c: char)
    ensures
        last_index_of(s, c) matches Some(i) ==> 0 <= i < s.len() && s[i] == c && forall|j: int|
            i < j < s.len() ==> s[j] != c,
        last_index_of(s, c) is None ==> forall|j: int| 0 <= j < s.len() ==> s[j] != c,
    decreases s.len(),
{
    if s.len() > 0 && s.last() != c {
        lemma_last_index_of(s.drop_last(), c);
        assert forall|j: int| 0 <= j < s.len() - 1 implies s.drop_last()[j] == s[j] by {}
    }
}

/// The position of the last `c` in `s`.
pub fn rfind_char(s: &[char], c: char) -> (r: Option<usize>)
    ensures
        r matches Some(i) ==> last_index_of(s@, c) == Some(i as int),
        r is None ==> last_index_of(s@, c) is None,
{
    let mut i: usize = s.len();
    assert(s@.take(i as int) =~= s@);
    while i > 0
        invariant
            i <= s.len(),
            last_index_of(s@, c) == last_index_of(s@.take(i as int), c),
        decreases i,
    {
        assert(s@.take(i as int).drop_last() =~= s@.take(i - 1));
        if s[i - 1] == c {
            return Some(i - 1);
        }
        i -= 1;
    }
    None
}

/// `s` split at its first `c`: what comes before it and what comes after it.
pub open spec fn split_once(s: Seq<char>, c: char) -> Option<(Seq<char>, Seq<char>)> {
    let i = index_of(s, c);
    if i < s.len() {
        Some((s.take(i), s.skip(i + 1)))
    } else {
        None
    }
}

/// `str::split_once` with a character pattern.
pub fn split_once_chars(s: &[char], c: char) -> (r: Option<(Vec<char>, Vec<char>)>)
    ensures
        r matches Some((a, b)) ==> split_once(s@, c) == Some((a@, b@)),
        r is None ==> split_once(s@, c) is None,
{
    let i = find_char(s, 0, c);
    assert(s@.skip(0) =~= s@);
    if i < s.len() {
        let a = slice_chars(s, 0, i);
        let b = slice_chars(s, i + 1, s.len());
        assert(a@ =~= s@.take(i as int));
        assert(b@ =~= s@.skip(i + 1));
        Some((a, b))
    } else {
        None
    }
}

// ---------------------------------------------------------------------------
// Whitespace
// ---------------------------------------------------------------------------

/// `char::is_whitespace`: the characters with the Unicode `White_Space` property.
pub open spec fn is_space(c: char) -> bool {
    ||| '\u{9}' <= c <= '\u{d}'
    ||| c == ' '
    ||| c == '\u{85}'
    ||| c == '\u{a0}'
    ||| c == '\u{1680}'
    ||| '\u{2000}' <= c <= '\u{200a}'
    ||| c == '\u{2028}'
    ||| c == '\u{2029}'
    ||| c == '\u{202f}'
    ||| c == '\u{205f}'
    ||| c == '\u{3000}'
}

/// Whether `c` is whitespace.
pub fn is_space_char(c: char) -> (r: bool)
    ensures
        r == is_space(c),
{
    ('\u{9}' <= c && c <= '\u{d}') || c == ' ' || c == '\u{85}' || c == '\u{a0}' || c
        == '\u{1680}' || ('\u{2000}' <= c && c <= '\u{200a}') || c == '\u{2028}' || c
        == '\u{2029}' || c == '\u{202f}' || c == '\u{205f}' || c == '\u{3000}'
}

/// `s` without its leading whitespace.
pub open spec fn trim_start(s: Seq<char>) -> Seq<char>
    decreases s.len(),
{
    if s.len() > 0 && is_space(s[0]) {
        trim_start(s.drop_first())
    } else {
        s
    }
}

/// `s` without its trailing whitespace.
pub open spec fn trim_end(s: Seq<char>) -> Seq<char>
    decreases s.len(),
{
    if s.len() > 0 && is_space(s.last()) {
        trim_end(s.drop_last())
    } else {
        s
    }
}

/// `str::trim`: `s` without leading and trailing whitespace.
pub open spec fn trim(s: Seq<char>) -> Seq<char> {
    trim_end(trim_start(s))
}

/// A text that starts and ends with something other than whitespace is its own trim.
pub proof fn lemma_trim_unchanged(s: Seq<char>)
    requires
        s.len() > 0 ==> !is_space(s[0]) && !is_space(s.last()),
    ensures
        trim(s) == s,
{
}

/// Whitespace added at the end is skipped from the start only when all of the
/// text is whitespace.
proof fn lemma_trim_start_push_space(v: Seq<char>, c: char)
    requires
        is_space(c),
    ensures
        trim_start(v.push(c)) == (if trim_start(v).len() == 0 {
            seq![]
        } else {
            trim_start(v).push(c)
        }),
    decreases v.len(),
{
    let e: Seq<char> = seq![];
    assert(trim_start(e) == e);
    if v.len() == 0 {
        assert(v =~= e);
        assert(v.push(c)[0] == c);
        assert(v.push(c).drop_first() =~= e);
    } else {
        assert(v.push(c)[0] == v[0]);
        if is_space(v[0]) {
            assert(v.push(c).drop_first() =~= v.drop_first().push(c));
            lemma_trim_start_push_space(v.drop_first(), c);
        }
    }
}

/// Trailing whitespace does not change the trim.
pub proof fn lemma_trim_push_space(v: Seq<char>, c: char)
    requires
        is_space(c),
    ensures
        trim(v.push(c)) == trim(v),
{
    lemma_trim_start_push_space(v, c);
    if trim_start(v).len() > 0 {
        assert(trim_start(v).push(c).drop_last() =~= trim_start(v));
    } else {
        let e: Seq<char> = seq![];
        assert(trim_end(e) == e);
        assert(trim_start(v) =~= e);
    }
}

/// `str::trim` on characters.
pub fn trim_chars(s: &[char]) -> (r: Vec<char>)
    ensures
        r@ == trim(s@),
{
    let mut a: usize = 0;
    assert(s@.skip(0) =~= s@);
    while a < s.len() && is_space_char(s[a])
        invariant
            a <= s.len(),
            trim_start(s@) == trim_start(s@.skip(a as int)),
        decreases s.len() - a,
    {
        assert(s@.skip(a as int).drop_first() =~= s@.skip(a + 1));
        a += 1;
    }
    let mut b: usize = s.len();
    while b > a && is_space_char(s[b - 1])
        invariant
            a <= b <= s.len(),
            trim(s@) == trim_end(s@.subrange(a as int, b as int)),
        decreases b,
    {
        assert(s@.subrange(a as int, b as int).drop_last() =~= s@.subrange(a as int, b - 1));
        b -= 1;
    }
    proof {
        if a < s.len() {
            assert(!is_space(s@.skip(a as int)[0]));
        }
        assert(s@.skip(a as int) =~= s@.subrange(a as int, s.len() as int));
    }
    slice_chars(s, a, b)
}

// ---------------------------------------------------------------------------
// Lines
// ---------------------------------------------------------------------------

/// A line without the carriage return that ends it, if any.
pub open spec fn strip_cr(l: Seq<char>) -> Seq<char> {
    if l.len() > 0 && l.last() == '\r' {
        l.drop_last()
    } else {
        l
    }
}

/// `str::lines`: the text split at each `\n`, a `\r` just before a `\n` dropped
/// with it, and no empty line after a final `\n`.
pub open spec fn lines(s: Seq<char>) -> Seq<Seq<char>>
    decreases s.len(),
{
    if s.len() == 0 {
        seq![]
    } else {
        let i = index_of(s, '\n');
        if i < s.len() {
            proof {
                lemma_index_of(s, '\n');
            }
            seq![strip_cr(s.take(i))] + lines(s.skip(i + 1))
        } else {
            seq![s]
        }
    }
}

/// A line of text followed by `\n` and more text.
pub proof fn lemma_lines_cons(line: Seq<char>, rest: Seq<char>)
    requires
        !line.contains('\n'),
    ensures
        lines(line.push('\n') + rest) == seq![strip_cr(line)] + lines(rest),
{
    let s = line.push('\n') + rest;
    lemma_index_of_is(s, '\n', line.len() as int);
    assert(s.take(line.len() as int) =~= line);
    assert(s.skip(line.len() as int + 1) =~= rest);
}

/// A nonempty text has at least one line.
pub proof fn lemma_lines_nonempty(s: Seq<char>)
    requires
        s.len() > 0,
    ensures
        lines(s).len() > 0,
{
    lemma_index_of(s, '\n');
}

/// Ending a text with `\n`: after text that already ends a line, it adds an
/// empty line; otherwise it ends the last line, which then loses a final `\r`.
pub proof fn lemma_lines_newline(t: Seq<char>)
    ensures
        lines(t.push('\n')) == (if t.len() == 0 || t.last() == '\n' {
            lines(t).push(seq![])
        } else {
            lines(t).drop_last().push(strip_cr(lines(t).last()))
        }),
    decreases t.len(),
{
    let e: Seq<char> = seq![];
    assert(lines(e) =~= Seq::<Seq<char>>::empty());
    if t.len() == 0 {
        assert(t.push('\n') =~= e.push('\n') + e);
        lemma_lines_cons(e, e);
        assert(strip_cr(e) =~= e);
        assert(lines(t.push('\n')) =~= lines(t).push(e));
    } else {
        lemma_index_of(t, '\n');
        let i = index_of(t, '\n');
        let a = t.take(i);
        assert(!a.contains('\n'));
        if i < t.len() {
            let rest = t.skip(i + 1);
            assert(t =~= a.push('\n') + rest);
            assert(t.push('\n') =~= a.push('\n') + rest.push('\n'));
            lemma_lines_cons(a, rest);
            lemma_lines_cons(a, rest.push('\n'));
            lemma_lines_newline(rest);
            if rest.len() == 0 {
                assert(t.last() == '\n');
                assert(lines(t.push('\n')) =~= lines(t).push(e));
            } else {
                assert(t.last() == rest.last());
                lemma_lines_nonempty(rest);
                if rest.last() == '\n' {
                    assert(lines(t.push('\n')) =~= lines(t).push(e));
                } else {
                    assert(lines(t).drop_last() =~= seq![strip_cr(a)] + lines(rest).drop_last());
                    assert(lines(t).last() == lines(rest).last());
                    assert(lines(t.push('\n')) =~= lines(t).drop_last().push(
                        strip_cr(lines(t).last()),
                    ));
                }
            }
        } else {
            assert(a =~= t);
            assert(t.push('\n') =~= t.push('\n') + e);
            lemma_lines_cons(t, e);
            assert(lines(t) =~= seq![t]);
            assert(t.last() != '\n');
            assert(lines(t.push('\n')) =~= lines(t).drop_last().push(strip_cr(lines(t).last())));
        }
    }
}

/// After a text that ends a line, a further line (with no `\n`) is one more line.
pub proof fn lemma_lines_append(t: Seq<char>, l: Seq<char>)
    requires
        t.len() == 0 || t.last() == '\n',
        !l.contains('\n'),
    ensures
        lines(t + l) == (if l.len() == 0 {
            lines(t)
        } else {
            lines(t).push(l)
        }),
    decreases t.len(),
{
    let e: Seq<char> = seq![];
    assert(lines(e) =~= Seq::<Seq<char>>::empty());
    if t.len() == 0 {
        assert(t + l =~= l);
        if l.len() > 0 {
            lemma_index_of(l, '\n');
            assert(index_of(l, '\n') == l.len()) by {
                if index_of(l, '\n') < l.len() {
                    assert(l.contains('\n'));
                }
            }
            assert(lines(l) =~= seq![l]);
            assert(lines(t).push(l) =~= seq![l]);
        }
    } else {
        lemma_index_of(t, '\n');
        let i = index_of(t, '\n');
        let a = t.take(i);
        assert(!a.contains('\n'));
        assert(i < t.len()) by {
            if i >= t.len() {
                assert(t[t.len() - 1] == '\n');
            }
        }
        let rest = t.skip(i + 1);
        assert(t =~= a.push('\n') + rest);
        assert(t + l =~= a.push('\n') + (rest + l));
        lemma_lines_cons(a, rest);
        lemma_lines_cons(a, rest + l);
        if rest.len() > 0 {
            assert(rest.last() == t.last());
        }
        lemma_lines_append(rest, l);
        if l.len() > 0 {
            assert(lines(t + l) =~= lines(t).push(l));
        } else {
            assert(lines(t + l) =~= lines(t));
        }
    }
}

/// The character sequences that a list of character vectors holds.
pub open spec fn views(r: Seq<Vec<char>>) -> Seq<Seq<char>> {
    r.map_values(|v: Vec<char>| v@)
}

/// The character sequences that a list of strings holds.
pub open spec fn strings(v: Seq<String>) -> Seq<Seq<char>> {
    v.map_values(|s: String| s@)
}

/// The lines of `s`.
pub fn lines_of(s: &[char]) -> (r: Vec<Vec<char>>)
    ensures
        views(r@) == lines(s@),
{
    broadcast use vstd::seq_lib::group_seq_properties;

    let mut r: Vec<Vec<char>> = Vec::new();
    let mut pos: usize = 0;
    assert(s@.skip(0) =~= s@);
    assert(views(r@) =~= Seq::<Seq<char>>::empty());
    while pos < s.len()
        invariant
            pos <= s.len(),
            views(r@) + lines(s@.skip(pos as int)) == lines(s@),
        decreases s.len() - pos,
    {
        let ghost t = s@.skip(pos as int);
        let ghost before = views(r@);
        let j = find_char(s, pos, '\n');
        proof {
            lemma_index_of(t, '\n');
        }
        if j < s.len() {
            let mut line = slice_chars(s, pos, j);
            assert(line@ =~= t.take(j - pos));
            if line.len() > 0 && line[line.len() - 1] == '\r' {
                line.pop();
            }
            let ghost l = line@;
            assert(l == strip_cr(t.take(j - pos)));
            r.push(line);
            assert(views(r@) == before.push(l));
            assert(t.skip(j - pos + 1) =~= s@.skip(j + 1));
            assert(lines(t) == seq![l] + lines(s@.skip(j + 1)));
            pos = j + 1;
            assert(before + lines(t) =~= views(r@) + lines(s@.skip(pos as int)));
        } else {
            let line = slice_chars(s, pos, s.len());
            assert(line@ =~= t);
            r.push(line);
            assert(views(r@) == before.push(t));
            assert(lines(t) == seq![t]);
            pos = s.len();
            assert(lines(s@.skip(pos as int)) =~= Seq::<Seq<char>>::empty()) by {
                assert(s@.skip(pos as int).len() == 0);
            }
            assert(before + lines(t) =~= views(r@) + lines(s@.skip(pos as int)));
        }
    }
    proof {
        assert(s@.skip(pos as int).len() == 0);
        assert(views(r@) + lines(s@.skip(pos as int)) =~= views(r@));
    }
    r
}

// ---------------------------------------------------------------------------
// Decimal numbers
// ---------------------------------------------------------------------------

/// Whether `c` is one of the ASCII digits `0`–`9`.
pub open spec fn is_digit(c: char) -> bool {
    '0' <= c <= '9'
}

/// The value of the ASCII digit `c`.
pub open spec fn digit_value(c: char) -> int {
    c as int - '0' as int
}

/// The ASCII digit for `d`, for `d` in `0..10`.
pub open spec fn digit_char(d: int) -> char {
    (d + '0' as int) as char
}

/// `n` written in decimal, without leading zeros.
pub open spec fn decimal(n: nat) -> Seq<char>
    decreases n,
{
    if n < 10 {
        seq![digit_char(n as int)]
    } else {
        decimal(n / 10).push(digit_char((n % 10) as int))
    }
}

/// `i` written in decimal, with a leading `-` when negative.
pub open spec fn int_text(i: int) -> Seq<char> {
    if i < 0 {
        seq!['-'] + decimal((-i) as nat)
    } else {
        decimal(i as nat)
    }
}

/// The value of a string of decimal digits.
pub open spec fn digits_value(s: Seq<char>) -> int
    decreases s.len(),
{
    if s.len() == 0 {
        0
    } else {
        digits_value(s.drop_last()) * 10 + digit_value(s.last())
    }
}

/// Whether every character of `s` is a decimal digit.
pub open spec fn all_digits(s: Seq<char>) -> bool {
    forall|i: int| 0 <= i < s.len() ==> is_digit(#[trigger] s[i])
}

pub proof fn lemma_digit_char(d: int)
    requires
        0 <= d < 10,
    ensures
        is_digit(digit_char(d)),
        digit_value(digit_char(d)) == d,
        digit_char(d) != '-',
        digit_char(d) != '+',
        !is_space(digit_char(d)),
{
}

/// Decimal text is nonempty, all digits, and reads back as the number.
pub proof fn lemma_decimal(n: nat)
    ensures
        decimal(n).len() > 0,
        all_digits(decimal(n)),
        digits_value(decimal(n)) == n,
        !is_space(decimal(n)[0]),
        !is_space(decimal(n).last()),
        decimal(n)[0] != '+',
        decimal(n)[0] != '-',
        !decimal(n).contains('\n'),
    decreases n,
{
    if n < 10 {
        lemma_digit_char(n as int);
        assert(decimal(n).drop_last() =~= Seq::<char>::empty());
        assert(digits_value(decimal(n)) == digits_value(decimal(n).drop_last()) * 10 + digit_value(decimal(n).last()));
    } else {
        lemma_decimal(n / 10);
        lemma_digit_char((n % 10) as int);
        assert(decimal(n).drop_last() =~= decimal(n / 10));
        assert(decimal(n).last() == digit_char((n % 10) as int));
        assert(digits_value(decimal(n)) == digits_value(decimal(n / 10)) * 10 + (n % 10));
        assert forall|i: int| 0 <= i < decimal(n).len() implies is_digit(#[trigger] decimal(n)[i]) by {
            if i < decimal(n / 10).len() {
                assert(decimal(n)[i] == decimal(n / 10)[i]);
            }
        }
        assert(!decimal(n).contains('\n')) by {
            if decimal(n).contains('\n') {
                let k = choose|k: int| 0 <= k < decimal(n).len() && decimal(n)[k] == '\n';
                assert(is_digit(decimal(n)[k]));
            }
        }
    }
}

/// Digits only grow in value as more are appended.
pub proof fn lemma_digits_value_prefix(s: Seq<char>, i: int)
    requires
        0 <= i <= s.len(),
        all_digits(s),
    ensures
        0 <= digits_value(s.take(i)) <= digits_value(s),
    decreases s.len() - i,
{
    if i < s.len() {
        lemma_digits_value_prefix(s, i + 1);
        assert(s.take(i + 1).drop_last() =~= s.take(i));
        assert(is_digit(s[i]));
    } else {
        assert(s.take(i) =~= s);
        lemma_digits_value_nonneg(s);
    }
}

pub proof fn lemma_digits_value_nonneg(s: Seq<char>)
    requires
        all_digits(s),
    ensures
        digits_value(s) >= 0,
    decreases s.len(),
{
    if s.len() > 0 {
        assert(s.drop_last().len() < s.len());
        assert(all_digits(s.drop_last())) by {
            assert forall|i: int| 0 <= i < s.drop_last().len() implies is_digit(
                #[trigger] s.drop_last()[i],
            ) by {
                assert(s.drop_last()[i] == s[i]);
            }
        }
        lemma_digits_value_nonneg(s.drop_last());
        assert(is_digit(s[s.len() - 1]));
    }
}

/// The ASCII digit for `d`.
fn digit_to_char(d: u64) -> (c: char)
    requires
        d < 10,
    ensures
        c == digit_char(d as int),
{
    if d == 0 {
        '0'
    } else if d == 1 {
        '1'
    } else if d == 2 {
        '2'
    } else if d == 3 {
        '3'
    } else if d == 4 {
        '4'
    } else if d == 5 {
        '5'
    } else if d == 6 {
        '6'
    } else if d == 7 {
        '7'
    } else if d == 8 {
        '8'
    } else {
        '9'
    }
}

/// Appends `n` in decimal to `out`.
pub fn push_decimal(out: &mut Vec<char>, n: u64)
    ensures
        final(out)@ == old(out)@ + decimal(n as nat),
    decreases n,
{
    if n >= 10 {
        push_decimal(out, n / 10);
    }
    out.push(digit_to_char(n % 10));
    proof {
        if n >= 10 {
            assert(decimal(n as nat) == decimal((n / 10) as nat).push(digit_char((n % 10) as int)));
        }
    }
    assert(out@ =~= old(out)@ + decimal(n as nat));
}

/// Appends `i` in decimal, with a `-` when negative, to `out`.
pub fn push_int(out: &mut Vec<char>, i: i64)
    requires
        i > i64::MIN,
    ensures
        final(out)@ == old(out)@ + int_text(i as int),
{
    if i < 0 {
        out.push('-');
        let m: i64 = -i;
        push_decimal(out, m as u64);
        assert(out@ =~= old(out)@ + int_text(i as int));
    } else {
        push_decimal(out, i as u64);
    }
}

/// The value of the digits `s[from..]` when they are all digits and it is at most
/// `limit`.
pub fn parse_digits(s: &[char], from: usize, limit: u64) -> (r: Option<u64>)
    requires
        from <= s.len(),
        limit <= 0x1_0000_0000,
    ensures
        r matches Some(v) ==> all_digits(s@.skip(from as int)) && v == digits_value(
            s@.skip(from as int),
        ) && v <= limit,
        r is None ==> !all_digits(s@.skip(from as int)) || digits_value(s@.skip(from as int))
            > limit,
{
    let ghost t = s@.skip(from as int);
    let mut acc: u64 = 0;
    let mut big = false;
    let mut i: usize = from;
    while i < s.len()
        invariant
            from <= i <= s.len(),
            limit <= 0x1_0000_0000,
            t == s@.skip(from as int),
            all_digits(t.take(i - from)),
            !big ==> acc == digits_value(t.take(i - from)) && acc <= limit,
            big ==> digits_value(t.take(i - from)) > limit,
        decreases s.len() - i,
    {
        let c = s[i];
        if !('0' <= c && c <= '9') {
            assert(t[i - from] == c);
            return None;
        }
        let ghost k = (i - from) as int;
        assert(t.take(k + 1).drop_last() =~= t.take(k));
        assert(t.take(k + 1).last() == c);
        assert(all_digits(t.take(k + 1))) by {
            assert forall|j: int| 0 <= j < k + 1 implies is_digit(#[trigger] t.take(k + 1)[j]) by {
                if j < k {
                    assert(t.take(k + 1)[j] == t.take(k)[j]);
                }
            }
        }
        proof {
            lemma_digits_value_nonneg(t.take(k));
        }
        if !big {
            let d = (c as u32 - '0' as u32) as u64;
            acc = acc * 10 + d;
            if acc > limit {
                big = true;
            }
        }
        i += 1;
    }
    assert(t.take(i - from) =~= t);
    if big {
        None
    } else {
        Some(acc)
    }
}

/// `i64::from_str`-style reading of a signed decimal: an optional `+` or `-`,
/// then one or more ASCII digits. The value is not yet bounded.
pub open spec fn parse_signed(s: Seq<char>) -> Option<int> {
    if s.len() == 0 {
        None
    } else {
        let neg = s[0] == '-';
        let body = if s[0] == '-' || s[0] == '+' {
            s.drop_first()
        } else {
            s
        };
        if body.len() > 0 && all_digits(body) {
            Some(
                if neg {
                    -digits_value(body)
                } else {
                    digits_value(body)
                },
            )
        } else {
            None
        }
    }
}

/// `i32::from_str`.
pub open spec fn parse_i32(s: Seq<char>) -> Option<i32> {
    match parse_signed(s) {
        Some(v) => if i32::MIN <= v <= i32::MAX {
            Some(v as i32)
        } else {
            None
        },
        None => None,
    }
}

/// `u8::from_str`: an optional `+`, then one or more ASCII digits, at most 255.
pub open spec fn parse_u8(s: Seq<char>) -> Option<u8> {
    if s.len() == 0 {
        None
    } else {
        let body = if s[0] == '+' {
            s.drop_first()
        } else {
            s
        };
        if body.len() > 0 && all_digits(body) && digits_value(body) <= 255 {
            Some(digits_value(body) as u8)
        } else {
            None
        }
    }
}

/// `bool::from_str`: exactly `true` or `false`.
pub open spec fn parse_bool(s: Seq<char>) -> Option<bool> {
    if s == "true"@ {
        Some(true)
    } else if s == "false"@ {
        Some(false)
    } else {
        None
    }
}

/// The text that `Display` gives a `bool`.
pub open spec fn bool_text(b: bool) -> Seq<char> {
    if b {
        "true"@
    } else {
        "false"@
    }
}

/// `i32::from_str` on characters.
pub fn parse_i32_chars(s: &[char]) -> (r: Option<i32>)
    ensures
        r == parse_i32(s@),
{
    if s.len() == 0 {
        return None;
    }
    let neg = s[0] == '-';
    let start: usize = if s[0] == '-' || s[0] == '+' {
        1
    } else {
        0
    };
    assert(s@.skip(start as int) =~= (if start == 1 {
        s@.drop_first()
    } else {
        s@
    }));
    if start == s.len() {
        return None;
    }
    let limit: u64 = if neg {
        2147483648
    } else {
        2147483647
    };
    match parse_digits(s, start, limit) {
        Some(v) => {
            if neg {
                let r: i64 = -(v as i64);
                Some(r as i32)
            } else {
                Some(v as i32)
            }
        },
        None => {
            proof {
                if all_digits(s@.skip(start as int)) {
                    lemma_digits_value_nonneg(s@.skip(start as int));
                }
            }
            None
        },
    }
}

/// `u8::from_str` on characters.
pub fn parse_u8_chars(s: &[char]) -> (r: Option<u8>)
    ensures
        r == parse_u8(s@),
{
    if s.len() == 0 {
        return None;
    }
    let start: usize = if s[0] == '+' {
        1
    } else {
        0
    };
    assert(s@.skip(start as int) =~= (if start == 1 {
        s@.drop_first()
    } else {
        s@
    }));
    if start == s.len() {
        return None;
    }
    match parse_digits(s, start, 255) {
        Some(v) => Some(v as u8),
        None => None,
    }
}

/// `bool::from_str` on characters.
pub fn parse_bool_chars(s: &[char]) -> (r: Option<bool>)
    ensures
        r == parse_bool(s@),
{
    if chars_eq_str(s, "true") {
        Some(true)
    } else if chars_eq_str(s, "false") {
        Some(false)
    } else {
        None
    }
}

/// A decimal written by `int_text` reads back as the same `i32`.
pub proof fn lemma_parse_i32_int_text(z: i32)
    ensures
        parse_i32(int_text(z as int)) == Some(z),
{
    if z < 0 {
        let d = decimal((-z) as nat);
        lemma_decimal((-z) as nat);
        let s = seq!['-'] + d;
        assert(s.drop_first() =~= d);
        assert(s[0] == '-');
    } else {
        lemma_decimal(z as nat);
    }
}

/// A decimal written by `decimal` reads back as the same `u8`.
pub proof fn lemma_parse_u8_decimal(k: u8)
    ensures
        parse_u8(decimal(k as nat)) == Some(k),
{
    lemma_decimal(k as nat);
}

/// `bool_text` reads back as the same `bool`.
pub proof fn lemma_parse_bool_text(b: bool)
    ensures
        parse_bool(bool_text(b)) == Some(b),
{
    reveal_strlit("true");
    reveal_strlit("false");
    assert("true"@ != "false"@) by {
        assert("true"@.len() != "false"@.len());
    }
}

} // verus!
