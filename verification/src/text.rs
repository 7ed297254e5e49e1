//! Character-level text helpers with the meaning std gives them on `str`.

use vstd::prelude::*;

verus! {

/// Characters with the Unicode `White_Space` property (what `char::is_whitespace` accepts).
pub open spec fn is_space(c: char) -> bool {
    let u = c as u32;
    ||| 0x09 <= u <= 0x0d
    ||| u == 0x20 || u == 0x85 || u == 0xa0 || u == 0x1680
    ||| 0x2000 <= u <= 0x200a
    ||| u == 0x2028 || u == 0x2029 || u == 0x202f || u == 0x205f || u == 0x3000
}

pub fn char_is_space(c: char) -> (b: bool)
    ensures
        b == is_space(c),
{
    let u = c as u32;
    (0x09 <= u && u <= 0x0d) || u == 0x20 || u == 0x85 || u == 0xa0 || u == 0x1680
        || (0x2000 <= u && u <= 0x200a) || u == 0x2028 || u == 0x2029 || u == 0x202f
        || u == 0x205f || u == 0x3000
}

/// The characters of a string slice, in order.
pub fn chars_of(s: &str) -> (v: Vec<char>)
    ensures
        v@ == s@,
{
    let mut v: Vec<char> = Vec::new();
    for c in it: s.chars()
        invariant
            v@ == it.seq().take(it.index() as int),
    {
        v.push(c);
    }
    v
}


/// `s` with leading white space removed (`str::trim_start`).
pub open spec fn trim_start(s: Seq<char>) -> Seq<char>
    decreases s.len(),
{
    if s.len() > 0 && is_space(s[0]) {
        trim_start(s.drop_first())
    } else {
        s
    }
}

/// `s` with trailing white space removed (`str::trim_end`).
pub open spec fn trim_end(s: Seq<char>) -> Seq<char>
    decreases s.len(),
{
    if s.len() > 0 && is_space(s.last()) {
        trim_end(s.drop_last())
    } else {
        s
    }
}

/// `s` with white space removed at both ends (`str::trim`).
pub open spec fn trim(s: Seq<char>) -> Seq<char> {
    trim_end(trim_start(s))
}

/// `s` begins with `p` (`str::starts_with`).
pub open spec fn has_prefix(s: Seq<char>, p: Seq<char>) -> bool {
    p.len() <= s.len() && s.subrange(0, p.len() as int) == p
}

/// The characters of `s` from `from` up to `to`.
pub fn copy_range(s: &[char], from: usize, to: usize) -> (v: Vec<char>)
    requires
        from <= to <= s@.len(),
    ensures
        v@ == s@.subrange(from as int, to as int),
{
    let mut v: Vec<char> = Vec::new();
    let mut i = from;
    while i < to
        invariant
            from <= i <= to <= s@.len(),
            v@ == s@.subrange(from as int, i as int),
        decreases to - i,
    {
        v.push(s[i]);
        i += 1;
    }
    v
}

/// Where the text of `s` without its leading and trailing white space begins and ends.
pub fn trim_bounds(s: &[char]) -> (r: (usize, usize))
    ensures
        r.0 <= r.1 <= s@.len(),
        s@.subrange(r.0 as int, r.1 as int) == trim(s@),
{
    let len = s.len();
    let mut i: usize = 0;
    assert(s@.subrange(0, len as int) =~= s@);
    while i < len && char_is_space(s[i])
        invariant
            i <= len == s@.len(),
            trim_start(s@) == trim_start(s@.subrange(i as int, len as int)),
        decreases len - i,
    {
        assert(s@.subrange(i as int, len as int).drop_first() =~= s@.subrange(i + 1, len as int));
        i += 1;
    }
    assert(trim_start(s@) == s@.subrange(i as int, len as int));
    let mut j: usize = len;
    while j > i && char_is_space(s[j - 1])
        invariant
            i <= j <= len == s@.len(),
            trim(s@) == trim_end(s@.subrange(i as int, j as int)),
        decreases j - i,
    {
        assert(s@.subrange(i as int, j as int).drop_last() =~= s@.subrange(i as int, j - 1));
        j -= 1;
    }
    (i, j)
}

/// `str::trim`: `s` without its leading and trailing white space.
pub fn trim_chars(s: &[char]) -> (v: Vec<char>)
    ensures
        v@ == trim(s@),
{
    let (i, j) = trim_bounds(s);
    copy_range(s, i, j)
}

/// `str::starts_with`.
pub fn starts_with(s: &[char], p: &[char]) -> (b: bool)
    ensures
        b == has_prefix(s@, p@),
{
    if p.len() > s.len() {
        return false;
    }
    let mut i: usize = 0;
    while i < p.len()
        invariant
            i <= p@.len() <= s@.len(),
            s@.subrange(0, i as int) == p@.subrange(0, i as int),
        decreases p.len() - i,
    {
        if s[i] != p[i] {
            assert(s@.subrange(0, p@.len() as int)[i as int] != p@[i as int]);
            return false;
        }
        assert(s@.subrange(0, i + 1) =~= s@.subrange(0, i as int).push(s@[i as int]));
        assert(p@.subrange(0, i + 1) =~= p@.subrange(0, i as int).push(p@[i as int]));
        i += 1;
    }
    assert(p@.subrange(0, p@.len() as int) =~= p@);
    true
}

/// `str::strip_prefix`: what follows `p` in `s`, where `s` begins with `p`.
pub fn strip_prefix(s: &[char], p: &[char]) -> (r: Option<Vec<char>>)
    ensures
        r is Some <==> has_prefix(s@, p@),
        r matches Some(rest) ==> rest@ == s@.subrange(p@.len() as int, s@.len() as int),
{
    if starts_with(s, p) {
        Some(copy_range(s, p.len(), s.len()))
    } else {
        None
    }
}


/// An ASCII decimal digit.
pub open spec fn is_digit(c: char) -> bool {
    0x30 <= (c as u32) <= 0x39
}

pub open spec fn digit_value(c: char) -> int {
    (c as u32) - 0x30
}

pub open spec fn all_digits(s: Seq<char>) -> bool {
    forall|i: int| 0 <= i < s.len() ==> is_digit(#[trigger] s[i])
}

/// The number that a string of decimal digits writes.
pub open spec fn decimal(s: Seq<char>) -> int
    decreases s.len(),
{
    if s.len() == 0 {
        0
    } else {
        decimal(s.drop_last()) * 10 + digit_value(s.last())
    }
}

/// The integer that `s` writes in the syntax of `str::parse` for signed integers:
/// an optional `+` or `-`, then one or more ASCII digits and nothing else.
pub open spec fn signed_decimal(s: Seq<char>) -> Option<int> {
    if s.len() > 0 && (s[0] == '+' || s[0] == '-') {
        let d = s.drop_first();
        if d.len() > 0 && all_digits(d) {
            Some(if s[0] == '-' { -decimal(d) } else { decimal(d) })
        } else {
            None
        }
    } else if s.len() > 0 && all_digits(s) {
        Some(decimal(s))
    } else {
        None
    }
}

/// What `str::parse::<isize>` gives for `s`: the value it writes, where that fits.
pub open spec fn parse_isize_spec(s: Seq<char>) -> Option<isize> {
    match signed_decimal(s) {
        Some(v) => if isize::MIN <= v <= isize::MAX {
            Some(v as isize)
        } else {
            None
        },
        None => None,
    }
}

/// The digits of `s` from `start` on, read as a decimal number capped at 2^64; `None`
/// where one of them is no digit.
fn read_digits(s: &[char], start: usize) -> (r: Option<u128>)
    requires
        start <= s@.len(),
    ensures
        all_digits(s@.subrange(start as int, s@.len() as int)) <==> r is Some,
        r matches Some(v) ==> decimal(s@.subrange(start as int, s@.len() as int)) >= 0
            && v == if decimal(s@.subrange(start as int, s@.len() as int)) < 0x1_0000_0000_0000_0000 {
                decimal(s@.subrange(start as int, s@.len() as int))
            } else {
                0x1_0000_0000_0000_0000
            },
{
    let len = s.len();
    let cap: u128 = 0x1_0000_0000_0000_0000;
    let mut acc: u128 = 0;
    let mut i: usize = start;
    while i < len
        invariant
            start <= i <= len == s@.len(),
            cap == 0x1_0000_0000_0000_0000,
            all_digits(s@.subrange(start as int, i as int)),
            decimal(s@.subrange(start as int, i as int)) >= 0,
            acc as int == if decimal(s@.subrange(start as int, i as int)) < cap {
                decimal(s@.subrange(start as int, i as int))
            } else {
                cap as int
            },
        decreases len - i,
    {
        let u = s[i] as u32;
        let ghost pre = s@.subrange(start as int, i as int);
        let ghost next = s@.subrange(start as int, i + 1);
        assert(next.drop_last() =~= pre);
        if u < 0x30 || u > 0x39 {
            assert(s@.subrange(start as int, len as int)[i - start] == s@[i as int]);
            return None;
        }
        let dv = (u - 0x30) as u128;
        let grown = acc * 10 + dv;
        acc = if grown < cap { grown } else { cap };
        assert(all_digits(next)) by {
            assert forall|k: int| 0 <= k < next.len() implies is_digit(#[trigger] next[k]) by {
                if k < pre.len() {
                    assert(next[k] == pre[k]);
                }
            }
        }
        i += 1;
    }
    Some(acc)
}

/// `str::parse::<isize>`: the integer `s` writes, or `None` where `s` writes none that fits.
pub fn parse_isize(s: &[char]) -> (r: Option<isize>)
    ensures
        r == parse_isize_spec(s@),
{
    let len = s.len();
    if len == 0 {
        return None;
    }
    let negative = s[0] == '-';
    let start: usize = if s[0] == '+' || s[0] == '-' { 1 } else { 0 };
    if start == len {
        return None;
    }
    proof {
        if start == 1 {
            assert(s@.subrange(1, len as int) =~= s@.drop_first());
        } else {
            assert(s@.subrange(0, len as int) =~= s@);
        }
    }
    match read_digits(s, start) {
        None => None,
        Some(magnitude) => {
            if negative {
                if magnitude <= 0x8000_0000_0000_0000 && (magnitude as i128) <= -(isize::MIN as i128) {
                    Some((-(magnitude as i128)) as isize)
                } else {
                    None
                }
            } else {
                if (magnitude as i128) <= isize::MAX as i128 {
                    Some(magnitude as isize)
                } else {
                    None
                }
            }
        },
    }
}

/// Index of the first `c` in `s`, or `s.len()` where `c` does not occur.
pub open spec fn find_char(s: Seq<char>, c: char) -> int
    decreases s.len(),
{
    if s.len() == 0 {
        0
    } else if s[0] == c {
        0
    } else {
        1 + find_char(s.drop_first(), c)
    }
}

pub proof fn lemma_find_char(s: Seq<char>, c: char)
    ensures
        0 <= find_char(s, c) <= s.len(),
        find_char(s, c) < s.len() ==> s[find_char(s, c)] == c,
        forall|k: int| 0 <= k < find_char(s, c) ==> s[k] != c,
    decreases s.len(),
{
    if s.len() > 0 && s[0] != c {
        lemma_find_char(s.drop_first(), c);
        assert forall|k: int| 0 <= k < find_char(s, c) implies s[k] != c by {
            if k > 0 {
                assert(s[k] == s.drop_first()[k - 1]);
            }
        }
    }
}

/// A line with the `\r` of a `\r\n` ending removed.
pub open spec fn strip_cr(l: Seq<char>) -> Seq<char> {
    if l.len() > 0 && l.last() == '\r' {
        l.drop_last()
    } else {
        l
    }
}

/// The lines of `s`, as `str::lines` yields them: split at each `\n`, a `\r` before
/// that `\n` dropped, and no empty line after a final `\n`.
pub open spec fn lines(s: Seq<char>) -> Seq<Seq<char>>
    decreases s.len(),
{
    if s.len() == 0 {
        seq![]
    } else {
        let i = find_char(s, '\n');
        if i >= s.len() {
            seq![s]
        } else {
            proof {
                lemma_find_char(s, '\n');
            }
            seq![strip_cr(s.subrange(0, i))] + lines(s.subrange(i + 1, s.len() as int))
        }
    }
}

/// The pieces of `s` between occurrences of `c`, as `str::split` yields them.
pub open spec fn split_on(s: Seq<char>, c: char) -> Seq<Seq<char>>
    decreases s.len(),
{
    let i = find_char(s, c);
    if i >= s.len() {
        seq![s]
    } else {
        proof {
            lemma_find_char(s, c);
        }
        seq![s.subrange(0, i)] + split_on(s.subrange(i + 1, s.len() as int), c)
    }
}

/// The first of `ls` that begins with `p`.
pub open spec fn first_with_prefix(ls: Seq<Seq<char>>, p: Seq<char>) -> Option<Seq<char>>
    decreases ls.len(),
{
    if ls.len() == 0 {
        None
    } else if has_prefix(ls[0], p) {
        Some(ls[0])
    } else {
        first_with_prefix(ls.drop_first(), p)
    }
}

/// Position of the first `c` in `s` at or after `from`, or `s.len()`.
pub fn find_char_from(s: &[char], from: usize, c: char) -> (j: usize)
    requires
        from <= s@.len(),
    ensures
        j == from + find_char(s@.subrange(from as int, s@.len() as int), c),
        from <= j <= s@.len(),
{
    let len = s.len();
    let mut j = from;
    while j < len && s[j] != c
        invariant
            from <= j <= len == s@.len(),
            find_char(s@.subrange(from as int, len as int), c) == (j - from) + find_char(
                s@.subrange(j as int, len as int),
                c,
            ),
        decreases len - j,
    {
        assert(s@.subrange(j as int, len as int).drop_first() =~= s@.subrange(j + 1, len as int));
        j += 1;
    }
    j
}

/// The first line of `text` (in the sense of `lines`) that begins with `p`.
pub fn first_line_with_prefix(text: &[char], p: &[char]) -> (r: Option<Vec<char>>)
    ensures
        match r {
            Some(line) => first_with_prefix(lines(text@), p@) == Some(line@),
            None => first_with_prefix(lines(text@), p@) is None,
        },
{
    let len = text.len();
    let mut pos: usize = 0;
    assert(text@.subrange(0, len as int) =~= text@);
    loop
        invariant
            pos <= len == text@.len(),
            first_with_prefix(lines(text@), p@) == first_with_prefix(
                lines(text@.subrange(pos as int, len as int)),
                p@,
            ),
        decreases len - pos,
    {
        let ghost rest = text@.subrange(pos as int, len as int);
        if pos == len {
            assert(lines(rest) =~= Seq::<Seq<char>>::empty());
            return None;
        }
        let j = find_char_from(text, pos, '\n');
        proof {
            lemma_find_char(rest, '\n');
        }
        let mut end = j;
        if j < len && j > pos && text[j - 1] == '\r' {
            end = j - 1;
        }
        let line = copy_range(text, pos, end);
        proof {
            assert(rest.subrange(0, j - pos) =~= text@.subrange(pos as int, j as int));
            if j < len {
                assert(strip_cr(rest.subrange(0, j - pos)) =~= line@);
                assert(rest.subrange(j - pos + 1, rest.len() as int) =~= text@.subrange(
                    j + 1,
                    len as int,
                ));
                assert(lines(rest) == seq![line@] + lines(text@.subrange(j + 1, len as int)));
                assert((seq![line@] + lines(text@.subrange(j + 1, len as int)))[0] == line@);
                assert((seq![line@] + lines(text@.subrange(j + 1, len as int))).drop_first()
                    =~= lines(text@.subrange(j + 1, len as int)));
            } else {
                assert(line@ =~= rest);
                assert(lines(rest) == seq![rest]);
                assert(seq![rest].drop_first() =~= Seq::<Seq<char>>::empty());
            }
        }
        if starts_with(&line, p) {
            return Some(line);
        }
        if j == len {
            assert(first_with_prefix(seq![rest].drop_first(), p@) is None);
            return None;
        }
        pos = j + 1;
    }
}


/// Whether two character sequences are equal.
pub fn same_chars(a: &[char], b: &[char]) -> (r: bool)
    ensures
        r == (a@ == b@),
{
    if a.len() != b.len() {
        return false;
    }
    let mut i: usize = 0;
    while i < a.len()
        invariant
            i <= a@.len() == b@.len(),
            forall|k: int| 0 <= k < i ==> a@[k] == b@[k],
        decreases a.len() - i,
    {
        if a[i] != b[i] {
            return false;
        }
        i += 1;
    }
    assert(a@ =~= b@);
    true
}

/// Whether two strings hold the same text.
pub fn same_text(a: &str, b: &str) -> (r: bool)
    ensures
        r == (a@ == b@),
{
    let x = chars_of(a);
    let y = chars_of(b);
    same_chars(&x, &y)
}


/// `a` comes before `b` or equals it in the order of `Ord for str`: character by
/// character, by code point, a proper prefix first.
pub open spec fn text_le(a: Seq<char>, b: Seq<char>) -> bool
    decreases a.len(),
{
    if a.len() == 0 {
        true
    } else if b.len() == 0 {
        false
    } else if (a[0] as u32) < (b[0] as u32) {
        true
    } else if (a[0] as u32) > (b[0] as u32) {
        false
    } else {
        text_le(a.drop_first(), b.drop_first())
    }
}

pub proof fn lemma_text_le_total(a: Seq<char>, b: Seq<char>)
    ensures
        text_le(a, b) || text_le(b, a),
    decreases a.len(),
{
    if a.len() > 0 && b.len() > 0 {
        lemma_text_le_total(a.drop_first(), b.drop_first());
    }
}

pub proof fn lemma_text_le_trans(a: Seq<char>, b: Seq<char>, c: Seq<char>)
    requires
        text_le(a, b),
        text_le(b, c),
    ensures
        text_le(a, c),
    decreases a.len(),
{
    if a.len() > 0 && b.len() > 0 && c.len() > 0 {
        if (a[0] as u32) == (b[0] as u32) && (b[0] as u32) == (c[0] as u32) {
            lemma_text_le_trans(a.drop_first(), b.drop_first(), c.drop_first());
        }
    }
}

/// `a <= b` for strings, as `Ord for str` orders them.
pub fn chars_le(a: &[char], b: &[char]) -> (r: bool)
    ensures
        r == text_le(a@, b@),
{
    let mut i: usize = 0;
    assert(a@.subrange(0, a@.len() as int) =~= a@);
    assert(b@.subrange(0, b@.len() as int) =~= b@);
    while i < a.len() && i < b.len() && (a[i] as u32) == (b[i] as u32)
        invariant
            i <= a@.len(),
            i <= b@.len(),
            text_le(a@, b@) == text_le(
                a@.subrange(i as int, a@.len() as int),
                b@.subrange(i as int, b@.len() as int),
            ),
        decreases a.len() - i,
    {
        assert(a@.subrange(i as int, a@.len() as int).drop_first() =~= a@.subrange(
            i + 1,
            a@.len() as int,
        ));
        assert(b@.subrange(i as int, b@.len() as int).drop_first() =~= b@.subrange(
            i + 1,
            b@.len() as int,
        ));
        i += 1;
    }
    let ghost sa = a@.subrange(i as int, a@.len() as int);
    let ghost sb = b@.subrange(i as int, b@.len() as int);
    if i == a.len() {
        true
    } else if i == b.len() {
        false
    } else {
        assert(sa[0] == a@[i as int] && sb[0] == b@[i as int]);
        (a[i] as u32) < (b[i] as u32)
    }
}


/// The character of decimal digit `d`.
pub open spec fn digit_char(d: int) -> char {
    if d == 0 { '0' } else if d == 1 { '1' } else if d == 2 { '2' } else if d == 3 { '3' }
    else if d == 4 { '4' } else if d == 5 { '5' } else if d == 6 { '6' } else if d == 7 { '7' }
    else if d == 8 { '8' } else { '9' }
}

/// `n` written in decimal, without leading zeros (as `Display` writes unsigned integers).
pub open spec fn decimal_text(n: nat) -> Seq<char>
    decreases n,
{
    if n < 10 {
        seq![digit_char(n as int)]
    } else {
        decimal_text(n / 10).push(digit_char((n % 10) as int))
    }
}

/// `n` written in decimal, with a `-` in front where it is negative (as `Display` writes
/// signed integers).
pub open spec fn signed_text(n: int) -> Seq<char> {
    if n < 0 {
        seq!['-'] + decimal_text((-n) as nat)
    } else {
        decimal_text(n as nat)
    }
}

fn digit_str(d: u128) -> (r: &'static str)
    requires
        d < 10,
    ensures
        r@ == seq![digit_char(d as int)],
{
    proof {
        reveal_strlit("0");
        reveal_strlit("1");
        reveal_strlit("2");
        reveal_strlit("3");
        reveal_strlit("4");
        reveal_strlit("5");
        reveal_strlit("6");
        reveal_strlit("7");
        reveal_strlit("8");
        reveal_strlit("9");
    }
    if d == 0 { "0" } else if d == 1 { "1" } else if d == 2 { "2" } else if d == 3 { "3" }
    else if d == 4 { "4" } else if d == 5 { "5" } else if d == 6 { "6" } else if d == 7 { "7" }
    else if d == 8 { "8" } else { "9" }
}

/// Appends `n` in decimal to `s`.
pub fn append_decimal(s: &mut String, n: u128)
    ensures
        final(s)@ == old(s)@ + decimal_text(n as nat),
    decreases n,
{
    if n >= 10 {
        append_decimal(s, n / 10);
    }
    s.append(digit_str(n % 10));
    assert(final(s)@ =~= old(s)@ + decimal_text(n as nat));
}

/// `n` in decimal.
pub fn usize_text(n: usize) -> (r: String)
    ensures
        r@ == decimal_text(n as nat),
{
    let mut s = String::new();
    append_decimal(&mut s, n as u128);
    assert(s@ =~= decimal_text(n as nat));
    s
}

/// `n` in decimal, with a `-` in front where it is negative.
pub fn isize_text(n: isize) -> (r: String)
    ensures
        r@ == signed_text(n as int),
{
    let mut s = String::new();
    if n < 0 {
        s.append("-");
        proof {
            reveal_strlit("-");
        }
        append_decimal(&mut s, (-(n as i128)) as u128);
    } else {
        append_decimal(&mut s, n as u128);
    }
    assert(s@ =~= signed_text(n as int));
    s
}


/// The number that `s` writes in the syntax of `str::parse` for unsigned integers: an
/// optional `+`, then one or more ASCII digits and nothing else.
pub open spec fn unsigned_decimal(s: Seq<char>) -> Option<int> {
    if s.len() > 0 && s[0] == '+' {
        let d = s.drop_first();
        if d.len() > 0 && all_digits(d) {
            Some(decimal(d))
        } else {
            None
        }
    } else if s.len() > 0 && all_digits(s) {
        Some(decimal(s))
    } else {
        None
    }
}

/// What `str::parse::<usize>` gives for `s`: the number it writes, where that fits.
pub open spec fn parse_usize_spec(s: Seq<char>) -> Option<usize> {
    match unsigned_decimal(s) {
        Some(v) => if v <= usize::MAX {
            Some(v as usize)
        } else {
            None
        },
        None => None,
    }
}

/// `str::parse::<usize>`: the number `s` writes, or `None` where it writes none that fits.
pub fn parse_usize(s: &[char]) -> (r: Option<usize>)
    ensures
        r == parse_usize_spec(s@),
{
    let len = s.len();
    if len == 0 {
        return None;
    }
    let start: usize = if s[0] == '+' { 1 } else { 0 };
    if start == len {
        return None;
    }
    proof {
        if start == 1 {
            assert(s@.subrange(1, len as int) =~= s@.drop_first());
        } else {
            assert(s@.subrange(0, len as int) =~= s@);
        }
    }
    match read_digits(s, start) {
        None => None,
        Some(v) => if v <= usize::MAX as u128 {
            Some(v as usize)
        } else {
            None
        },
    }
}

/// `s` ends with `p` (`str::ends_with`).
pub open spec fn has_suffix(s: Seq<char>, p: Seq<char>) -> bool {
    p.len() <= s.len() && s.subrange(s.len() - p.len(), s.len() as int) == p
}

/// `str::strip_suffix`: what comes before `p` in `s`, where `s` ends with `p`.
pub fn strip_suffix(s: &[char], p: &[char]) -> (r: Option<Vec<char>>)
    ensures
        r is Some <==> has_suffix(s@, p@),
        r matches Some(rest) ==> rest@ == s@.subrange(0, s@.len() - p@.len()),
{
    if p.len() > s.len() {
        return None;
    }
    let off = s.len() - p.len();
    let mut i: usize = 0;
    while i < p.len()
        invariant
            off + p@.len() == s@.len(),
            s@.len() <= usize::MAX,
            i <= p@.len(),
            forall|k: int| 0 <= k < i ==> s@[off + k] == p@[k],
        decreases p.len() - i,
    {
        if s[off + i] != p[i] {
            assert(s@.subrange(off as int, s@.len() as int)[i as int] != p@[i as int]);
            return None;
        }
        i += 1;
    }
    assert(s@.subrange(off as int, s@.len() as int) =~= p@);
    Some(copy_range(s, 0, off))
}

proof fn lemma_digit_char(d: int)
    requires
        0 <= d < 10,
    ensures
        is_digit(digit_char(d)),
        digit_value(digit_char(d)) == d,
        digit_char(d) != '+',
{
}

/// The decimal text of a number is all digits and reads back as the number.
pub proof fn lemma_decimal_text(n: nat)
    ensures
        decimal_text(n).len() > 0,
        all_digits(decimal_text(n)),
        decimal(decimal_text(n)) == n,
        decimal_text(n)[0] != '+',
    decreases n,
{
    lemma_digit_char((n % 10) as int);
    if n < 10 {
        let u = seq![digit_char(n as int)];
        assert(u.drop_last() =~= Seq::<char>::empty());
        assert(decimal(u) == decimal(u.drop_last()) * 10 + digit_value(u.last()));
    }
    if n >= 10 {
        lemma_decimal_text(n / 10);
        let t = decimal_text(n / 10);
        assert((n / 10) * 10 + n % 10 == n);
        let u = t.push(digit_char((n % 10) as int));
        assert(u.drop_last() =~= t);
        assert(decimal(u) == decimal(t) * 10 + digit_value(u.last()));
        assert(u[0] == t[0]);
        assert forall|i: int| 0 <= i < u.len() implies is_digit(#[trigger] u[i]) by {
            if i < t.len() {
                assert(u[i] == t[i]);
            }
        }
    }
}

/// Reading the decimal text of a number gives the number back.
pub proof fn lemma_parse_usize_text(n: usize)
    ensures
        parse_usize_spec(decimal_text(n as nat)) == Some(n),
{
    lemma_decimal_text(n as nat);
}


/// Index of the first white-space character of `s`, or `s.len()`.
pub open spec fn find_space(s: Seq<char>) -> int
    decreases s.len(),
{
    if s.len() == 0 {
        0
    } else if is_space(s[0]) {
        0
    } else {
        1 + find_space(s.drop_first())
    }
}

pub proof fn lemma_find_space(s: Seq<char>)
    ensures
        0 <= find_space(s) <= s.len(),
        s.len() > 0 && !is_space(s[0]) ==> find_space(s) >= 1,
    decreases s.len(),
{
    if s.len() > 0 && !is_space(s[0]) {
        lemma_find_space(s.drop_first());
    }
}

pub proof fn lemma_trim_start(s: Seq<char>)
    ensures
        trim_start(s).len() <= s.len(),
        trim_start(s).len() > 0 ==> !is_space(trim_start(s)[0]),
    decreases s.len(),
{
    if s.len() > 0 && is_space(s[0]) {
        lemma_trim_start(s.drop_first());
    }
}

/// The words of `s`: its maximal runs of characters that are not white space, as
/// `str::split_whitespace` yields them.
pub open spec fn words(s: Seq<char>) -> Seq<Seq<char>>
    decreases s.len(),
{
    let t = trim_start(s);
    if t.len() == 0 {
        seq![]
    } else {
        let i = find_space(t);
        proof {
            lemma_trim_start(s);
            lemma_find_space(t);
        }
        seq![t.subrange(0, i)] + words(t.subrange(i, t.len() as int))
    }
}

/// The words joined with a single space between each two (`[&str]::join(" ")`).
pub open spec fn join_words(ws: Seq<Seq<char>>) -> Seq<char>
    decreases ws.len(),
{
    if ws.len() == 0 {
        seq![]
    } else if ws.len() == 1 {
        ws[0]
    } else {
        ws[0] + seq![' '] + join_words(ws.drop_first())
    }
}

pub open spec fn ranges_text(s: Seq<char>, bs: Seq<(usize, usize)>) -> Seq<Seq<char>> {
    bs.map_values(|b: (usize, usize)| s.subrange(b.0 as int, b.1 as int))
}

/// Where the words of `s` begin and end.
pub fn word_bounds(s: &[char]) -> (r: Vec<(usize, usize)>)
    ensures
        ranges_text(s@, r@) == words(s@),
        forall|k: int| 0 <= k < r@.len() ==> (#[trigger] r@[k]).0 <= r@[k].1 <= s@.len(),
{
    let len = s.len();
    let mut r: Vec<(usize, usize)> = Vec::new();
    let mut pos: usize = 0;
    assert(s@.subrange(0, len as int) =~= s@);
    assert(ranges_text(s@, r@) =~= Seq::<Seq<char>>::empty());
    loop
        invariant
            pos <= len == s@.len(),
            words(s@) == ranges_text(s@, r@) + words(s@.subrange(pos as int, len as int)),
            forall|k: int| 0 <= k < r@.len() ==> (#[trigger] r@[k]).0 <= r@[k].1 <= s@.len(),
        decreases len - pos,
    {
        let mut a = pos;
        while a < len && char_is_space(s[a])
            invariant
                pos <= a <= len == s@.len(),
                trim_start(s@.subrange(pos as int, len as int)) == trim_start(
                    s@.subrange(a as int, len as int),
                ),
            decreases len - a,
        {
            assert(s@.subrange(a as int, len as int).drop_first() =~= s@.subrange(a + 1, len as int));
            a += 1;
        }
        let ghost t = s@.subrange(a as int, len as int);
        assert(trim_start(t) == t);
        if a == len {
            assert(words(s@.subrange(pos as int, len as int)) =~= Seq::<Seq<char>>::empty());
            assert(ranges_text(s@, r@) + Seq::<Seq<char>>::empty() =~= ranges_text(s@, r@));
            return r;
        }
        let mut b = a;
        while b < len && !char_is_space(s[b])
            invariant
                a <= b <= len == s@.len(),
                find_space(t) == (b - a) + find_space(s@.subrange(b as int, len as int)),
                t == s@.subrange(a as int, len as int),
            decreases len - b,
        {
            assert(s@.subrange(b as int, len as int).drop_first() =~= s@.subrange(b + 1, len as int));
            b += 1;
        }
        proof {
            assert(find_space(t) == b - a);
            assert(t.subrange(0, b - a) =~= s@.subrange(a as int, b as int));
            assert(t.subrange(b - a, t.len() as int) =~= s@.subrange(b as int, len as int));
            assert(words(s@.subrange(pos as int, len as int)) == seq![s@.subrange(a as int, b as int)]
                + words(s@.subrange(b as int, len as int)));
        }
        let ghost before = r@;
        r.push((a, b));
        proof {
            assert(ranges_text(s@, r@) =~= ranges_text(s@, before).push(s@.subrange(a as int, b as int)));
            assert(ranges_text(s@, r@) + words(s@.subrange(b as int, len as int)) =~= ranges_text(
                s@,
                before,
            ) + (seq![s@.subrange(a as int, b as int)] + words(s@.subrange(b as int, len as int))));
        }
        pos = b;
    }
}


pub proof fn lemma_join_push(ws: Seq<Seq<char>>, w: Seq<char>)
    ensures
        join_words(ws.push(w)) == if ws.len() == 0 {
            w
        } else {
            join_words(ws) + seq![' '] + w
        },
    decreases ws.len(),
{
    if ws.len() == 0 {
        assert(ws.push(w).len() == 1);
        assert(ws.push(w)[0] == w);
    } else if ws.len() == 1 {
        assert(ws.push(w).drop_first() =~= seq![w]);
        assert(join_words(seq![w]) == w);
        assert(ws.push(w)[0] == ws[0]);
        assert(join_words(ws) == ws[0]);
    } else if ws.len() > 1 {
        lemma_join_push(ws.drop_first(), w);
        assert(ws.push(w).drop_first() =~= ws.drop_first().push(w));
        assert(join_words(ws.push(w)) =~= join_words(ws) + seq![' '] + w);
    }
}

} // verus!
