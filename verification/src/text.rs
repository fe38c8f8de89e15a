//! Character-level text scanning used by the command-output parsers.
//!
//! Every scanner works on a `Vec<char>` and a half-open index window
//! `[lo, hi)`, and is specified by a recursive spec function over the same
//! window, so a parser built from them can be stated as a composition of
//! these specs.

use vstd::prelude::*;

verus! {

/// `String::push` appends one character to the end of the string.
pub assume_specification[ String::push ](string: &mut String, ch: char)
    ensures
        final(string)@ == old(string)@.push(ch),
;

/// A class of characters that a scanner stops at or skips over.
#[derive(Clone, Copy, PartialEq, Eq, Structural)]
pub enum CharClass {
    /// The Unicode `White_Space` characters (what `char::is_whitespace` accepts).
    Whitespace,
    /// Exactly this character.
    Exactly(char),
}

/// The Unicode `White_Space` property.
pub open spec fn is_ws(c: char) -> bool {
    let u = c as u32;
    ||| 0x09 <= u <= 0x0d
    ||| u == 0x20
    ||| u == 0x85
    ||| u == 0xa0
    ||| u == 0x1680
    ||| 0x2000 <= u <= 0x200a
    ||| u == 0x2028
    ||| u == 0x2029
    ||| u == 0x202f
    ||| u == 0x205f
    ||| u == 0x3000
}

pub open spec fn in_class(c: char, k: CharClass) -> bool {
    match k {
        CharClass::Whitespace => is_ws(c),
        CharClass::Exactly(x) => c == x,
    }
}

/// ASCII decimal digit.
pub open spec fn is_digit(c: char) -> bool {
    '0' <= c <= '9'
}

pub open spec fn digit_value(c: char) -> int {
    (c as u32) as int - ('0' as u32) as int
}

/// First index `j` in `[i, hi]` such that `j == hi` or `s[j]` is (when
/// `want`) or is not (when `!want`) in class `k`.
pub open spec fn span(s: Seq<char>, k: CharClass, want: bool, i: int, hi: int) -> int
    decreases hi - i,
{
    if i >= hi {
        i
    } else if in_class(s[i], k) == want {
        i
    } else {
        span(s, k, want, i + 1, hi)
    }
}

/// First index at or after `i` holding a character of class `k` (or `hi`).
pub open spec fn find_class(s: Seq<char>, k: CharClass, i: int, hi: int) -> int {
    span(s, k, true, i, hi)
}

/// First index at or after `i` holding a character outside class `k` (or `hi`).
pub open spec fn skip(s: Seq<char>, k: CharClass, i: int, hi: int) -> int {
    span(s, k, false, i, hi)
}

/// End of `[lo, j)` after removing every trailing character of class `k`.
pub open spec fn back(s: Seq<char>, k: CharClass, lo: int, j: int) -> int
    decreases j - lo,
{
    if j <= lo {
        j
    } else if in_class(s[j - 1], k) {
        back(s, k, lo, j - 1)
    } else {
        j
    }
}

/// Does `pat` occur in `s` starting at `i` and ending no later than `hi`?
pub open spec fn matches_at(s: Seq<char>, pat: Seq<char>, i: int, hi: int) -> bool {
    &&& 0 <= i
    &&& i + pat.len() <= hi
    &&& hi <= s.len()
    &&& s.subrange(i, i + pat.len()) == pat
}

/// First start index at or after `i` of an occurrence of `pat` inside `[i, hi)`.
pub open spec fn find_seq(s: Seq<char>, pat: Seq<char>, i: int, hi: int) -> Option<int>
    decreases hi - i + 1,
{
    if i < 0 || i + pat.len() > hi {
        None
    } else if matches_at(s, pat, i, hi) {
        Some(i)
    } else {
        find_seq(s, pat, i + 1, hi)
    }
}

/// A match found by [`find_seq`] lies inside the searched window.
pub proof fn lemma_find_seq_fits(s: Seq<char>, pat: Seq<char>, i: int, hi: int)
    ensures
        find_seq(s, pat, i, hi) matches Some(x) ==> i <= x && x + pat.len() <= hi && matches_at(
            s,
            pat,
            x,
            hi,
        ),
    decreases hi - i + 1,
{
    if !(i < 0 || i + pat.len() > hi) && !matches_at(s, pat, i, hi) {
        lemma_find_seq_fits(s, pat, i + 1, hi);
    }
}

/// An occurrence of `pat` at `x` is found from any start at or before `x`,
/// at `x` or earlier.
pub proof fn lemma_find_seq_reaches(s: Seq<char>, pat: Seq<char>, i: int, x: int, hi: int)
    requires
        0 <= i <= x,
        matches_at(s, pat, x, hi),
    ensures
        find_seq(s, pat, i, hi) matches Some(y) && i <= y <= x,
    decreases x - i,
{
    if !matches_at(s, pat, i, hi) {
        lemma_find_seq_reaches(s, pat, i + 1, x, hi);
    }
}

/// Appending text after a string in which `pat` occurs does not move the
/// first occurrence.
pub proof fn lemma_find_seq_extend(s: Seq<char>, t: Seq<char>, pat: Seq<char>, i: int)
    requires
        0 <= i,
        find_seq(s, pat, i, s.len() as int) is Some,
    ensures
        find_seq(s + t, pat, i, (s + t).len() as int) == find_seq(s, pat, i, s.len() as int),
    decreases s.len() - i,
{
    lemma_find_seq_fits(s, pat, i, s.len() as int);
    let st = s + t;
    assert(i + pat.len() <= s.len());
    assert(st.subrange(i, i + pat.len()) =~= s.subrange(i, i + pat.len()));
    if !matches_at(s, pat, i, s.len() as int) {
        lemma_find_seq_extend(s, t, pat, i + 1);
    }
}

/// A character of class `k` at `x` stops a scan from any start at or
/// before `x`, at `x` or earlier.
pub proof fn lemma_find_class_reaches(s: Seq<char>, k: CharClass, i: int, x: int, hi: int)
    requires
        i <= x < hi,
        in_class(s[x], k),
    ensures
        i <= find_class(s, k, i, hi) <= x,
    decreases x - i,
{
    if !in_class(s[i], k) {
        lemma_find_class_reaches(s, k, i + 1, x, hi);
    }
}

/// Appending text after a string in which a scan stops does not move the
/// stop.
pub proof fn lemma_find_class_extend(s: Seq<char>, t: Seq<char>, k: CharClass, i: int)
    requires
        0 <= i,
        find_class(s, k, i, s.len() as int) < s.len(),
    ensures
        find_class(s + t, k, i, (s + t).len() as int) == find_class(s, k, i, s.len() as int),
    decreases s.len() - i,
{
    if i < s.len() {
        assert((s + t)[i] == s[i]);
        if !in_class(s[i], k) {
            lemma_find_class_extend(s, t, k, i + 1);
        }
    }
}

/// A search from `i` finds the first occurrence at or after `i`.
pub proof fn lemma_find_seq_first(s: Seq<char>, pat: Seq<char>, i: int, x: int, hi: int)
    requires
        0 <= i <= x,
        matches_at(s, pat, x, hi),
        forall|j: int| i <= j < x ==> !#[trigger] matches_at(s, pat, j, hi),
    ensures
        find_seq(s, pat, i, hi) == Some(x),
    decreases x - i,
{
    if i < x {
        lemma_find_seq_first(s, pat, i + 1, x, hi);
    }
}

/// A search from `i` finds nothing when nothing occurs at or after `i`.
pub proof fn lemma_find_seq_none(s: Seq<char>, pat: Seq<char>, i: int, hi: int)
    requires
        0 <= i,
        forall|j: int| i <= j ==> !#[trigger] matches_at(s, pat, j, hi),
    ensures
        find_seq(s, pat, i, hi) is None,
    decreases hi - i + 1,
{
    if !(i + pat.len() > hi) {
        lemma_find_seq_none(s, pat, i + 1, hi);
    }
}

/// A scan from `i` stops at the first character of class `k` at or after
/// `i`, or at `hi` when there is none.
pub proof fn lemma_find_class_first(s: Seq<char>, k: CharClass, i: int, x: int, hi: int)
    requires
        i <= x <= hi,
        forall|j: int| i <= j < x ==> !in_class(#[trigger] s[j], k),
        x < hi ==> in_class(s[x], k),
    ensures
        find_class(s, k, i, hi) == x,
    decreases x - i,
{
    if i < x {
        lemma_find_class_first(s, k, i + 1, x, hi);
    }
}

/// Last index below `j` holding `c`.
pub open spec fn rfind_char(s: Seq<char>, c: char, j: int) -> Option<int>
    decreases j,
{
    if j <= 0 {
        None
    } else if s[j - 1] == c {
        Some(j - 1)
    } else {
        rfind_char(s, c, j - 1)
    }
}

/// Numeric value of the decimal digits in `[lo, hi)`.
pub open spec fn digits_value(s: Seq<char>, lo: int, hi: int) -> int
    decreases hi - lo,
{
    if hi <= lo {
        0
    } else {
        digits_value(s, lo, hi - 1) * 10 + digit_value(s[hi - 1])
    }
}

pub open spec fn all_digits(s: Seq<char>, lo: int, hi: int) -> bool {
    forall|k: int| lo <= k < hi ==> is_digit(#[trigger] s[k])
}

/// What `str::parse` gives for an unsigned integer type whose largest value
/// is `max`, applied to the text in `[lo, hi)`: an optional `+`, then one or
/// more ASCII digits, whose value must not exceed `max`.
pub open spec fn parse_uint(s: Seq<char>, lo: int, hi: int, max: int) -> Option<int> {
    let d = if lo < hi && s[lo] == '+' { lo + 1 } else { lo };
    if d >= hi || !all_digits(s, d, hi) {
        None
    } else if digits_value(s, d, hi) > max {
        None
    } else {
        Some(digits_value(s, d, hi))
    }
}

/// Decimal spelling of `n`, as `Display` writes an unsigned integer.
pub open spec fn decimal(n: nat) -> Seq<char>
    decreases n,
{
    if n < 10 {
        seq![(('0' as u32) + n) as char]
    } else {
        decimal(n / 10).push((('0' as u32) + n % 10) as char)
    }
}

pub open spec fn hex_char(d: nat) -> char {
    if d < 10 {
        (('0' as u32) + d) as char
    } else {
        (('a' as u32) + (d - 10)) as char
    }
}

/// The low `width` lowercase hexadecimal digits of `n`, most significant first.
pub open spec fn hex_digits(n: nat, width: nat) -> Seq<char>
    decreases width,
{
    if width == 0 {
        Seq::empty()
    } else {
        hex_digits(n / 16, (width - 1) as nat).push(hex_char(n % 16))
    }
}

pub fn is_whitespace(c: char) -> (b: bool)
    ensures
        b == is_ws(c),
{
    let u = c as u32;
    (0x09 <= u && u <= 0x0d) || u == 0x20 || u == 0x85 || u == 0xa0 || u == 0x1680 || (0x2000 <= u
        && u <= 0x200a) || u == 0x2028 || u == 0x2029 || u == 0x202f || u == 0x205f || u == 0x3000
}

pub fn char_in_class(c: char, k: CharClass) -> (b: bool)
    ensures
        b == in_class(c, k),
{
    match k {
        CharClass::Whitespace => is_whitespace(c),
        CharClass::Exactly(x) => c == x,
    }
}

/// The characters of `s`, one element each.
pub fn chars_of(s: &str) -> (v: Vec<char>)
    ensures
        v@ == s@,
{
    let mut v: Vec<char> = Vec::new();
    for c in it: s.chars()
        invariant
            v@ == it.seq().take(it.index() as int),
    {
        v.push(c);
    }
    proof {
        broadcast use vstd::string::axiom_spec_iter;

        assert(v@ =~= s@);
    }
    v
}

/// A `String` holding the characters `v[lo..hi]`.
pub fn string_of_range(v: &Vec<char>, lo: usize, hi: usize) -> (s: String)
    requires
        lo <= hi <= v.len(),
    ensures
        s@ == v@.subrange(lo as int, hi as int),
{
    let mut s = String::new();
    let mut i: usize = lo;
    while i < hi
        invariant
            lo <= i <= hi <= v.len(),
            s@ == v@.subrange(lo as int, i as int),
        decreases hi - i,
    {
        s.push(v[i]);
        proof {
            assert(v@.subrange(lo as int, i + 1) =~= v@.subrange(lo as int, i as int).push(v@[i as int]));
        }
        i = i + 1;
    }
    s
}

/// Appends `t` to `s`.
pub fn push_str(s: &mut String, t: &str)
    ensures
        final(s)@ == old(s)@ + t@,
{
    let v = chars_of(t);
    let ghost start = s@;
    let mut i: usize = 0;
    while i < v.len()
        invariant
            i <= v.len(),
            v@ == t@,
            s@ == start + v@.take(i as int),
        decreases v.len() - i,
    {
        s.push(v[i]);
        proof {
            assert(v@.take(i + 1) =~= v@.take(i as int).push(v@[i as int]));
        }
        i = i + 1;
    }
    proof {
        assert(v@.take(v.len() as int) =~= v@);
    }
}

/// See [`span`].
pub fn span_class(v: &Vec<char>, k: CharClass, want: bool, i: usize, hi: usize) -> (r: usize)
    requires
        i <= hi <= v.len(),
    ensures
        r == span(v@, k, want, i as int, hi as int),
        i <= r <= hi,
{
    let mut j = i;
    while j < hi
        invariant
            i <= j <= hi <= v.len(),
            span(v@, k, want, i as int, hi as int) == span(v@, k, want, j as int, hi as int),
        decreases hi - j,
    {
        if char_in_class(v[j], k) == want {
            return j;
        }
        j = j + 1;
    }
    j
}

/// See [`find_class`].
pub fn scan_class(v: &Vec<char>, k: CharClass, i: usize, hi: usize) -> (r: usize)
    requires
        i <= hi <= v.len(),
    ensures
        r == find_class(v@, k, i as int, hi as int),
        i <= r <= hi,
{
    span_class(v, k, true, i, hi)
}

/// See [`skip`].
pub fn skip_class(v: &Vec<char>, k: CharClass, i: usize, hi: usize) -> (r: usize)
    requires
        i <= hi <= v.len(),
    ensures
        r == skip(v@, k, i as int, hi as int),
        i <= r <= hi,
{
    span_class(v, k, false, i, hi)
}

/// See [`back`].
pub fn back_class(v: &Vec<char>, k: CharClass, lo: usize, j: usize) -> (r: usize)
    requires
        lo <= j <= v.len(),
    ensures
        r == back(v@, k, lo as int, j as int),
        lo <= r <= j,
{
    let mut e = j;
    while e > lo
        invariant
            lo <= e <= j <= v.len(),
            back(v@, k, lo as int, j as int) == back(v@, k, lo as int, e as int),
        decreases e,
    {
        if !char_in_class(v[e - 1], k) {
            return e;
        }
        e = e - 1;
    }
    e
}

/// Is `pat` at `v[i..]`?  (The caller guarantees it fits before `hi`.)
fn matches_here(v: &Vec<char>, pat: &Vec<char>, i: usize, hi: usize) -> (b: bool)
    requires
        i + pat.len() <= hi <= v.len(),
    ensures
        b == matches_at(v@, pat@, i as int, hi as int),
{
    let mut k: usize = 0;
    while k < pat.len()
        invariant
            i + pat.len() <= hi <= v.len(),
            k <= pat.len(),
            forall|m: int| 0 <= m < k ==> v@[i + m] == pat@[m],
        decreases pat.len() - k,
    {
        if v[i + k] != pat[k] {
            proof {
                assert(v@.subrange(i as int, i + pat.len())[k as int] != pat@[k as int]);
            }
            return false;
        }
        k = k + 1;
    }
    proof {
        assert(v@.subrange(i as int, i + pat.len()) =~= pat@);
    }
    true
}

/// See [`find_seq`].
pub fn find_seq_in(v: &Vec<char>, pat: &Vec<char>, i: usize, hi: usize) -> (r: Option<usize>)
    requires
        i <= hi <= v.len(),
    ensures
        r matches Some(x) ==> find_seq(v@, pat@, i as int, hi as int) == Some(x as int),
        r is None ==> find_seq(v@, pat@, i as int, hi as int) is None,
{
    if pat.len() > hi - i {
        return None;
    }
    let last = hi - pat.len();
    let mut j = i;
    while j <= last
        invariant
            i <= j,
            last + pat.len() == hi,
            hi <= v.len(),
            j <= last + 1,
            find_seq(v@, pat@, i as int, hi as int) == find_seq(v@, pat@, j as int, hi as int),
        decreases last + 1 - j,
    {
        if matches_here(v, pat, j, hi) {
            return Some(j);
        }
        if j == last {
            return None;
        }
        j = j + 1;
    }
    None
}

/// See [`rfind_char`].
pub fn rfind_char_in(v: &Vec<char>, c: char, j: usize) -> (r: Option<usize>)
    requires
        j <= v.len(),
    ensures
        r matches Some(x) ==> rfind_char(v@, c, j as int) == Some(x as int) && x < j,
        r is None ==> rfind_char(v@, c, j as int) is None,
{
    let mut e = j;
    while e > 0
        invariant
            e <= j <= v.len(),
            rfind_char(v@, c, j as int) == rfind_char(v@, c, e as int),
        decreases e,
    {
        if v[e - 1] == c {
            return Some(e - 1);
        }
        e = e - 1;
    }
    None
}

proof fn lemma_digits_value_nonneg(s: Seq<char>, lo: int, hi: int)
    requires
        all_digits(s, lo, hi),
    ensures
        digits_value(s, lo, hi) >= 0,
    decreases hi - lo,
{
    if hi > lo {
        lemma_digits_value_nonneg(s, lo, hi - 1);
    }
}

/// Once a prefix of the digits exceeds `max`, so does the whole number.
proof fn lemma_digits_value_grows(s: Seq<char>, lo: int, mid: int, hi: int)
    requires
        lo <= mid <= hi,
        all_digits(s, lo, hi),
    ensures
        digits_value(s, lo, mid) <= digits_value(s, lo, hi),
    decreases hi - mid,
{
    if mid < hi {
        lemma_digits_value_grows(s, lo, mid, hi - 1);
        lemma_digits_value_nonneg(s, lo, hi - 1);
    }
}

/// See [`parse_uint`]; `max` is the largest value of the target type.
pub fn parse_uint_in(v: &Vec<char>, lo: usize, hi: usize, max: u64) -> (r: Option<u64>)
    requires
        lo <= hi <= v.len(),
    ensures
        r matches Some(x) ==> parse_uint(v@, lo as int, hi as int, max as int) == Some(x as int),
        r is None ==> parse_uint(v@, lo as int, hi as int, max as int) is None,
{
    let d = if lo < hi && v[lo] == '+' {
        lo + 1
    } else {
        lo
    };
    if d >= hi {
        return None;
    }
    let mut acc: u64 = 0;
    let mut i = d;
    while i < hi
        invariant
            d <= i <= hi <= v.len(),
            d < hi,
            d as int == (if lo < hi && v@[lo as int] == '+' { lo + 1 } else { lo as int }),
            all_digits(v@, d as int, i as int),
            acc == digits_value(v@, d as int, i as int),
            acc <= max,
        decreases hi - i,
    {
        let c = v[i];
        if !('0' <= c && c <= '9') {
            proof {
                assert(!is_digit(v@[i as int]));
                assert(!all_digits(v@, d as int, hi as int));
            }
            return None;
        }
        let dv = (c as u32 - '0' as u32) as u64;
        assert(dv == digit_value(v@[i as int]));
        if dv > max || acc > (max - dv) / 10 {
            proof {
                assert(all_digits(v@, d as int, i + 1));
                assert(digits_value(v@, d as int, i + 1) == acc * 10 + dv);
                assert(acc * 10 + dv > max) by (nonlinear_arith)
                    requires
                        dv > max || acc > (max - dv) / 10,
                        acc >= 0,
                ;
                // Any further digits only make the number larger.
                if all_digits(v@, d as int, hi as int) {
                    lemma_digits_value_grows(v@, d as int, i + 1, hi as int);
                    assert(digits_value(v@, d as int, hi as int) > max);
                }
            }
            return None;
        }
        assert(acc * 10 + dv <= max) by (nonlinear_arith)
            requires
                acc <= (max - dv) / 10,
                dv <= max,
        ;
        acc = acc * 10 + dv;
        i = i + 1;
    }
    Some(acc)
}

/// Appends the decimal spelling of `n`.
pub fn push_decimal(s: &mut String, n: u64)
    ensures
        final(s)@ == old(s)@ + decimal(n as nat),
    decreases n,
{
    if n >= 10 {
        push_decimal(s, n / 10);
    }
    s.push(digit_char(n % 10));
    proof {
        if n >= 10 {
            assert(decimal(n as nat) == decimal((n / 10) as nat).push((('0' as u32) + (n % 10) as nat) as char));
        }
    }
}

/// The character for the hexadecimal digit `d` (lowercase letters).
pub fn digit_char(d: u64) -> (c: char)
    requires
        d < 16,
    ensures
        c == hex_char(d as nat),
{
    match d {
        0 => '0',
        1 => '1',
        2 => '2',
        3 => '3',
        4 => '4',
        5 => '5',
        6 => '6',
        7 => '7',
        8 => '8',
        9 => '9',
        10 => 'a',
        11 => 'b',
        12 => 'c',
        13 => 'd',
        14 => 'e',
        _ => 'f',
    }
}

/// Appends the low `width` hexadecimal digits of `n`, zero-padded.
pub fn push_hex(s: &mut String, n: u64, width: u64)
    ensures
        final(s)@ == old(s)@ + hex_digits(n as nat, width as nat),
    decreases width,
{
    if width == 0 {
        assert(old(s)@ + hex_digits(n as nat, 0) =~= old(s)@);
        return;
    }
    push_hex(s, n / 16, width - 1);
    s.push(digit_char(n % 16));
    proof {
        assert(hex_digits(n as nat, width as nat) == hex_digits((n / 16) as nat, (width - 1) as nat).push(hex_char((n % 16) as nat)));
    }
}


/// Do `a` and `b` hold the same characters?
pub fn str_eq(a: &str, b: &str) -> (r: bool)
    ensures
        r == (a@ == b@),
{
    let va = chars_of(a);
    let vb = chars_of(b);
    if va.len() != vb.len() {
        assert(va@.len() != vb@.len());
        return false;
    }
    let mut i: usize = 0;
    while i < va.len()
        invariant
            va@ == a@,
            vb@ == b@,
            va.len() == vb.len(),
            i <= va.len(),
            forall|m: int| 0 <= m < i ==> va@[m] == vb@[m],
        decreases va.len() - i,
    {
        if va[i] != vb[i] {
            return false;
        }
        i = i + 1;
    }
    assert(va@ =~= vb@);
    true
}

/// `s` with leading and trailing whitespace removed, as `str::trim` does.
pub open spec fn trimmed(s: Seq<char>) -> Seq<char> {
    let b = skip(s, CharClass::Whitespace, 0, s.len() as int);
    s.subrange(b, back(s, CharClass::Whitespace, b, s.len() as int))
}

/// `str::trim` into a new `String`.
pub fn trim_to_string(s: &str) -> (r: String)
    ensures
        r@ == trimmed(s@),
{
    let v = chars_of(s);
    let b = skip_class(&v, CharClass::Whitespace, 0, v.len());
    let e = back_class(&v, CharClass::Whitespace, b, v.len());
    string_of_range(&v, b, e)
}

/// A `String` holding `s`.
pub fn string_from(s: &str) -> (r: String)
    ensures
        r@ == s@,
{
    let mut r = String::new();
    push_str(&mut r, s);
    assert(Seq::<char>::empty() + s@ =~= s@);
    r
}

} // verus!
