//! Pure parsers for system command output.
//!
//! Every parser returns `Option`, so a missing or malformed field is never
//! silently read as zero.

use crate::text::{
    back, back_class, chars_of, find_seq, find_seq_in, parse_uint, parse_uint_in, rfind_char,
    rfind_char_in, find_class, scan_class, skip, skip_class, CharClass,
};
use crate::text::lemma_find_seq_fits;
use vstd::prelude::*;

verus! {

/// What one line contributes to [`parse_labeled_number`].
pub enum LineVerdict {
    /// The key was found and followed by a number.
    Found(u64),
    /// The key is absent, or nothing or no number follows it: keep looking.
    Continue,
}

/// The verdict for the line `s[lo..hi]`: find `key`, drop the colons and
/// surrounding whitespace after it, take the first whitespace-separated
/// token, drop its trailing dots and read it as a `u64`.
pub open spec fn labeled_line(s: Seq<char>, key: Seq<char>, lo: int, hi: int) -> LineVerdict {
    match find_seq(s, key, lo, hi) {
        None => LineVerdict::Continue,
        Some(idx) => {
            let a = skip(s, CharClass::Exactly(':'), idx + key.len(), hi);
            let b = skip(s, CharClass::Whitespace, a, hi);
            let e = back(s, CharClass::Whitespace, b, hi);
            if b >= e {
                LineVerdict::Continue
            } else {
                let te = find_class(s, CharClass::Whitespace, b, e);
                let tend = back(s, CharClass::Exactly('.'), b, te);
                match parse_uint(s, b, tend, u64::MAX as int) {
                    Some(n) => LineVerdict::Found(n as u64),
                    None => LineVerdict::Continue,
                }
            }
        },
    }
}

/// End of the line starting at `start` (before its `\n`, and before a `\r`
/// that precedes that `\n`), as `str::lines` cuts it.
pub open spec fn line_end(s: Seq<char>, start: int) -> int {
    let nl = find_class(s, CharClass::Exactly('\n'), start, s.len() as int);
    if nl < s.len() && nl > start && s[nl - 1] == '\r' {
        nl - 1
    } else {
        nl
    }
}

/// [`parse_labeled_number`] over the lines that begin at or after `start`.
pub open spec fn labeled_from(s: Seq<char>, key: Seq<char>, start: int) -> Option<u64>
    decreases s.len() - start,
{
    if start < 0 || start >= s.len() {
        None
    } else {
        let nl = find_class(s, CharClass::Exactly('\n'), start, s.len() as int);
        match labeled_line(s, key, start, line_end(s, start)) {
            LineVerdict::Found(n) => Some(n),
            LineVerdict::Continue => if nl < start || nl >= s.len() {
                None
            } else {
                labeled_from(s, key, nl + 1)
            },
        }
    }
}

/// The value [`parse_labeled_number`] returns for `text` and `key`.
pub open spec fn labeled_number(text: Seq<char>, key: Seq<char>) -> Option<u64> {
    labeled_from(text, key, 0)
}

/// The verdict of one line, computed.
fn labeled_line_exec(v: &Vec<char>, key: &Vec<char>, lo: usize, hi: usize) -> (r: LineVerdict)
    requires
        lo <= hi <= v.len(),
    ensures
        r == labeled_line(v@, key@, lo as int, hi as int),
{
    match find_seq_in(v, key, lo, hi) {
        None => LineVerdict::Continue,
        Some(idx) => {
            proof {
                lemma_find_seq_fits(v@, key@, lo as int, hi as int);
            }
            let a = skip_class(v, CharClass::Exactly(':'), idx + key.len(), hi);
            let b = skip_class(v, CharClass::Whitespace, a, hi);
            let e = back_class(v, CharClass::Whitespace, b, hi);
            if b >= e {
                LineVerdict::Continue
            } else {
                let te = scan_class(v, CharClass::Whitespace, b, e);
                let tend = back_class(v, CharClass::Exactly('.'), b, te);
                match parse_uint_in(v, b, tend, u64::MAX) {
                    Some(n) => LineVerdict::Found(n),
                    None => LineVerdict::Continue,
                }
            }
        },
    }
}

/// Extract the numeric value that follows a `key:` label in
/// `memory_pressure` / `vm_stat`-style output.  The value may appear after a
/// variable number of words ("Pages wired down: 12345."), so the key is
/// located and the first token after it is read, with a trailing '.' removed.
///
/// Returns `None` if the key is absent or the value is not a number.
pub fn parse_labeled_number(text: &str, key: &str) -> (r: Option<u64>)
    ensures
        r == labeled_number(text@, key@),
{
    let v = chars_of(text);
    let k = chars_of(key);
    parse_labeled_number_chars(&v, &k)
}

/// [`parse_labeled_number`] over characters.
pub fn parse_labeled_number_chars(v: &Vec<char>, key: &Vec<char>) -> (r: Option<u64>)
    ensures
        r == labeled_number(v@, key@),
{
    let n = v.len();
    let mut start: usize = 0;
    while start < n
        invariant
            n == v.len(),
            start <= n,
            labeled_number(v@, key@) == labeled_from(v@, key@, start as int),
        decreases n - start,
    {
        let nl = scan_class(v, CharClass::Exactly('\n'), start, n);
        let end = if nl < n && nl > start && v[nl - 1] == '\r' {
            nl - 1
        } else {
            nl
        };
        assert(end == line_end(v@, start as int));
        match labeled_line_exec(v, key, start, end) {
            LineVerdict::Found(x) => {
                return Some(x);
            },
            LineVerdict::Continue => {},
        }
        if nl == n {
            return None;
        }
        start = nl + 1;
    }
    None
}

/// What one `key = value` entry contributes to [`parse_ioreg_stat`].
pub enum EntryVerdict {
    /// The entry's key is `key`; this is its parsed value.
    Matched(Option<u64>),
    /// Another key: keep looking.
    Other,
    /// No `=` in the entry: the parse ends without a value.
    Malformed,
}

/// The verdict for the entry `s[p..q]`: its key is the text before the first
/// `=`, trimmed, with surrounding `"` removed; its value is the text after
/// that `=`, trimmed, with trailing `}` removed, read as a `u64`.
pub open spec fn ioreg_entry(s: Seq<char>, key: Seq<char>, p: int, q: int) -> EntryVerdict {
    let eq = find_class(s, CharClass::Exactly('='), p, q);
    if eq >= q {
        EntryVerdict::Malformed
    } else {
        let kb0 = skip(s, CharClass::Whitespace, p, eq);
        let ke0 = back(s, CharClass::Whitespace, kb0, eq);
        let kb = skip(s, CharClass::Exactly('"'), kb0, ke0);
        let ke = back(s, CharClass::Exactly('"'), kb, ke0);
        if s.subrange(kb, ke) == key {
            let vb = skip(s, CharClass::Whitespace, eq + 1, q);
            let ve0 = back(s, CharClass::Whitespace, vb, q);
            let ve = back(s, CharClass::Exactly('}'), vb, ve0);
            EntryVerdict::Matched(
                match parse_uint(s, vb, ve, u64::MAX as int) {
                    Some(n) => Some(n as u64),
                    None => None,
                },
            )
        } else {
            EntryVerdict::Other
        }
    }
}

/// [`parse_ioreg_stat`] over the comma-separated entries from `p` to `end`.
pub open spec fn ioreg_entries(s: Seq<char>, key: Seq<char>, p: int, end: int) -> Option<u64>
    decreases end - p + 1,
{
    if p < 0 || p > end {
        None
    } else {
        let q = find_class(s, CharClass::Exactly(','), p, end);
        match ioreg_entry(s, key, p, q) {
            EntryVerdict::Matched(r) => r,
            EntryVerdict::Malformed => None,
            EntryVerdict::Other => if q >= end || q < p {
                None
            } else {
                ioreg_entries(s, key, q + 1, end)
            },
        }
    }
}

/// First index of `c` in `s`.
pub open spec fn find_char(s: Seq<char>, c: char) -> Option<int> {
    find_seq(s, seq![c], 0, s.len() as int)
}

/// The value [`parse_ioreg_stat`] returns: the entries between the first
/// `{` and the last `}`; `None` when a brace is missing or the last `}`
/// comes before the first `{`.
pub open spec fn ioreg_stat(s: Seq<char>, key: Seq<char>) -> Option<u64> {
    match (find_char(s, '{'), rfind_char(s, '}', s.len() as int)) {
        (Some(st), Some(en)) => ioreg_entries(s, key, st + 1, en),
        _ => None,
    }
}

/// Parse one `"key" = value` entry from an ioreg PerformanceStatistics
/// block.  Keys are matched exactly (after trimming quotes), so that
/// "In use system memory (driver)" does not match "In use system memory".
///
/// The block may include the leading `"PerformanceStatistics" = {` prefix
/// and trailing `}`; the outer braces are stripped before splitting entries.
pub fn parse_ioreg_stat(block: &str, exact_key: &str) -> (r: Option<u64>)
    ensures
        r == ioreg_stat(block@, exact_key@),
{
    let v = chars_of(block);
    let k = chars_of(exact_key);
    parse_ioreg_stat_chars(&v, &k)
}

/// [`parse_ioreg_stat`] over characters.
pub fn parse_ioreg_stat_chars(v: &Vec<char>, key: &Vec<char>) -> (r: Option<u64>)
    ensures
        r == ioreg_stat(v@, key@),
{
    let open = vec!['{'];
    assert(open@ == seq!['{']);
    let start = match find_seq_in(v, &open, 0, v.len()) {
        Some(x) => x,
        None => {
            return None;
        },
    };
    let end = match rfind_char_in(v, '}', v.len()) {
        Some(x) => x,
        None => {
            return None;
        },
    };
    if end <= start {
        return None;
    }
    let mut p = start + 1;
    while p <= end
        invariant
            p <= end + 1,
            end < v.len(),
            ioreg_stat(v@, key@) == ioreg_entries(v@, key@, p as int, end as int),
        decreases end + 1 - p,
    {
        let q = scan_class(v, CharClass::Exactly(','), p, end);
        match ioreg_entry_exec(v, key, p, q) {
            EntryVerdict::Matched(r) => {
                return r;
            },
            EntryVerdict::Malformed => {
                return None;
            },
            EntryVerdict::Other => {},
        }
        if q >= end {
            return None;
        }
        p = q + 1;
    }
    None
}

fn same_chars(v: &Vec<char>, lo: usize, hi: usize, key: &Vec<char>) -> (b: bool)
    requires
        lo <= hi <= v.len(),
    ensures
        b == (v@.subrange(lo as int, hi as int) == key@),
{
    if hi - lo != key.len() {
        assert(v@.subrange(lo as int, hi as int).len() != key@.len());
        return false;
    }
    let mut i: usize = 0;
    while i < key.len()
        invariant
            lo <= hi <= v.len(),
            hi - lo == key.len(),
            i <= key.len(),
            forall|m: int| 0 <= m < i ==> v@[lo + m] == key@[m],
        decreases key.len() - i,
    {
        if v[lo + i] != key[i] {
            assert(v@.subrange(lo as int, hi as int)[i as int] != key@[i as int]);
            return false;
        }
        i = i + 1;
    }
    assert(v@.subrange(lo as int, hi as int) =~= key@);
    true
}

fn ioreg_entry_exec(v: &Vec<char>, key: &Vec<char>, p: usize, q: usize) -> (r: EntryVerdict)
    requires
        p <= q <= v.len(),
    ensures
        r == ioreg_entry(v@, key@, p as int, q as int),
{
    let eq = scan_class(v, CharClass::Exactly('='), p, q);
    if eq >= q {
        return EntryVerdict::Malformed;
    }
    let kb0 = skip_class(v, CharClass::Whitespace, p, eq);
    let ke0 = back_class(v, CharClass::Whitespace, kb0, eq);
    let kb = skip_class(v, CharClass::Exactly('"'), kb0, ke0);
    let ke = back_class(v, CharClass::Exactly('"'), kb, ke0);
    if same_chars(v, kb, ke, key) {
        let vb = skip_class(v, CharClass::Whitespace, eq + 1, q);
        let ve0 = back_class(v, CharClass::Whitespace, vb, q);
        let ve = back_class(v, CharClass::Exactly('}'), vb, ve0);
        EntryVerdict::Matched(parse_uint_in(v, vb, ve, u64::MAX))
    } else {
        EntryVerdict::Other
    }
}

} // verus!
