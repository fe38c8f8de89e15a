//! Decisions and derivations of the collection scheduler.
//!
//! One scheduler samples hardware on a fixed cadence and caches the latest
//! snapshot.  The commands it runs, the clock and the floating-point
//! readings stay with the caller; this module owns what is computed from
//! the command output (memory figures, GPU statistics, disk lists, history
//! rows) and the cadence arithmetic.

use crate::cmd::{utf8_lossy, CmdOutput};
use crate::json_doc::{
    element, element_of, json_of, json_text, member, member_of, parse_json, present, text_of,
    JsonValue,
};
use crate::parse::{line_end, ioreg_stat, parse_ioreg_stat_chars, parse_labeled_number_chars, labeled_number};
use crate::settings::Settings;
use crate::storage::PhysicalDisk;
use crate::text::{
    back, back_class, chars_of, find_seq, find_seq_in, matches_at, parse_uint, parse_uint_in,
    find_class, scan_class, skip, skip_class, string_from, push_str, CharClass, trimmed,
};
use vstd::prelude::*;

verus! {

/// Scheduler state shared with the window: whether it is visible.
pub struct SchedulerState {
    pub window_visible: bool,
}

impl SchedulerState {
    /// The window starts visible, so sampling starts at the foreground cadence.
    pub fn new() -> (s: Self)
        ensures
            s.window_visible,
    {
        SchedulerState { window_visible: true }
    }
}

/// Record whether the main window is visible (foreground cadence) or not.
pub fn set_window_visible(state: &mut SchedulerState, visible: bool)
    ensures
        final(state).window_visible == visible,
{
    state.window_visible = visible;
}

/// The sampling interval in milliseconds: foreground while the window is
/// visible, background otherwise.
pub fn cadence_interval_ms(settings: &Settings, visible: bool) -> (ms: u64)
    ensures
        ms == if visible {
            settings.foreground_interval_ms
        } else {
            settings.background_interval_ms
        },
{
    if visible {
        settings.foreground_interval_ms
    } else {
        settings.background_interval_ms
    }
}

/// How long to sleep after a pass, in nanoseconds.  Scheduling is anchored
/// to the next deadline: a slow pass shortens the following sleep, an
/// overrun starts the next pass at once, and a pass that could not run at
/// all (`!lock_ok`) waits a plain interval.
pub fn remaining_sleep_nanos(interval_nanos: u128, elapsed_nanos: u128, lock_ok: bool) -> (r: u128)
    ensures
        r == if !lock_ok {
            interval_nanos
        } else if elapsed_nanos < interval_nanos {
            (interval_nanos - elapsed_nanos) as u128
        } else {
            0
        },
        r <= interval_nanos,
        lock_ok && elapsed_nanos < interval_nanos ==> elapsed_nanos + r == interval_nanos,
{
    if !lock_ok {
        interval_nanos
    } else if elapsed_nanos < interval_nanos {
        interval_nanos - elapsed_nanos
    } else {
        0
    }
}

/// What `read_sysctl_u32` returns for a finished `sysctl -n` run: the
/// trimmed output read as a `u32`, when the command ran and succeeded.
pub open spec fn sysctl_u32(out: Result<CmdOutput, String>) -> Option<u32> {
    match out {
        Ok(o) => if o.status_success {
            let s = utf8_lossy(o.stdout@);
            let b = skip(s, CharClass::Whitespace, 0, s.len() as int);
            let e = back(s, CharClass::Whitespace, b, s.len() as int);
            match parse_uint(s, b, e, u32::MAX as int) {
                Some(n) => Some(n as u32),
                None => None,
            }
        } else {
            None
        },
        Err(_) => None,
    }
}

/// `String::from_utf8_lossy` of `bytes` as characters.
fn lossy_chars(bytes: &Vec<u8>) -> (v: Vec<char>)
    ensures
        v@ == utf8_lossy(bytes@),
{
    let s = crate::cmd::from_utf8_lossy(bytes.as_slice());
    chars_of(s.as_str())
}

/// The value of a `sysctl -n <key>` run read as a `u32`; `None` when the
/// command failed to run, exited non-zero, or printed something else.
pub fn read_sysctl_u32(out: Result<CmdOutput, String>) -> (r: Option<u32>)
    ensures
        r == sysctl_u32(out),
{
    match out {
        Ok(o) => {
            if !o.status_success {
                return None;
            }
            let v = lossy_chars(&o.stdout);
            let b = skip_class(&v, CharClass::Whitespace, 0, v.len());
            let e = back_class(&v, CharClass::Whitespace, b, v.len());
            match parse_uint_in(&v, b, e, u32::MAX as u64) {
                Some(n) => Some(n as u32),
                None => None,
            }
        },
        Err(_) => None,
    }
}

/// What `read_sysctl_text` returns for a finished `sysctl -n` run: the
/// trimmed output, when the command ran and succeeded.
pub open spec fn sysctl_text(out: Result<CmdOutput, String>) -> Option<Seq<char>> {
    match out {
        Ok(o) => if o.status_success {
            Some(trimmed(utf8_lossy(o.stdout@)))
        } else {
            None
        },
        Err(_) => None,
    }
}

/// The value of a `sysctl -n <key>` run as trimmed text; `None` when the
/// command failed to run or exited non-zero.
pub fn read_sysctl_text(out: Result<CmdOutput, String>) -> (r: Option<String>)
    ensures
        match sysctl_text(out) {
            Some(t) => r matches Some(s) && s@ == t,
            None => r is None,
        },
{
    match out {
        Ok(o) => {
            if !o.status_success {
                return None;
            }
            let s = crate::cmd::from_utf8_lossy(o.stdout.as_slice());
            Some(crate::text::trim_to_string(s.as_str()))
        },
        Err(_) => None,
    }
}

/// The page size to use: the reported one when positive, else 16384.
pub fn effective_page_size(reported: Option<u32>) -> (p: u64)
    ensures
        p == match reported {
            Some(x) => if x > 0 {
                x as u64
            } else {
                16384
            },
            None => 16384,
        },
{
    match reported {
        Some(x) => if x > 0 {
            x as u64
        } else {
            16384
        },
        None => 16384,
    }
}

/// What the `hw.memsize` query yields: its output trimmed and read as a
/// `u64`, which must not be zero.
pub open spec fn memsize_result(out: Result<String, String>) -> Result<u64, Seq<char>> {
    match out {
        Err(e) => Err(e@),
        Ok(s) => {
            let b = skip(s@, CharClass::Whitespace, 0, s@.len() as int);
            let e = back(s@, CharClass::Whitespace, b, s@.len() as int);
            match parse_uint(s@, b, e, u64::MAX as int) {
                None => Err("hw.memsize not a number"@),
                Some(n) => if n == 0 {
                    Err("hw.memsize is zero"@)
                } else {
                    Ok(n as u64)
                },
            }
        },
    }
}

/// Total memory from the `sysctl -n hw.memsize` output (or its error).
pub fn parse_memsize(out: Result<String, String>) -> (r: Result<u64, String>)
    ensures
        match (r, memsize_result(out)) {
            (Ok(a), Ok(b)) => a == b,
            (Err(a), Err(b)) => a@ == b,
            _ => false,
        },
{
    match out {
        Err(e) => Err(e),
        Ok(s) => {
            let v = chars_of(s.as_str());
            let b = skip_class(&v, CharClass::Whitespace, 0, v.len());
            let e = back_class(&v, CharClass::Whitespace, b, v.len());
            match parse_uint_in(&v, b, e, u64::MAX) {
                None => Err(string_from("hw.memsize not a number")),
                Some(n) => if n == 0 {
                    Err(string_from("hw.memsize is zero"))
                } else {
                    Ok(n)
                },
            }
        },
    }
}

/// Page counts read from `memory_pressure`.
pub struct PageCounts {
    pub free: u64,
    pub active: u64,
    pub inactive: u64,
    pub wired: u64,
    pub compressor: u64,
    pub speculative: u64,
    pub purgeable: u64,
}

/// The labels read, in the order they are looked up.
pub open spec fn page_labels() -> Seq<Seq<char>> {
    seq![
        "Pages free:"@,
        "Pages active:"@,
        "Pages inactive:"@,
        "Pages wired down:"@,
        "Pages used by compressor:"@,
        "Pages speculative:"@,
        "Pages purgeable:"@,
    ]
}

/// The error for a missing label.
pub open spec fn missing_label_error(key: Seq<char>) -> Seq<char> {
    "memory_pressure missing '"@ + key + "'"@
}

pub open spec fn counts_seq(c: PageCounts) -> Seq<u64> {
    seq![c.free, c.active, c.inactive, c.wired, c.compressor, c.speculative, c.purgeable]
}

fn count_for(v: &Vec<char>, key: &str) -> (r: Result<u64, String>)
    ensures
        match r {
            Ok(n) => labeled_number(v@, key@) == Some(n),
            Err(e) => labeled_number(v@, key@) is None && e@ == missing_label_error(key@),
        },
{
    let k = chars_of(key);
    match parse_labeled_number_chars(v, &k) {
        Some(n) => Ok(n),
        None => {
            let mut e = string_from("memory_pressure missing '");
            push_str(&mut e, key);
            push_str(&mut e, "'");
            Err(e)
        },
    }
}

/// The seven page counts from `memory_pressure` output; the first label
/// (in [`page_labels`] order) that is missing is reported.
pub fn page_counts(text: &str) -> (r: Result<PageCounts, String>)
    ensures
        match r {
            Ok(c) => forall|i: int|
                0 <= i < 7 ==> labeled_number(text@, #[trigger] page_labels()[i]) == Some(
                    counts_seq(c)[i],
                ),
            Err(e) => exists|i: int|
                0 <= i < 7 && labeled_number(text@, #[trigger] page_labels()[i]) is None
                    && e@ == missing_label_error(page_labels()[i]) && forall|j: int|
                    0 <= j < i ==> labeled_number(text@, #[trigger] page_labels()[j]) is Some,
        },
{
    let v = chars_of(text);
    let free = match count_for(&v, "Pages free:") {
        Ok(n) => n,
        Err(e) => {
            assert(labeled_number(text@, page_labels()[0]) is None);
            return Err(e);
        },
    };
    let active = match count_for(&v, "Pages active:") {
        Ok(n) => n,
        Err(e) => {
            assert(labeled_number(text@, page_labels()[1]) is None);
            assert(labeled_number(text@, page_labels()[0]) is Some);
            return Err(e);
        },
    };
    let inactive = match count_for(&v, "Pages inactive:") {
        Ok(n) => n,
        Err(e) => {
            assert(labeled_number(text@, page_labels()[2]) is None);
            assert(labeled_number(text@, page_labels()[0]) is Some);
            assert(labeled_number(text@, page_labels()[1]) is Some);
            return Err(e);
        },
    };
    let wired = match count_for(&v, "Pages wired down:") {
        Ok(n) => n,
        Err(e) => {
            assert(labeled_number(text@, page_labels()[3]) is None);
            assert(labeled_number(text@, page_labels()[0]) is Some);
            assert(labeled_number(text@, page_labels()[1]) is Some);
            assert(labeled_number(text@, page_labels()[2]) is Some);
            return Err(e);
        },
    };
    let compressor = match count_for(&v, "Pages used by compressor:") {
        Ok(n) => n,
        Err(e) => {
            assert(labeled_number(text@, page_labels()[4]) is None);
            assert(labeled_number(text@, page_labels()[0]) is Some);
            assert(labeled_number(text@, page_labels()[1]) is Some);
            assert(labeled_number(text@, page_labels()[2]) is Some);
            assert(labeled_number(text@, page_labels()[3]) is Some);
            return Err(e);
        },
    };
    let speculative = match count_for(&v, "Pages speculative:") {
        Ok(n) => n,
        Err(e) => {
            assert(labeled_number(text@, page_labels()[5]) is None);
            assert(labeled_number(text@, page_labels()[0]) is Some);
            assert(labeled_number(text@, page_labels()[1]) is Some);
            assert(labeled_number(text@, page_labels()[2]) is Some);
            assert(labeled_number(text@, page_labels()[3]) is Some);
            assert(labeled_number(text@, page_labels()[4]) is Some);
            return Err(e);
        },
    };
    let purgeable = match count_for(&v, "Pages purgeable:") {
        Ok(n) => n,
        Err(e) => {
            assert(labeled_number(text@, page_labels()[6]) is None);
            assert(labeled_number(text@, page_labels()[0]) is Some);
            assert(labeled_number(text@, page_labels()[1]) is Some);
            assert(labeled_number(text@, page_labels()[2]) is Some);
            assert(labeled_number(text@, page_labels()[3]) is Some);
            assert(labeled_number(text@, page_labels()[4]) is Some);
            assert(labeled_number(text@, page_labels()[5]) is Some);
            return Err(e);
        },
    };
    let c = PageCounts { free, active, inactive, wired, compressor, speculative, purgeable };
    assert(counts_seq(c)[0] == free);
    Ok(c)
}

/// Memory figures in bytes.
pub struct MemoryFigures {
    pub total_bytes: u64,
    pub used_bytes: u64,
    pub available_bytes: u64,
}

/// Used memory is active + wired + compressed pages; available memory is
/// free + inactive + speculative + purgeable pages.
pub open spec fn used_bytes_of(c: PageCounts, page: u64) -> int {
    c.active * page + c.wired * page + c.compressor * page
}

pub open spec fn available_bytes_of(c: PageCounts, page: u64) -> int {
    c.free * page + c.inactive * page + c.speculative * page + c.purgeable * page
}

/// Does every product and sum in [`memory_figures`] fit in a `u64`?
pub open spec fn memory_fits(c: PageCounts, page: u64) -> bool {
    &&& forall|i: int| 0 <= i < 7 ==> #[trigger] counts_seq(c)[i] * page <= u64::MAX
    &&& used_bytes_of(c, page) <= u64::MAX
    &&& available_bytes_of(c, page) <= u64::MAX
}

/// Memory figures are refused only for overflow: they are given exactly
/// when each page count times the page size, the used pages (active, wired,
/// compressed) times the page size and the available pages (free,
/// inactive, speculative, purgeable) times the page size all fit in a
/// `u64`, and then used and available memory are those two products.
pub proof fn law_memory_figures_fail_only_on_overflow(c: PageCounts, page: u64)
    ensures
        memory_fits(c, page) <==> {
            &&& c.free * page <= u64::MAX
            &&& c.active * page <= u64::MAX
            &&& c.inactive * page <= u64::MAX
            &&& c.wired * page <= u64::MAX
            &&& c.compressor * page <= u64::MAX
            &&& c.speculative * page <= u64::MAX
            &&& c.purgeable * page <= u64::MAX
            &&& (c.active + c.wired + c.compressor) * page <= u64::MAX
            &&& (c.free + c.inactive + c.speculative + c.purgeable) * page <= u64::MAX
        },
        used_bytes_of(c, page) == (c.active + c.wired + c.compressor) * page,
        available_bytes_of(c, page) == (c.free + c.inactive + c.speculative + c.purgeable) * page,
{
    assert((c.active + c.wired + c.compressor) * page == c.active * page + c.wired * page
        + c.compressor * page) by (nonlinear_arith);
    assert((c.free + c.inactive + c.speculative + c.purgeable) * page == c.free * page + c.inactive
        * page + c.speculative * page + c.purgeable * page) by (nonlinear_arith);
    let cs = counts_seq(c);
    if c.free * page <= u64::MAX && c.active * page <= u64::MAX && c.inactive * page <= u64::MAX
        && c.wired * page <= u64::MAX && c.compressor * page <= u64::MAX && c.speculative * page
        <= u64::MAX && c.purgeable * page <= u64::MAX {
        assert forall|i: int| 0 <= i < 7 implies #[trigger] cs[i] * page <= u64::MAX by {
            if i == 0 {
                assert(cs[0] == c.free);
            } else if i == 1 {
                assert(cs[1] == c.active);
            } else if i == 2 {
                assert(cs[2] == c.inactive);
            } else if i == 3 {
                assert(cs[3] == c.wired);
            } else if i == 4 {
                assert(cs[4] == c.compressor);
            } else if i == 5 {
                assert(cs[5] == c.speculative);
            } else {
                assert(cs[6] == c.purgeable);
            }
        }
    }
    if memory_fits(c, page) {
        assert(cs[0] * page <= u64::MAX);
        assert(cs[1] * page <= u64::MAX);
        assert(cs[2] * page <= u64::MAX);
        assert(cs[3] * page <= u64::MAX);
        assert(cs[4] * page <= u64::MAX);
        assert(cs[5] * page <= u64::MAX);
        assert(cs[6] * page <= u64::MAX);
    }
}

fn mul_checked(a: u64, b: u64) -> (r: Option<u64>)
    ensures
        r matches Some(x) ==> x == a * b,
        r is None ==> a * b > u64::MAX,
{
    a.checked_mul(b)
}

fn add_checked(a: u64, b: u64) -> (r: Option<u64>)
    ensures
        r matches Some(x) ==> x == a + b,
        r is None ==> a + b > u64::MAX,
{
    a.checked_add(b)
}

/// The memory figures from the page counts and page size; `None` exactly
/// when a product or sum would overflow `u64`.
pub fn memory_figures(total_bytes: u64, page_size: u64, c: &PageCounts) -> (r: Option<MemoryFigures>)
    ensures
        match r {
            Some(m) => {
                &&& memory_fits(*c, page_size)
                &&& m.total_bytes == total_bytes
                &&& m.used_bytes == used_bytes_of(*c, page_size)
                &&& m.available_bytes == available_bytes_of(*c, page_size)
            },
            None => !memory_fits(*c, page_size),
        },
{
    let ghost cs = counts_seq(*c);
    let free = match mul_checked(c.free, page_size) { Some(x) => x, None => { assert(cs[0] * page_size > u64::MAX); return None; } };
    let active = match mul_checked(c.active, page_size) { Some(x) => x, None => { assert(cs[1] * page_size > u64::MAX); return None; } };
    let inactive = match mul_checked(c.inactive, page_size) { Some(x) => x, None => { assert(cs[2] * page_size > u64::MAX); return None; } };
    let wired = match mul_checked(c.wired, page_size) { Some(x) => x, None => { assert(cs[3] * page_size > u64::MAX); return None; } };
    let compressor = match mul_checked(c.compressor, page_size) { Some(x) => x, None => { assert(cs[4] * page_size > u64::MAX); return None; } };
    let speculative = match mul_checked(c.speculative, page_size) { Some(x) => x, None => { assert(cs[5] * page_size > u64::MAX); return None; } };
    let purgeable = match mul_checked(c.purgeable, page_size) { Some(x) => x, None => { assert(cs[6] * page_size > u64::MAX); return None; } };
    let u1 = match add_checked(active, wired) { Some(x) => x, None => { return None; } };
    let used = match add_checked(u1, compressor) { Some(x) => x, None => { return None; } };
    let a1 = match add_checked(free, inactive) { Some(x) => x, None => { return None; } };
    let a2 = match add_checked(a1, speculative) { Some(x) => x, None => { return None; } };
    let available = match add_checked(a2, purgeable) { Some(x) => x, None => { return None; } };
    Some(MemoryFigures { total_bytes, used_bytes: used, available_bytes: available })
}

/// The `_name` of the first entry of `SPDisplaysDataType` in a system
/// profiler document, when it is a string.
pub open spec fn display_name_in(doc: Option<JsonValue>) -> Option<Seq<char>> {
    json_text(member(element(member(doc, "SPDisplaysDataType"@), 0), "_name"@))
}

/// The display name a parsed system profiler document reports
/// (`doc["SPDisplaysDataType"][0]["_name"]` as a string), if any.
pub fn display_name(doc: Option<&JsonValue>) -> (r: Option<String>)
    ensures
        match display_name_in(present(doc)) {
            Some(n) => r matches Some(s) && s@ == n,
            None => r is None,
        },
{
    text_of(member_of(element_of(member_of(doc, "SPDisplaysDataType"), 0), "_name"))
}

/// The name the system profiler run reports for the first display
/// adapter, or "Unknown" when the run failed or the name is missing.
pub open spec fn gpu_name_of(out: Result<CmdOutput, String>) -> Seq<char> {
    match out {
        Ok(o) => if !o.timed_out && o.status_success {
            match display_name_in(json_of(utf8_lossy(o.stdout@))) {
                Some(n) => n,
                None => "Unknown"@,
            }
        } else {
            "Unknown"@
        },
        Err(_) => "Unknown"@,
    }
}

/// The display name found, or "Unknown".
pub fn display_name_or_unknown(found: Option<String>) -> (r: String)
    ensures
        match found {
            Some(s) => r@ == s@,
            None => r@ == "Unknown"@,
        },
{
    match found {
        Some(s) => s,
        None => string_from("Unknown"),
    }
}

/// The GPU name from `system_profiler SPDisplaysDataType -json`.
pub fn gpu_name(out: Result<CmdOutput, String>) -> (r: String)
    ensures
        r@ == gpu_name_of(out),
{
    let text = match out {
        Ok(o) => match o.to_result() {
            Ok(t) => t,
            Err(_) => {
                return display_name_or_unknown(None);
            },
        },
        Err(_) => {
            return display_name_or_unknown(None);
        },
    };
    let doc = parse_json(text.as_str());
    let found = match &doc {
        Some(d) => display_name(Some(d)),
        None => None,
    };
    display_name_or_unknown(found)
}

/// GPU statistics from the `PerformanceStatistics` block of `ioreg`.
pub struct GpuStats {
    pub utilization: u64,
    pub memory_used_bytes: u64,
    pub memory_allocated_bytes: u64,
}

/// The marker that opens the statistics block.
pub open spec fn stats_marker() -> Seq<char> {
    "\"PerformanceStatistics\" = {"@
}

/// The statistics block: from the first marker to the first `}` after it,
/// inclusive.
pub open spec fn stats_block(s: Seq<char>) -> Result<Seq<char>, Seq<char>> {
    match find_seq(s, stats_marker(), 0, s.len() as int) {
        None => Err("no PerformanceStatistics block"@),
        Some(st) => {
            let en = find_class(s, CharClass::Exactly('}'), st, s.len() as int);
            if en >= s.len() {
                Err("unterminated PerformanceStatistics block"@)
            } else {
                Ok(s.subrange(st, en + 1))
            }
        },
    }
}

/// What [`gpu_stats_from_ioreg`] returns: the three statistics from the
/// block, each one required.
pub open spec fn gpu_stats_result(s: Seq<char>) -> Result<(u64, u64, u64), Seq<char>> {
    match stats_block(s) {
        Err(e) => Err(e),
        Ok(b) => match ioreg_stat(b, "Device Utilization %"@) {
            None => Err("missing Device Utilization %"@),
            Some(u) => match ioreg_stat(b, "In use system memory"@) {
                None => Err("missing In use system memory"@),
                Some(used) => match ioreg_stat(b, "Alloc system memory"@) {
                    None => Err("missing Alloc system memory"@),
                    Some(alloc) => Ok((u, used, alloc)),
                },
            },
        },
    }
}

/// The statistics block ends at the first `}` after the marker: when the
/// marker occurs in `b` with a `}` after it, whatever text follows `b`
/// changes neither the block nor the statistics read from it.
pub proof fn law_text_after_the_block_is_ignored(b: Seq<char>, t: Seq<char>, x: int, y: int)
    requires
        matches_at(b, stats_marker(), x, b.len() as int),
        x <= y < b.len(),
        b[y] == '}',
    ensures
        stats_block(b + t) == stats_block(b),
        stats_block(b) is Ok,
        gpu_stats_result(b + t) == gpu_stats_result(b),
{
    crate::text::lemma_find_seq_reaches(b, stats_marker(), 0, x, b.len() as int);
    crate::text::lemma_find_seq_extend(b, t, stats_marker(), 0);
    let st = find_seq(b, stats_marker(), 0, b.len() as int)->0;
    crate::text::lemma_find_class_reaches(b, CharClass::Exactly('}'), st, y, b.len() as int);
    crate::text::lemma_find_class_extend(b, t, CharClass::Exactly('}'), st);
    let en = find_class(b, CharClass::Exactly('}'), st, b.len() as int);
    assert((b + t).subrange(st, en + 1) =~= b.subrange(st, en + 1));
}

/// The statistics block runs from the first occurrence of the marker to the
/// first `}` at or after it, both included: with no marker the output has
/// no block, and with no `}` after the first marker the block is
/// unterminated.
pub proof fn law_stats_block_runs_from_marker_to_first_brace(s: Seq<char>, st: int, en: int)
    ensures
        (forall|i: int| 0 <= i ==> !#[trigger] matches_at(s, stats_marker(), i, s.len() as int))
            ==> stats_block(s) == Err::<Seq<char>, Seq<char>>("no PerformanceStatistics block"@),
        ({
            &&& 0 <= st
            &&& matches_at(s, stats_marker(), st, s.len() as int)
            &&& forall|i: int| 0 <= i < st ==> !#[trigger] matches_at(s, stats_marker(), i, s.len() as int)
        }) ==> {
            &&& (st <= en < s.len() && s[en] == '}' && forall|j: int| st <= j < en ==> #[trigger] s[j]
                != '}') ==> stats_block(s) == Ok::<Seq<char>, Seq<char>>(s.subrange(st, en + 1))
            &&& (forall|j: int| st <= j < s.len() ==> #[trigger] s[j] != '}') ==> stats_block(s)
                == Err::<Seq<char>, Seq<char>>("unterminated PerformanceStatistics block"@)
        },
{
    if forall|i: int| 0 <= i ==> !#[trigger] matches_at(s, stats_marker(), i, s.len() as int) {
        crate::text::lemma_find_seq_none(s, stats_marker(), 0, s.len() as int);
    }
    if 0 <= st && matches_at(s, stats_marker(), st, s.len() as int) && forall|i: int|
        0 <= i < st ==> !#[trigger] matches_at(s, stats_marker(), i, s.len() as int) {
        crate::text::lemma_find_seq_first(s, stats_marker(), 0, st, s.len() as int);
        if st <= en < s.len() && s[en] == '}' && forall|j: int| st <= j < en ==> #[trigger] s[j] != '}' {
            crate::text::lemma_find_class_first(s, CharClass::Exactly('}'), st, en, s.len() as int);
        }
        if forall|j: int| st <= j < s.len() ==> #[trigger] s[j] != '}' {
            crate::text::lemma_find_class_first(
                s,
                CharClass::Exactly('}'),
                st,
                s.len() as int,
                s.len() as int,
            );
        }
    }
}

fn vec_range(v: &Vec<char>, lo: usize, hi: usize) -> (r: Vec<char>)
    requires
        lo <= hi <= v.len(),
    ensures
        r@ == v@.subrange(lo as int, hi as int),
{
    let mut r: Vec<char> = Vec::new();
    let mut i = lo;
    while i < hi
        invariant
            lo <= i <= hi <= v.len(),
            r@ == v@.subrange(lo as int, i as int),
        decreases hi - i,
    {
        r.push(v[i]);
        proof {
            assert(v@.subrange(lo as int, i + 1) =~= v@.subrange(lo as int, i as int).push(v@[i as int]));
        }
        i = i + 1;
    }
    r
}

/// Utilization, memory in use and memory allocated from the `ioreg -l`
/// output, or the first problem found.
pub fn gpu_stats_from_ioreg(stdout: &str) -> (r: Result<GpuStats, String>)
    ensures
        match (r, gpu_stats_result(stdout@)) {
            (Ok(g), Ok((u, used, alloc))) => g.utilization == u && g.memory_used_bytes == used
                && g.memory_allocated_bytes == alloc,
            (Err(a), Err(b)) => a@ == b,
            _ => false,
        },
{
    let v = chars_of(stdout);
    let marker = chars_of("\"PerformanceStatistics\" = {");
    let st = match find_seq_in(&v, &marker, 0, v.len()) {
        Some(x) => x,
        None => {
            return Err(string_from("no PerformanceStatistics block"));
        },
    };
    proof {
        crate::text::lemma_find_seq_fits(v@, marker@, 0, v.len() as int);
        reveal_strlit("\"PerformanceStatistics\" = {");
    }
    let en = scan_class(&v, CharClass::Exactly('}'), st, v.len());
    if en >= v.len() {
        return Err(string_from("unterminated PerformanceStatistics block"));
    }
    let block = vec_range(&v, st, en + 1);
    let k_util = chars_of("Device Utilization %");
    let utilization = match parse_ioreg_stat_chars(&block, &k_util) {
        Some(x) => x,
        None => {
            return Err(string_from("missing Device Utilization %"));
        },
    };
    let k_used = chars_of("In use system memory");
    let memory_used_bytes = match parse_ioreg_stat_chars(&block, &k_used) {
        Some(x) => x,
        None => {
            return Err(string_from("missing In use system memory"));
        },
    };
    let k_alloc = chars_of("Alloc system memory");
    let memory_allocated_bytes = match parse_ioreg_stat_chars(&block, &k_alloc) {
        Some(x) => x,
        None => {
            return Err(string_from("missing Alloc system memory"));
        },
    };
    Ok(GpuStats { utilization, memory_used_bytes, memory_allocated_bytes })
}

/// One disk of the flat disk list, derived from the storage topology.
pub struct DiskInfo {
    /// Current enumeration address (e.g. "disk0"): volatile, display only.
    pub device: String,
    /// Stable anonymous identity used as the history object id; empty until
    /// the identity registry assigns one.
    pub device_uid: String,
    /// Generation of `device_uid`.
    pub generation: u32,
    pub name: String,
    pub size_bytes: u64,
    pub smart_status: String,
    /// SMART temperature in kelvin (plausible readings only).
    pub temperature_kelvin: Option<u64>,
    pub power_on_hours: Option<u64>,
}

/// Does `d` list the physical disk `p`?
pub open spec fn lists_disk(d: DiskInfo, p: PhysicalDisk) -> bool {
    &&& d.device@ == p.device@
    &&& d.device_uid@ == match p.device_uid {
        Some(u) => u@,
        None => Seq::empty(),
    }
    &&& d.generation == p.generation
    &&& d.name@ == p.name@
    &&& d.size_bytes == p.size_bytes
    &&& d.smart_status@ == p.smart_status@
    &&& d.temperature_kelvin == p.temperature_kelvin
    &&& d.power_on_hours == p.power_on_hours
}

/// The flat disk list, one entry per physical disk of the topology, so the
/// disk list and the topology can never disagree.
pub fn disk_infos(storage: &Vec<PhysicalDisk>) -> (r: Vec<DiskInfo>)
    ensures
        r@.len() == storage@.len(),
        forall|i: int| 0 <= i < r@.len() ==> lists_disk(#[trigger] r@[i], storage@[i]),
{
    let mut r: Vec<DiskInfo> = Vec::new();
    let mut i: usize = 0;
    while i < storage.len()
        invariant
            i <= storage.len(),
            r@.len() == i,
            forall|k: int| 0 <= k < i ==> lists_disk(#[trigger] r@[k], storage@[k]),
        decreases storage.len() - i,
    {
        let p = &storage[i];
        let uid = match &p.device_uid {
            Some(u) => u.clone(),
            None => String::new(),
        };
        r.push(
            DiskInfo {
                device: p.device.clone(),
                device_uid: uid,
                generation: p.generation,
                name: p.name.clone(),
                size_bytes: p.size_bytes,
                smart_status: p.smart_status.clone(),
                temperature_kelvin: p.temperature_kelvin,
                power_on_hours: p.power_on_hours,
            },
        );
        i = i + 1;
    }
    r
}

/// Index of the first disk listed at `device`.
pub open spec fn first_disk_at(disks: Seq<DiskInfo>, device: Seq<char>, j: int) -> Option<int>
    decreases disks.len() - j,
{
    if j < 0 || j >= disks.len() {
        None
    } else if disks[j].device@ == device {
        Some(j)
    } else {
        first_disk_at(disks, device, j + 1)
    }
}

/// The anonymous uid of the first disk listed at `device`, used to key a
/// throughput reading by identity rather than by address.
pub fn device_uid_for(disks: &Vec<DiskInfo>, device: &str) -> (r: Option<String>)
    ensures
        match first_disk_at(disks@, device@, 0) {
            Some(k) => r matches Some(u) && u@ == disks@[k].device_uid@,
            None => r is None,
        },
{
    let mut j: usize = 0;
    while j < disks.len()
        invariant
            j <= disks.len(),
            first_disk_at(disks@, device@, 0) == first_disk_at(disks@, device@, j as int),
        decreases disks.len() - j,
    {
        if crate::text::str_eq(disks[j].device.as_str(), device) {
            return Some(disks[j].device_uid.clone());
        }
        j = j + 1;
    }
    None
}

/// A device address together with its anonymous uid (possibly empty).
pub struct ObjectRef {
    pub device: String,
    pub device_uid: String,
}

/// History is keyed by the anonymous uid, falling back to the volatile
/// address only when no uid was assigned.
pub open spec fn object_id_of(device: Seq<char>, uid: Seq<char>) -> Seq<char> {
    if uid.len() == 0 {
        device
    } else {
        uid
    }
}

/// Where the value of a history row comes from in the snapshot.
#[derive(PartialEq, Eq, Structural, Clone, Copy)]
pub enum RowValue {
    CpuTotal,
    MemoryUsedPercent,
    GpuUtilization,
    /// Usage of the core at this index.
    CoreUsage(usize),
    /// Throughput reading at this index.
    Throughput(usize),
    /// Temperature of the disk at this index.
    DiskTemperature(usize),
}

/// One history row of a snapshot, without its value.
pub struct HistoryRow {
    pub metric_id: String,
    pub object_id: String,
    pub unit: String,
    pub value: RowValue,
}

pub struct RowView {
    pub metric_id: Seq<char>,
    pub object_id: Seq<char>,
    pub unit: Seq<char>,
    pub value: RowValue,
}

pub open spec fn row_view(r: HistoryRow) -> RowView {
    RowView { metric_id: r.metric_id@, object_id: r.object_id@, unit: r.unit@, value: r.value }
}

/// The temperature rows: one per disk with a reading, in disk order.
pub open spec fn temperature_rows(disks: Seq<DiskInfo>) -> Seq<RowView>
    decreases disks.len(),
{
    if disks.len() == 0 {
        Seq::empty()
    } else {
        let d = disks.last();
        let prev = temperature_rows(disks.drop_last());
        if d.temperature_kelvin is Some {
            prev.push(
                RowView {
                    metric_id: "disk.temperature"@,
                    object_id: object_id_of(d.device@, d.device_uid@),
                    unit: "°C"@,
                    value: RowValue::DiskTemperature((disks.len() - 1) as usize),
                },
            )
        } else {
            prev
        }
    }
}

/// The rows one snapshot writes to history: CPU total, memory, GPU, one
/// per core ("core<i>"), one per throughput reading and one per disk
/// temperature reading, each throughput and temperature keyed by uid.
pub open spec fn snapshot_row_views(
    core_count: nat,
    throughputs: Seq<ObjectRef>,
    disks: Seq<DiskInfo>,
) -> Seq<RowView> {
    seq![
        RowView {
            metric_id: "cpu.total_usage"@,
            object_id: "system"@,
            unit: "%"@,
            value: RowValue::CpuTotal,
        },
        RowView {
            metric_id: "memory.used_percent"@,
            object_id: "system"@,
            unit: "%"@,
            value: RowValue::MemoryUsedPercent,
        },
        RowView {
            metric_id: "gpu.utilization"@,
            object_id: "gpu0"@,
            unit: "%"@,
            value: RowValue::GpuUtilization,
        },
    ] + Seq::new(
        core_count,
        |i: int|
            RowView {
                metric_id: "cpu.per_core"@,
                object_id: "core"@ + crate::text::decimal(i as nat),
                unit: "%"@,
                value: RowValue::CoreUsage(i as usize),
            },
    ) + Seq::new(
        throughputs.len(),
        |i: int|
            RowView {
                metric_id: "disk.throughput"@,
                object_id: object_id_of(throughputs[i].device@, throughputs[i].device_uid@),
                unit: "MB/s"@,
                value: RowValue::Throughput(i as usize),
            },
    ) + temperature_rows(disks)
}

proof fn lemma_rows_push(s: Seq<HistoryRow>, x: HistoryRow)
    ensures
        s.push(x).map_values(|r: HistoryRow| row_view(r)) == s.map_values(|r: HistoryRow| row_view(r)).push(
            row_view(x),
        ),
{
    assert(s.push(x).map_values(|r: HistoryRow| row_view(r)) =~= s.map_values(
        |r: HistoryRow| row_view(r),
    ).push(row_view(x)));
}

fn object_id(device: &String, uid: &String) -> (r: String)
    ensures
        r@ == object_id_of(device@, uid@),
{
    let u = chars_of(uid.as_str());
    if u.len() == 0 {
        device.clone()
    } else {
        uid.clone()
    }
}

fn row(metric_id: &str, object_id: String, unit: &str, value: RowValue) -> (r: HistoryRow)
    ensures
        row_view(r) == (RowView {
            metric_id: metric_id@,
            object_id: object_id@,
            unit: unit@,
            value,
        }),
{
    HistoryRow { metric_id: string_from(metric_id), object_id, unit: string_from(unit), value }
}

/// The rows of one snapshot, in the order they are written.
pub fn snapshot_rows(core_count: usize, throughputs: &Vec<ObjectRef>, disks: &Vec<DiskInfo>) -> (r:
    Vec<HistoryRow>)
    ensures
        r@.map_values(|x: HistoryRow| row_view(x)) == snapshot_row_views(
            core_count as nat,
            throughputs@,
            disks@,
        ),
{
    let mut rows: Vec<HistoryRow> = Vec::new();
    rows.push(row("cpu.total_usage", string_from("system"), "%", RowValue::CpuTotal));
    rows.push(row("memory.used_percent", string_from("system"), "%", RowValue::MemoryUsedPercent));
    rows.push(row("gpu.utilization", string_from("gpu0"), "%", RowValue::GpuUtilization));
    let ghost head = rows@.map_values(|x: HistoryRow| row_view(x));
    let ghost full = snapshot_row_views(core_count as nat, throughputs@, disks@);
    let ghost cores = Seq::new(
        core_count as nat,
        |i: int|
            RowView {
                metric_id: "cpu.per_core"@,
                object_id: "core"@ + crate::text::decimal(i as nat),
                unit: "%"@,
                value: RowValue::CoreUsage(i as usize),
            },
    );
    let ghost tps = Seq::new(
        throughputs@.len(),
        |i: int|
            RowView {
                metric_id: "disk.throughput"@,
                object_id: object_id_of(throughputs@[i].device@, throughputs@[i].device_uid@),
                unit: "MB/s"@,
                value: RowValue::Throughput(i as usize),
            },
    );
    let mut i: usize = 0;
    while i < core_count
        invariant
            i <= core_count,
            cores.len() == core_count,
            forall|t: int|
                0 <= t < core_count ==> #[trigger] cores[t] == (RowView {
                    metric_id: "cpu.per_core"@,
                    object_id: "core"@ + crate::text::decimal(t as nat),
                    unit: "%"@,
                    value: RowValue::CoreUsage(t as usize),
                }),
            rows@.map_values(|x: HistoryRow| row_view(x)) == head + cores.take(i as int),
        decreases core_count - i,
    {
        let mut id = string_from("core");
        crate::text::push_decimal(&mut id, i as u64);
        let x = row("cpu.per_core", id, "%", RowValue::CoreUsage(i));
        let ghost prev = rows@;
        proof {
            lemma_rows_push(prev, x);
        }
        rows.push(x);
        proof {
            assert(cores[i as int] == row_view(x));
            assert(cores.take(i + 1) =~= cores.take(i as int).push(cores[i as int]));
            assert(rows@.map_values(|x: HistoryRow| row_view(x)) =~= head + cores.take(i + 1));
        }
        i = i + 1;
    }
    proof {
        assert(cores.take(core_count as int) =~= cores);
    }
    let mut j: usize = 0;
    while j < throughputs.len()
        invariant
            j <= throughputs.len(),
            tps.len() == throughputs@.len(),
            forall|t: int|
                0 <= t < throughputs@.len() ==> #[trigger] tps[t] == (RowView {
                    metric_id: "disk.throughput"@,
                    object_id: object_id_of(throughputs@[t].device@, throughputs@[t].device_uid@),
                    unit: "MB/s"@,
                    value: RowValue::Throughput(t as usize),
                }),
            rows@.map_values(|x: HistoryRow| row_view(x)) == head + cores + tps.take(j as int),
        decreases throughputs.len() - j,
    {
        let oid = object_id(&throughputs[j].device, &throughputs[j].device_uid);
        let x = row("disk.throughput", oid, "MB/s", RowValue::Throughput(j));
        let ghost prev = rows@;
        proof {
            lemma_rows_push(prev, x);
        }
        rows.push(x);
        proof {
            assert(tps[j as int] == row_view(x));
            assert(tps.take(j + 1) =~= tps.take(j as int).push(tps[j as int]));
            assert(rows@.map_values(|x: HistoryRow| row_view(x)) =~= head + cores + tps.take(j + 1));
        }
        j = j + 1;
    }
    proof {
        assert(tps.take(throughputs.len() as int) =~= tps);
    }
    let mut k: usize = 0;
    while k < disks.len()
        invariant
            k <= disks.len(),
            rows@.map_values(|x: HistoryRow| row_view(x)) == head + cores + tps + temperature_rows(
                disks@.take(k as int),
            ),
        decreases disks.len() - k,
    {
        proof {
            assert(disks@.take(k + 1).drop_last() =~= disks@.take(k as int));
        }
        if disks[k].temperature_kelvin.is_some() {
            let oid = object_id(&disks[k].device, &disks[k].device_uid);
            let x = row("disk.temperature", oid, "°C", RowValue::DiskTemperature(k));
            let ghost prev = rows@;
            proof {
                lemma_rows_push(prev, x);
            }
            rows.push(x);
            proof {
                assert(rows@.map_values(|x: HistoryRow| row_view(x)) =~= head + cores + tps
                    + temperature_rows(disks@.take(k + 1)));
            }
        } else {
            proof {
                assert(temperature_rows(disks@.take(k + 1)) == temperature_rows(disks@.take(k as int)));
            }
        }
        k = k + 1;
    }
    proof {
        assert(disks@.take(disks.len() as int) =~= disks@);
        assert(full =~= head + cores + tps + temperature_rows(disks@));
    }
    rows
}

/// The `[start, end)` ranges of the lines of `s` from `start` on, cut as
/// `str::lines` cuts them.
pub open spec fn line_ranges(s: Seq<char>, start: int) -> Seq<(int, int)>
    decreases s.len() - start,
{
    if start < 0 || start >= s.len() {
        Seq::empty()
    } else {
        let nl = find_class(s, CharClass::Exactly('\n'), start, s.len() as int);
        let here = seq![(start, line_end(s, start))];
        if nl >= s.len() || nl < start {
            here
        } else {
            here + line_ranges(s, nl + 1)
        }
    }
}

/// The `[b, e)` ranges of the whitespace-separated tokens of `s[i..hi]`,
/// as `str::split_whitespace` yields them.
pub open spec fn token_ranges(s: Seq<char>, i: int, hi: int) -> Seq<(int, int)>
    decreases hi - i,
{
    if i < 0 || i >= hi {
        Seq::empty()
    } else {
        let b = skip(s, CharClass::Whitespace, i, hi);
        if b >= hi {
            Seq::empty()
        } else {
            let e = find_class(s, CharClass::Whitespace, b, hi);
            if e <= i || e > hi {
                Seq::empty()
            } else {
                seq![(b, e)] + token_ranges(s, e, hi)
            }
        }
    }
}

/// Index of the last line (below `j`) holding something besides whitespace.
pub open spec fn last_nonblank(s: Seq<char>, lines: Seq<(int, int)>, j: int) -> Option<int>
    decreases j,
{
    if j <= 0 {
        None
    } else if token_ranges(s, lines[j - 1].0, lines[j - 1].1).len() > 0 {
        Some(j - 1)
    } else {
        last_nonblank(s, lines, j - 1)
    }
}

pub open spec fn text_at(s: Seq<char>, r: (int, int)) -> Seq<char> {
    s.subrange(r.0, r.1)
}

/// The MB column of `iostat -d -I` output per device: device names come
/// from the first line, readings from the last non-blank line, three
/// columns (KB/t, xfrs, MB) per device; a device without its MB column is
/// left out.  Fewer than three lines yield nothing.
pub open spec fn iostat_columns(s: Seq<char>) -> Seq<(Seq<char>, Seq<char>)> {
    let lines = line_ranges(s, 0);
    if lines.len() < 3 {
        Seq::empty()
    } else {
        match last_nonblank(s, lines, lines.len() as int) {
            None => Seq::empty(),
            Some(d) => {
                let names = token_ranges(s, lines[0].0, lines[0].1);
                let cols = token_ranges(s, lines[d].0, lines[d].1);
                let n = min_nat(names.len(), cols.len() / 3);
                Seq::new(n, |i: int| (text_at(s, names[i]), text_at(s, cols[3 * i + 2])))
            },
        }
    }
}

pub open spec fn min_nat(a: nat, b: nat) -> nat {
    if a < b {
        a
    } else {
        b
    }
}

proof fn lemma_span_ge(s: Seq<char>, k: CharClass, want: bool, i: int, hi: int)
    requires
        i <= hi,
    ensures
        i <= crate::text::span(s, k, want, i, hi) <= hi,
    decreases hi - i,
{
    if i < hi && crate::text::in_class(s[i], k) != want {
        lemma_span_ge(s, k, want, i + 1, hi);
    }
}

proof fn lemma_back_le(s: Seq<char>, k: CharClass, lo: int, j: int)
    requires
        lo <= j,
    ensures
        lo <= back(s, k, lo, j) <= j,
    decreases j - lo,
{
    if j > lo && crate::text::in_class(s[j - 1], k) {
        lemma_back_le(s, k, lo, j - 1);
    }
}

/// Line ranges are ordered windows of `s`.
proof fn lemma_line_ranges_bounds(s: Seq<char>, start: int)
    ensures
        forall|k: int|
            0 <= k < line_ranges(s, start).len() ==> start <= (#[trigger] line_ranges(s, start)[k]).0
                <= line_ranges(s, start)[k].1 <= s.len(),
    decreases s.len() - start,
{
    if !(start < 0 || start >= s.len()) {
        let nl = find_class(s, CharClass::Exactly('\n'), start, s.len() as int);
        lemma_span_ge(s, CharClass::Exactly('\n'), true, start, s.len() as int);
        let here = seq![(start, line_end(s, start))];
        if !(nl >= s.len() || nl < start) {
            lemma_line_ranges_bounds(s, nl + 1);
            let tail = line_ranges(s, nl + 1);
            assert(line_ranges(s, start) == here + tail);
            assert forall|k: int| 0 <= k < line_ranges(s, start).len() implies start <= (#[trigger] line_ranges(s, start)[k]).0
                <= line_ranges(s, start)[k].1 <= s.len() by {
                if k > 0 {
                    assert(line_ranges(s, start)[k] == tail[k - 1]);
                }
            }
        }
    }
}

/// Token ranges lie inside their window.
proof fn lemma_token_ranges_bounds(s: Seq<char>, i: int, hi: int)
    ensures
        forall|k: int|
            0 <= k < token_ranges(s, i, hi).len() ==> i <= (#[trigger] token_ranges(s, i, hi)[k]).0
                <= token_ranges(s, i, hi)[k].1 <= hi,
    decreases hi - i,
{
    if !(i < 0 || i >= hi) {
        let b = skip(s, CharClass::Whitespace, i, hi);
        lemma_span_ge(s, CharClass::Whitespace, false, i, hi);
        if b < hi {
            let e = find_class(s, CharClass::Whitespace, b, hi);
            lemma_span_ge(s, CharClass::Whitespace, true, b, hi);
            if e > i && e <= hi {
                lemma_token_ranges_bounds(s, e, hi);
                let tail = token_ranges(s, e, hi);
                assert(token_ranges(s, i, hi) == seq![(b, e)] + tail);
                assert forall|k: int| 0 <= k < token_ranges(s, i, hi).len() implies i <= (#[trigger] token_ranges(s, i, hi)[k]).0
                    <= token_ranges(s, i, hi)[k].1 <= hi by {
                    if k > 0 {
                        assert(token_ranges(s, i, hi)[k] == tail[k - 1]);
                    }
                }
            }
        }
    }
}

fn line_ranges_of(v: &Vec<char>) -> (r: Vec<(usize, usize)>)
    ensures
        r@.len() == line_ranges(v@, 0).len(),
        forall|k: int|
            0 <= k < r@.len() ==> (#[trigger] r@[k]).0 as int == line_ranges(v@, 0)[k].0 && r@[k].1 as int
                == line_ranges(v@, 0)[k].1,
{
    let n = v.len();
    let mut r: Vec<(usize, usize)> = Vec::new();
    let mut start: usize = 0;
    while start < n
        invariant
            n == v.len(),
            start <= n,
            r@.len() + line_ranges(v@, start as int).len() == line_ranges(v@, 0).len(),
            forall|k: int|
                0 <= k < r@.len() ==> (#[trigger] r@[k]).0 as int == line_ranges(v@, 0)[k].0
                    && r@[k].1 as int == line_ranges(v@, 0)[k].1,
            forall|k: int|
                0 <= k < line_ranges(v@, start as int).len() ==> line_ranges(v@, 0)[r@.len() + k]
                    == #[trigger] line_ranges(v@, start as int)[k],
        decreases n - start,
    {
        let nl = scan_class(v, CharClass::Exactly('\n'), start, n);
        let end = if nl < n && nl > start && v[nl - 1] == '\r' {
            nl - 1
        } else {
            nl
        };
        assert(end == line_end(v@, start as int));
        let ghost rest = line_ranges(v@, start as int);
        let ghost base = r@.len();
        r.push((start, end));
        proof {
            assert(rest[0] == (start as int, end as int));
            assert(line_ranges(v@, 0)[base as int] == rest[0]);
        }
        if nl >= n {
            proof {
                assert(rest.len() == 1);
            }
            return r;
        }
        proof {
            let tail = line_ranges(v@, nl + 1);
            assert(rest =~= seq![(start as int, end as int)] + tail);
            assert forall|k: int| 0 <= k < tail.len() implies line_ranges(v@, 0)[r@.len() + k]
                == #[trigger] tail[k] by {
                assert(rest[k + 1] == tail[k]);
            }
        }
        start = nl + 1;
    }
    proof {
        assert(line_ranges(v@, start as int).len() == 0);
    }
    r
}

/// See [`last_nonblank`].
fn last_nonblank_line(v: &Vec<char>, lines: &Vec<(usize, usize)>) -> (r: Option<usize>)
    requires
        lines@.len() == line_ranges(v@, 0).len(),
        forall|k: int|
            0 <= k < lines@.len() ==> (#[trigger] lines@[k]).0 as int == line_ranges(v@, 0)[k].0
                && lines@[k].1 as int == line_ranges(v@, 0)[k].1,
        forall|k: int|
            0 <= k < lines@.len() ==> 0 <= (#[trigger] line_ranges(v@, 0)[k]).0 <= line_ranges(v@, 0)[k].1
                <= v@.len(),
    ensures
        match r {
            Some(d) => last_nonblank(v@, line_ranges(v@, 0), lines@.len() as int) == Some(d as int)
                && d < lines@.len(),
            None => last_nonblank(v@, line_ranges(v@, 0), lines@.len() as int) is None,
        },
{
    let ghost ls = line_ranges(v@, 0);
    let mut j = lines.len();
    while j > 0
        invariant
            j <= lines@.len(),
            ls == line_ranges(v@, 0),
            lines@.len() == ls.len(),
            forall|k: int|
                0 <= k < lines@.len() ==> (#[trigger] lines@[k]).0 as int == ls[k].0 && lines@[k].1 as int
                    == ls[k].1,
            forall|k: int| 0 <= k < ls.len() ==> 0 <= (#[trigger] ls[k]).0 <= ls[k].1 <= v@.len(),
            last_nonblank(v@, ls, ls.len() as int) == last_nonblank(v@, ls, j as int),
        decreases j,
    {
        let (a, b) = lines[j - 1];
        assert(lines@[j - 1].0 as int == ls[j - 1].0 && lines@[j - 1].1 as int == ls[j - 1].1);
        assert(0 <= ls[j - 1].0 <= ls[j - 1].1 <= v@.len());
        let toks = token_ranges_of(v, a, b);
        if toks.len() > 0 {
            return Some(j - 1);
        }
        j = j - 1;
    }
    None
}

fn token_ranges_of(v: &Vec<char>, i: usize, hi: usize) -> (r: Vec<(usize, usize)>)
    requires
        i <= hi <= v.len(),
    ensures
        r@.len() == token_ranges(v@, i as int, hi as int).len(),
        forall|k: int|
            0 <= k < r@.len() ==> (#[trigger] r@[k]).0 as int == token_ranges(v@, i as int, hi as int)[k].0
                && r@[k].1 as int == token_ranges(v@, i as int, hi as int)[k].1,
{
    let mut r: Vec<(usize, usize)> = Vec::new();
    let mut p = i;
    let ghost all = token_ranges(v@, i as int, hi as int);
    while p < hi
        invariant
            i <= p <= hi <= v.len(),
            all == token_ranges(v@, i as int, hi as int),
            r@.len() + token_ranges(v@, p as int, hi as int).len() == all.len(),
            forall|k: int|
                0 <= k < r@.len() ==> (#[trigger] r@[k]).0 as int == all[k].0 && r@[k].1 as int
                    == all[k].1,
            forall|k: int|
                0 <= k < token_ranges(v@, p as int, hi as int).len() ==> all[r@.len() + k]
                    == #[trigger] token_ranges(v@, p as int, hi as int)[k],
        decreases hi - p,
    {
        let b = skip_class(v, CharClass::Whitespace, p, hi);
        if b >= hi {
            proof {
                assert(token_ranges(v@, p as int, hi as int).len() == 0);
            }
            return r;
        }
        let e = scan_class(v, CharClass::Whitespace, b, hi);
        proof {
            assert(crate::text::in_class(v@[b as int], CharClass::Whitespace) == false) by {
                lemma_skip_stop(v@, b as int, hi as int, p as int);
            }
            lemma_scan_past(v@, b as int, hi as int);
        }
        let ghost rest = token_ranges(v@, p as int, hi as int);
        let ghost base = r@.len();
        r.push((b, e));
        proof {
            let tail = token_ranges(v@, e as int, hi as int);
            assert(rest =~= seq![(b as int, e as int)] + tail);
            assert(all[base as int] == rest[0]);
            assert forall|k: int| 0 <= k < tail.len() implies all[r@.len() + k] == #[trigger] tail[k] by {
                assert(rest[k + 1] == tail[k]);
            }
        }
        p = e;
    }
    proof {
        assert(token_ranges(v@, p as int, hi as int).len() == 0);
    }
    r
}

/// `skip` stops at a character outside the class (when it stops before `hi`).
proof fn lemma_skip_stop(s: Seq<char>, b: int, hi: int, p: int)
    requires
        p <= hi,
        b == skip(s, CharClass::Whitespace, p, hi),
        b < hi,
    ensures
        !crate::text::in_class(s[b], CharClass::Whitespace),
    decreases hi - p,
{
    if p < hi && crate::text::in_class(s[p], CharClass::Whitespace) {
        lemma_skip_stop(s, b, hi, p + 1);
    }
}

/// Scanning from a non-whitespace character moves past it.
proof fn lemma_scan_past(s: Seq<char>, b: int, hi: int)
    requires
        b < hi,
        !crate::text::in_class(s[b], CharClass::Whitespace),
    ensures
        find_class(s, CharClass::Whitespace, b, hi) > b,
{
    lemma_span_ge(s, CharClass::Whitespace, true, b + 1, hi);
}

/// Device names and MB readings (as text) from `iostat -d -I` output; see
/// [`iostat_columns`].  The caller reads each reading as a number.
pub fn iostat_mb_columns(stdout: &str) -> (r: Vec<(String, String)>)
    ensures
        r@.len() == iostat_columns(stdout@).len(),
        forall|i: int|
            0 <= i < r@.len() ==> (#[trigger] r@[i]).0@ == iostat_columns(stdout@)[i].0 && r@[i].1@
                == iostat_columns(stdout@)[i].1,
{
    let v = chars_of(stdout);
    let lines = line_ranges_of(&v);
    let mut out: Vec<(String, String)> = Vec::new();
    if lines.len() < 3 {
        return out;
    }
    proof {
        lemma_line_ranges_bounds(v@, 0);
    }
    let ghost ls = line_ranges(v@, 0);
    let d = match last_nonblank_line(&v, &lines) {
        Some(d) => d,
        None => {
            return out;
        },
    };
    assert(last_nonblank(v@, ls, ls.len() as int) == Some(d as int));
    let (na, nb) = lines[0];
    let names = token_ranges_of(&v, na, nb);
    let (ca, cb) = lines[d];
    let cols = token_ranges_of(&v, ca, cb);
    proof {
        lemma_token_ranges_bounds(v@, na as int, nb as int);
        lemma_token_ranges_bounds(v@, ca as int, cb as int);
    }
    let count = if names.len() < cols.len() / 3 {
        names.len()
    } else {
        cols.len() / 3
    };
    let ghost expect = iostat_columns(v@);
    proof {
        assert(lines@[0].0 as int == ls[0].0 && lines@[0].1 as int == ls[0].1);
        assert(lines@[d as int].0 as int == ls[d as int].0 && lines@[d as int].1 as int == ls[d as int].1);
    }
    assert(3 * (cols@.len() / 3) <= cols@.len()) by (nonlinear_arith);
    let mut i: usize = 0;
    while i < count
        invariant
            i <= count,
            count <= names@.len(),
            count <= cols@.len() / 3,
            3 * (cols@.len() / 3) <= cols@.len(),
            expect == iostat_columns(v@),
            expect.len() == count,
            names@.len() == token_ranges(v@, na as int, nb as int).len(),
            cols@.len() == token_ranges(v@, ca as int, cb as int).len(),
            forall|k: int|
                0 <= k < names@.len() ==> (#[trigger] names@[k]).0 as int == token_ranges(
                    v@,
                    na as int,
                    nb as int,
                )[k].0 && names@[k].1 as int == token_ranges(v@, na as int, nb as int)[k].1,
            forall|k: int|
                0 <= k < cols@.len() ==> (#[trigger] cols@[k]).0 as int == token_ranges(
                    v@,
                    ca as int,
                    cb as int,
                )[k].0 && cols@[k].1 as int == token_ranges(v@, ca as int, cb as int)[k].1,
            forall|k: int|
                0 <= k < names@.len() ==> 0 <= (#[trigger] names@[k]).0 <= names@[k].1 <= v@.len(),
            forall|k: int|
                0 <= k < cols@.len() ==> 0 <= (#[trigger] cols@[k]).0 <= cols@[k].1 <= v@.len(),
            out@.len() == i,
            forall|k: int|
                0 <= k < count ==> #[trigger] expect[k] == (
                    text_at(v@, token_ranges(v@, na as int, nb as int)[k]),
                    text_at(v@, token_ranges(v@, ca as int, cb as int)[3 * k + 2]),
                ),
            forall|k: int|
                0 <= k < i ==> (#[trigger] out@[k]).0@ == expect[k].0 && out@[k].1@ == expect[k].1,
        decreases count - i,
    {
        let (a, b) = names[i];
        assert(cols@.len() == cols.len());
        assert(3 * i + 2 < cols@.len()) by (nonlinear_arith)
            requires
                i < count,
                count <= cols@.len() / 3,
                3 * (cols@.len() / 3) <= cols@.len(),
        ;
        let (c0, c1) = cols[3 * i + 2];
        let name = crate::text::string_of_range(&v, a, b);
        let mb = crate::text::string_of_range(&v, c0, c1);
        out.push((name, mb));
        i = i + 1;
    }
    out
}

} // verus!
