//! Score-level structure: how staves are grouped, the time signature a score
//! starts with, and how each staff's systems are prepared for layout.

use vstd::prelude::*;

use crate::lexer::{parse_i32, spec_parse_i32};
use crate::text::{is_unicode_whitespace, opt_str_view, opt_view, owned, push_char, str_eq, str_trim, trim_ws};
use crate::types::{Barline, Event, LyricEntry, StaffGroupKind, StaffGroupRange, StaffInput, TimeInfo};

verus! {

// ─── Staff grouping ────────────────────────────────────────────────────

/// The group a score-wide `staff-group` value asks for, if any.
pub open spec fn spec_legacy_staff_group_kind(staff_group: Seq<char>) -> Option<StaffGroupKind> {
    if staff_group == "grand"@ {
        Some(StaffGroupKind::Brace)
    } else if staff_group == "bracket"@ {
        Some(StaffGroupKind::Bracket)
    } else if staff_group == "barline"@ || staff_group == "barlines"@ || staff_group == "connected"@ {
        Some(StaffGroupKind::Barline)
    } else {
        None
    }
}

pub fn legacy_staff_group_kind(staff_group: &str) -> (r: Option<StaffGroupKind>)
    ensures
        r == spec_legacy_staff_group_kind(staff_group@),
{
    if str_eq(staff_group, "grand") {
        Some(StaffGroupKind::Brace)
    } else if str_eq(staff_group, "bracket") {
        Some(StaffGroupKind::Bracket)
    } else if str_eq(staff_group, "barline") || str_eq(staff_group, "barlines") || str_eq(
        staff_group,
        "connected",
    ) {
        Some(StaffGroupKind::Barline)
    } else {
        None
    }
}

/// Whether a staff opens a group of the given kind.
pub open spec fn opens_group(s: StaffInput, kind: StaffGroupKind) -> bool {
    match kind {
        StaffGroupKind::Barline => s.barline_group_start,
        StaffGroupKind::Bracket => s.bracket_start,
        StaffGroupKind::Brace => s.brace_start,
    }
}

/// Whether a staff closes a group of the given kind.
pub open spec fn closes_group(s: StaffInput, kind: StaffGroupKind) -> bool {
    match kind {
        StaffGroupKind::Barline => s.barline_group_end,
        StaffGroupKind::Bracket => s.bracket_end,
        StaffGroupKind::Brace => s.brace_end,
    }
}

/// Whether a staff sets any group start or end of its own.
pub open spec fn has_group_mark(s: StaffInput) -> bool {
    s.barline_group_start || s.barline_group_end || s.bracket_start || s.bracket_end || s.brace_start
        || s.brace_end
}

pub fn has_per_staff_grouping(staves: &[StaffInput]) -> (r: bool)
    ensures
        r == (exists|i: int| 0 <= i < staves@.len() && #[trigger] has_group_mark(staves@[i])),
{
    let mut i: usize = 0;
    while i < staves.len()
        invariant
            i <= staves@.len(),
            forall|k: int| 0 <= k < i ==> !#[trigger] has_group_mark(staves@[k]),
        decreases staves@.len() - i,
    {
        let s = &staves[i];
        if s.barline_group_start || s.barline_group_end || s.bracket_start || s.bracket_end
            || s.brace_start || s.brace_end {
            assert(has_group_mark(staves@[i as int]));
            return true;
        }
        i = i + 1;
    }
    false
}

fn opens(s: &StaffInput, kind: StaffGroupKind) -> (r: bool)
    ensures
        r == opens_group(*s, kind),
{
    match kind {
        StaffGroupKind::Barline => s.barline_group_start,
        StaffGroupKind::Bracket => s.bracket_start,
        StaffGroupKind::Brace => s.brace_start,
    }
}

fn closes(s: &StaffInput, kind: StaffGroupKind) -> (r: bool)
    ensures
        r == closes_group(*s, kind),
{
    match kind {
        StaffGroupKind::Barline => s.barline_group_end,
        StaffGroupKind::Bracket => s.bracket_end,
        StaffGroupKind::Brace => s.brace_end,
    }
}

/// Scanning the staves top to bottom for groups of one kind: the groups
/// found so far, as (first, last) staff, and the staff of a group still
/// open. A start on a staff replaces any earlier open start; an end closes
/// the open group, which counts only when it spans at least two staves.
pub open spec fn group_scan(staves: Seq<StaffInput>, kind: StaffGroupKind) -> (Seq<(int, int)>, Option<int>)
    decreases staves.len(),
{
    if staves.len() == 0 {
        (Seq::empty(), None)
    } else {
        let (found, active) = group_scan(staves.drop_last(), kind);
        let idx = staves.len() - 1;
        let active1 = if opens_group(staves.last(), kind) {
            Some(idx)
        } else {
            active
        };
        if closes_group(staves.last(), kind) {
            match active1 {
                Some(start) => (if idx > start {
                    found.push((start, idx))
                } else {
                    found
                }, None),
                None => (found, None),
            }
        } else {
            (found, active1)
        }
    }
}

/// A range as the pair of its first and last staff, with its kind.
pub open spec fn range_view(r: StaffGroupRange) -> (int, int, StaffGroupKind) {
    (r.start as int, r.end as int, r.kind)
}

pub open spec fn ranges_view(rs: Seq<StaffGroupRange>) -> Seq<(int, int, StaffGroupKind)> {
    rs.map_values(|r: StaffGroupRange| range_view(r))
}

/// The groups of one kind that the staves' own start and end marks form.
pub open spec fn spec_collect_staff_group_ranges(staves: Seq<StaffInput>, kind: StaffGroupKind) -> Seq<(int, int, StaffGroupKind)> {
    group_scan(staves, kind).0.map_values(|p: (int, int)| (p.0, p.1, kind))
}

pub fn collect_staff_group_ranges(staves: &[StaffInput], kind: StaffGroupKind) -> (ranges: Vec<StaffGroupRange>)
    ensures
        ranges_view(ranges@) == spec_collect_staff_group_ranges(staves@, kind),
{
    let mut ranges: Vec<StaffGroupRange> = Vec::new();
    let mut active_start: Option<usize> = None;
    let mut idx: usize = 0;
    while idx < staves.len()
        invariant
            idx <= staves@.len(),
            ranges_view(ranges@) == group_scan(staves@.take(idx as int), kind).0.map_values(
                |p: (int, int)| (p.0, p.1, kind),
            ),
            (match active_start {
                Some(s) => Some(s as int),
                None => None,
            }) == group_scan(staves@.take(idx as int), kind).1,
            forall|k: int| 0 <= k < ranges@.len() ==> #[trigger] ranges@[k].kind == kind,
        decreases staves@.len() - idx,
    {
        let ghost t = staves@.take(idx + 1);
        assert(t.drop_last() =~= staves@.take(idx as int));
        assert(t.last() == staves@[idx as int]);
        let staff = &staves[idx];
        if opens(staff, kind) {
            active_start = Some(idx);
        }
        if closes(staff, kind) {
            if let Some(start) = active_start {
                if idx > start {
                    let ghost before = ranges@;
                    ranges.push(StaffGroupRange { start, end: idx, kind });
                    assert(ranges_view(ranges@) =~= ranges_view(before).push((start as int, idx as int, kind)));
                }
            }
            active_start = None;
        }
        idx = idx + 1;
    }
    assert(staves@.take(staves@.len() as int) =~= staves@);
    ranges
}

/// The staff groups of a score: with per-staff marks, the groups they form
/// (barline groups, then brackets, then braces); otherwise the one group
/// the score-wide value asks for, over all staves. A single staff is never
/// grouped.
pub open spec fn spec_build_staff_group_ranges(staves: Seq<StaffInput>, staff_group: Seq<char>) -> Seq<(int, int, StaffGroupKind)> {
    if staves.len() < 2 {
        Seq::empty()
    } else if exists|i: int| 0 <= i < staves.len() && #[trigger] has_group_mark(staves[i]) {
        spec_collect_staff_group_ranges(staves, StaffGroupKind::Barline) + spec_collect_staff_group_ranges(
            staves,
            StaffGroupKind::Bracket,
        ) + spec_collect_staff_group_ranges(staves, StaffGroupKind::Brace)
    } else {
        match spec_legacy_staff_group_kind(staff_group) {
            Some(kind) => seq![(0, staves.len() - 1, kind)],
            None => Seq::empty(),
        }
    }
}

fn append_ranges(dst: &mut Vec<StaffGroupRange>, src: Vec<StaffGroupRange>)
    ensures
        ranges_view(final(dst)@) == ranges_view(old(dst)@) + ranges_view(src@),
{
    let ghost s = src@;
    let ghost start = dst@;
    for r in it: src.into_iter()
        invariant
            it.seq() == s,
            ranges_view(dst@) == ranges_view(start) + ranges_view(s.take(it.index() as int)),
    {
        let ghost k = it.index() as int;
        assert(s.take(k + 1) =~= s.take(k).push(r));
        let ghost before = dst@;
        dst.push(r);
        assert(ranges_view(dst@) =~= ranges_view(before).push(range_view(r)));
        assert(ranges_view(s.take(k + 1)) =~= ranges_view(s.take(k)).push(range_view(r)));
        assert(ranges_view(dst@) =~= ranges_view(start) + ranges_view(s.take(k + 1)));
    }
    assert(s.take(s.len() as int) =~= s);
}

pub fn build_staff_group_ranges(staves: &[StaffInput], staff_group: &str) -> (ranges: Vec<StaffGroupRange>)
    ensures
        ranges_view(ranges@) == spec_build_staff_group_ranges(staves@, staff_group@),
{
    let staff_count = staves.len();
    if staff_count < 2 {
        let r: Vec<StaffGroupRange> = Vec::new();
        assert(ranges_view(r@) =~= Seq::<(int, int, StaffGroupKind)>::empty());
        return r;
    }
    if has_per_staff_grouping(staves) {
        let mut ranges: Vec<StaffGroupRange> = Vec::new();
        let barline = collect_staff_group_ranges(staves, StaffGroupKind::Barline);
        append_ranges(&mut ranges, barline);
        let bracket = collect_staff_group_ranges(staves, StaffGroupKind::Bracket);
        append_ranges(&mut ranges, bracket);
        let brace = collect_staff_group_ranges(staves, StaffGroupKind::Brace);
        append_ranges(&mut ranges, brace);
        assert(ranges_view(ranges@) =~= spec_build_staff_group_ranges(staves@, staff_group@));
        return ranges;
    }
    let mut ranges: Vec<StaffGroupRange> = Vec::new();
    match legacy_staff_group_kind(staff_group) {
        Some(kind) => {
            ranges.push(StaffGroupRange { start: 0, end: staff_count - 1, kind });
        },
        None => {},
    }
    assert(ranges_view(ranges@) =~= spec_build_staff_group_ranges(staves@, staff_group@));
    ranges
}

/// Whether two ranges share a staff.
pub open spec fn spec_group_ranges_overlap(a: StaffGroupRange, b: StaffGroupRange) -> bool {
    a.start <= b.end && b.start <= a.end
}

pub fn group_ranges_overlap(a: &StaffGroupRange, b: &StaffGroupRange) -> (r: bool)
    ensures
        r == spec_group_ranges_overlap(*a, *b),
{
    a.start <= b.end && b.start <= a.end
}

/// Whether some range of the given kind shares a staff with `range`.
pub open spec fn spec_overlaps_group_kind(range: StaffGroupRange, ranges: Seq<StaffGroupRange>, kind: StaffGroupKind) -> bool {
    exists|i: int|
        0 <= i < ranges.len() && (#[trigger] ranges[i]).kind == kind && spec_group_ranges_overlap(
            range,
            ranges[i],
        )
}

pub fn overlaps_group_kind(range: &StaffGroupRange, ranges: &[StaffGroupRange], kind: StaffGroupKind) -> (r: bool)
    ensures
        r == spec_overlaps_group_kind(*range, ranges@, kind),
{
    let mut i: usize = 0;
    while i < ranges.len()
        invariant
            i <= ranges@.len(),
            forall|k: int|
                0 <= k < i ==> !((#[trigger] ranges@[k]).kind == kind && spec_group_ranges_overlap(
                    *range,
                    ranges@[k],
                )),
        decreases ranges@.len() - i,
    {
        let other = &ranges[i];
        if other.kind == kind && group_ranges_overlap(range, other) {
            return true;
        }
        i = i + 1;
    }
    false
}

/// Whether a brace shares a staff with a bracket, so both symbols must be
/// drawn side by side.
pub open spec fn spec_has_overlapping_brace_and_bracket(ranges: Seq<StaffGroupRange>) -> bool {
    exists|i: int|
        0 <= i < ranges.len() && (#[trigger] ranges[i]).kind == StaffGroupKind::Brace
            && spec_overlaps_group_kind(ranges[i], ranges, StaffGroupKind::Bracket)
}

pub fn has_overlapping_brace_and_bracket(ranges: &[StaffGroupRange]) -> (r: bool)
    ensures
        r == spec_has_overlapping_brace_and_bracket(ranges@),
{
    let mut i: usize = 0;
    while i < ranges.len()
        invariant
            i <= ranges@.len(),
            forall|k: int|
                0 <= k < i ==> !((#[trigger] ranges@[k]).kind == StaffGroupKind::Brace
                    && spec_overlaps_group_kind(ranges@[k], ranges@, StaffGroupKind::Bracket)),
        decreases ranges@.len() - i,
    {
        let range = &ranges[i];
        if range.kind == StaffGroupKind::Brace && overlaps_group_kind(range, ranges, StaffGroupKind::Bracket) {
            return true;
        }
        i = i + 1;
    }
    false
}

} // verus!

verus! {

/// What the scan for one kind of group keeps true: each group found runs
/// from a staff that opens it to a later staff that closes it, with no
/// staff in between opening or closing that kind; groups come in order and
/// do not overlap; an open group starts after every group found.
pub open spec fn group_scan_ok(staves: Seq<StaffInput>, kind: StaffGroupKind, found: Seq<(int, int)>, active: Option<int>) -> bool {
    &&& forall|i: int|
        0 <= i < found.len() ==> {
            let (s, e) = #[trigger] found[i];
            &&& 0 <= s < e < staves.len()
            &&& opens_group(staves[s], kind)
            &&& closes_group(staves[e], kind)
            &&& forall|k: int| s < k < e ==> !opens_group(#[trigger] staves[k], kind) && !closes_group(staves[k], kind)
        }
    &&& forall|i: int, j: int| 0 <= i < j < found.len() ==> (#[trigger] found[i]).1 < (#[trigger] found[j]).0
    &&& match active {
        Some(a) => {
            &&& 0 <= a < staves.len()
            &&& opens_group(staves[a], kind)
            &&& forall|k: int| a < k < staves.len() ==> !opens_group(#[trigger] staves[k], kind) && !closes_group(staves[k], kind)
            &&& !closes_group(staves[a], kind)
            &&& forall|i: int| 0 <= i < found.len() ==> (#[trigger] found[i]).1 < a
        },
        None => true,
    }
}

proof fn lemma_group_scan(staves: Seq<StaffInput>, kind: StaffGroupKind)
    ensures
        group_scan_ok(staves, kind, group_scan(staves, kind).0, group_scan(staves, kind).1),
    decreases staves.len(),
{
    if staves.len() > 0 {
        let p = staves.drop_last();
        lemma_group_scan(p, kind);
        let (found, active) = group_scan(p, kind);
        let idx = staves.len() - 1;
        assert forall|k: int| 0 <= k < p.len() implies #[trigger] staves[k] == p[k] by {}
        let active1 = if opens_group(staves.last(), kind) {
            Some(idx)
        } else {
            active
        };
        if closes_group(staves.last(), kind) {
            if let Some(start) = active1 {
                if idx > start {
                    let f2 = found.push((start, idx));
                    assert forall|i: int| 0 <= i < f2.len() implies {
                        let (s, e) = #[trigger] f2[i];
                        &&& 0 <= s < e < staves.len()
                        &&& opens_group(staves[s], kind)
                        &&& closes_group(staves[e], kind)
                        &&& forall|k: int| s < k < e ==> !opens_group(#[trigger] staves[k], kind) && !closes_group(staves[k], kind)
                    } by {
                        if i < found.len() {
                            assert(f2[i] == found[i]);
                        } else {
                            assert(f2[i] == (start, idx));
                            assert(active1 == active);
                        }
                    }
                    assert forall|i: int, j: int| 0 <= i < j < f2.len() implies (#[trigger] f2[i]).1 < (#[trigger] f2[j]).0 by {
                        if j < found.len() {
                            assert(f2[i] == found[i] && f2[j] == found[j]);
                        } else {
                            assert(f2[i] == found[i]);
                        }
                    }
                }
            }
        } else {
            if opens_group(staves.last(), kind) {
                assert forall|i: int| 0 <= i < found.len() implies (#[trigger] found[i]).1 < idx by {}
            }
        }
    }
}

/// The groups of one kind that per-staff marks form: each runs from a staff
/// that opens it to a later staff that closes it, with no staff in between
/// opening or closing that kind, and groups of one kind come in order
/// without sharing a staff.
pub proof fn lemma_collected_ranges_are_marked(staves: Seq<StaffInput>, kind: StaffGroupKind)
    ensures
        forall|i: int|
            0 <= i < spec_collect_staff_group_ranges(staves, kind).len() ==> {
                let (s, e, k) = #[trigger] spec_collect_staff_group_ranges(staves, kind)[i];
                &&& k == kind
                &&& 0 <= s < e < staves.len()
                &&& opens_group(staves[s], kind)
                &&& closes_group(staves[e], kind)
                &&& forall|m: int| s < m < e ==> !opens_group(#[trigger] staves[m], kind) && !closes_group(staves[m], kind)
            },
        forall|i: int, j: int|
            0 <= i < j < spec_collect_staff_group_ranges(staves, kind).len()
                ==> (#[trigger] spec_collect_staff_group_ranges(staves, kind)[i]).1 < (
            #[trigger] spec_collect_staff_group_ranges(staves, kind)[j]).0,
{
    lemma_group_scan(staves, kind);
    let found = group_scan(staves, kind).0;
    assert forall|i: int| 0 <= i < found.len() implies #[trigger] spec_collect_staff_group_ranges(staves, kind)[i] == (found[i].0, found[i].1, kind) by {}
}

/// Law: with per-staff marks on two or more staves, the groups built are
/// exactly those the marks form, of every kind alike: each group that the
/// barline-group, bracket or brace marks form is built, and each group built
/// is one that the marks of its kind form.
pub proof fn lemma_marked_groups_all_built(staves: Seq<StaffInput>, staff_group: Seq<char>)
    requires
        staves.len() >= 2,
        exists|i: int| 0 <= i < staves.len() && #[trigger] has_group_mark(staves[i]),
    ensures
        forall|kind: StaffGroupKind, i: int|
            0 <= i < spec_collect_staff_group_ranges(staves, kind).len() ==> spec_build_staff_group_ranges(
                staves,
                staff_group,
            ).contains(#[trigger] spec_collect_staff_group_ranges(staves, kind)[i]),
        forall|j: int|
            0 <= j < spec_build_staff_group_ranges(staves, staff_group).len() ==> spec_collect_staff_group_ranges(
                staves,
                (#[trigger] spec_build_staff_group_ranges(staves, staff_group)[j]).2,
            ).contains(spec_build_staff_group_ranges(staves, staff_group)[j]),
{
    let a = spec_collect_staff_group_ranges(staves, StaffGroupKind::Barline);
    let b = spec_collect_staff_group_ranges(staves, StaffGroupKind::Bracket);
    let c = spec_collect_staff_group_ranges(staves, StaffGroupKind::Brace);
    let r = spec_build_staff_group_ranges(staves, staff_group);
    assert(r == a + b + c);
    lemma_collected_ranges_are_marked(staves, StaffGroupKind::Barline);
    lemma_collected_ranges_are_marked(staves, StaffGroupKind::Bracket);
    lemma_collected_ranges_are_marked(staves, StaffGroupKind::Brace);
    assert forall|kind: StaffGroupKind, i: int|
        0 <= i < spec_collect_staff_group_ranges(staves, kind).len() implies r.contains(
        #[trigger] spec_collect_staff_group_ranges(staves, kind)[i],
    ) by {
        match kind {
            StaffGroupKind::Barline => {
                assert(r[i] == a[i]);
            },
            StaffGroupKind::Bracket => {
                assert(r[a.len() + i] == b[i]);
            },
            StaffGroupKind::Brace => {
                assert(r[a.len() + b.len() + i] == c[i]);
            },
        }
    }
    assert forall|j: int| 0 <= j < r.len() implies spec_collect_staff_group_ranges(
        staves,
        (#[trigger] r[j]).2,
    ).contains(r[j]) by {
        if j < a.len() {
            assert(r[j] == a[j]);
            assert(a[j].2 == StaffGroupKind::Barline);
        } else if j < a.len() + b.len() {
            assert(r[j] == b[j - a.len()]);
            assert(b[j - a.len()].2 == StaffGroupKind::Bracket);
        } else {
            assert(r[j] == c[j - a.len() - b.len()]);
            assert(c[j - a.len() - b.len()].2 == StaffGroupKind::Brace);
        }
    }
}

/// Per-staff group marks take precedence: where any staff sets one, the
/// score-wide value plays no part.
pub proof fn lemma_per_staff_marks_override_score_group(staves: Seq<StaffInput>, g1: Seq<char>, g2: Seq<char>)
    requires
        exists|i: int| 0 <= i < staves.len() && #[trigger] has_group_mark(staves[i]),
    ensures
        spec_build_staff_group_ranges(staves, g1) == spec_build_staff_group_ranges(staves, g2),
{
}

/// Without per-staff marks, staves are grouped only for the score-wide
/// values that name a group, and then as one group over all staves.
pub proof fn lemma_score_group_only_when_named(staves: Seq<StaffInput>, g: Seq<char>)
    requires
        !exists|i: int| 0 <= i < staves.len() && #[trigger] has_group_mark(staves[i]),
    ensures
        spec_legacy_staff_group_kind(g) is None ==> spec_build_staff_group_ranges(staves, g).len() == 0,
        spec_legacy_staff_group_kind(g) is Some && staves.len() >= 2 ==> spec_build_staff_group_ranges(staves, g)
            == seq![(0int, staves.len() - 1, spec_legacy_staff_group_kind(g)->0)],
{
}

} // verus!

verus! {

// ─── The score's time signature ────────────────────────────────────────

/// A time signature as (upper, lower, symbol).
pub open spec fn time_view(t: TimeInfo) -> (int, int, Option<Seq<char>>) {
    (t.upper as int, t.lower as int, opt_view(t.symbol))
}

pub open spec fn opt_time_view(t: Option<TimeInfo>) -> Option<(int, int, Option<Seq<char>>)> {
    match t {
        Some(x) => Some(time_view(x)),
        None => None,
    }
}

/// How many slashes a text holds.
pub open spec fn slash_count(s: Seq<char>) -> int
    decreases s.len(),
{
    if s.len() == 0 {
        0
    } else {
        slash_count(s.drop_last()) + if s.last() == '/' {
            1int
        } else {
            0int
        }
    }
}

/// The place of the first slash in a text, or its length when it has none.
pub open spec fn first_slash(s: Seq<char>) -> int
    decreases s.len(),
{
    if s.len() == 0 {
        0
    } else if s[0] == '/' {
        0
    } else {
        1 + first_slash(s.drop_first())
    }
}

/// A number as `str::parse::<i32>` reads the text with white space trimmed.
pub open spec fn parse_trimmed_i32(s: Seq<char>) -> Option<int> {
    spec_parse_i32(vstd::utf8::encode_utf8(trim_ws(s)))
}

/// The time signature a score-wide `time` value names: the common and cut
/// symbols by their names, or two numbers around a single slash.
pub open spec fn spec_parse_time_sig(ts: Seq<char>) -> Option<(int, int, Option<Seq<char>>)> {
    if ts == "C"@ || ts == "c"@ || ts == "common"@ {
        Some((4, 4, Some("common"@)))
    } else if ts == "C|"@ || ts == "c|"@ || ts == "cut"@ {
        Some((2, 2, Some("cut"@)))
    } else if slash_count(ts) == 1 {
        let i = first_slash(ts);
        match (parse_trimmed_i32(ts.take(i)), parse_trimmed_i32(ts.skip(i + 1))) {
            (Some(upper), Some(lower)) => Some((upper, lower, None)),
            _ => None,
        }
    } else {
        None
    }
}

/// Law: the named time signatures are fixed: `C`, `c` and `common`, and
/// only they, give common time (4/4 with the common symbol); `C|`, `c|` and
/// `cut`, and only they, give cut time (2/2 with the cut symbol); any other
/// value that reads gives two numbers and no symbol.
pub proof fn lemma_named_time_signatures(ts: Seq<char>)
    ensures
        spec_parse_time_sig(ts) == Some((4int, 4int, Some("common"@))) <==> (ts == "C"@ || ts == "c"@ || ts
            == "common"@),
        spec_parse_time_sig(ts) == Some((2int, 2int, Some("cut"@))) <==> (ts == "C|"@ || ts == "c|"@ || ts
            == "cut"@),
        spec_parse_time_sig(ts) matches Some((u, l, sym)) ==> sym is None || sym == Some("common"@) || sym == Some(
            "cut"@,
        ),
        spec_parse_time_sig(ts) matches Some((u, l, Some(sym))) ==> (sym == "common"@ && u == 4 && l == 4) || (sym
            == "cut"@ && u == 2 && l == 2),
{
    reveal_strlit("C");
    reveal_strlit("c");
    reveal_strlit("common");
    reveal_strlit("C|");
    reveal_strlit("c|");
    reveal_strlit("cut");
    assert("common"@ != "cut"@) by {
        assert("common"@[1] != "cut"@[1]);
    }
    assert("C"@.len() == 1 && "c"@.len() == 1 && "C|"@.len() == 2 && "c|"@.len() == 2 && "cut"@.len() == 3
        && "common"@.len() == 6);
    assert("C"@ != "C|"@ && "C"@ != "c|"@ && "C"@ != "cut"@);
    assert("c"@ != "C|"@ && "c"@ != "c|"@ && "c"@ != "cut"@);
    assert("common"@ != "C|"@ && "common"@ != "c|"@ && "common"@ != "cut"@) by {
        assert("common"@.len() != "C|"@.len());
        assert("common"@.len() != "cut"@.len());
    }
}

proof fn lemma_first_slash(s: Seq<char>, k: int)
    requires
        0 <= k <= s.len(),
        forall|j: int| 0 <= j < k ==> s[j] != '/',
        k == s.len() || s[k] == '/',
    ensures
        first_slash(s) == k,
    decreases k,
{
    if k > 0 {
        lemma_first_slash(s.drop_first(), k - 1);
    }
}

fn trimmed_i32(s: &str) -> (r: Option<i32>)
    ensures
        match r {
            Some(v) => parse_trimmed_i32(s@) == Some(v as int),
            None => parse_trimmed_i32(s@) is None,
        },
{
    let t = str_trim(s);
    let b = t.as_bytes();
    proof {
        assert(b@.subrange(0, b@.len() as int) =~= b@);
    }
    parse_i32(b, 0, b.len())
}

pub fn parse_time_sig(ts: Option<&str>) -> (r: Option<TimeInfo>)
    ensures
        opt_time_view(r) == match ts {
            Some(t) => spec_parse_time_sig(t@),
            None => None,
        },
{
    let ts = match ts {
        Some(t) => t,
        None => return None,
    };
    if str_eq(ts, "C") || str_eq(ts, "c") || str_eq(ts, "common") {
        return Some(TimeInfo { upper: 4, lower: 4, symbol: Some(owned("common")) });
    }
    if str_eq(ts, "C|") || str_eq(ts, "c|") || str_eq(ts, "cut") {
        return Some(TimeInfo { upper: 2, lower: 2, symbol: Some(owned("cut")) });
    }
    let n = ts.unicode_len();
    let mut count: usize = 0;
    let mut first: usize = n;
    let mut i: usize = 0;
    while i < n
        invariant
            n == ts@.len(),
            i <= n,
            count as int == slash_count(ts@.take(i as int)),
            count <= i,
            first <= n,
            (count == 0) == (first == n),
            first == n ==> forall|j: int| 0 <= j < i ==> ts@[j] != '/',
            first < n ==> first < i && ts@[first as int] == '/' && forall|j: int| 0 <= j < first ==> ts@[j] != '/',
        decreases n - i,
    {
        assert(ts@.take(i + 1).drop_last() =~= ts@.take(i as int));
        if ts.get_char(i) == '/' {
            if first == n {
                first = i;
            }
            count = count + 1;
        }
        i = i + 1;
    }
    assert(ts@.take(n as int) =~= ts@);
    if count != 1 {
        return None;
    }
    proof {
        lemma_first_slash(ts@, first as int);
    }
    let left = ts.substring_char(0, first);
    let right = ts.substring_char(first + 1, n);
    assert(left@ =~= ts@.take(first as int));
    assert(right@ =~= ts@.skip(first + 1));
    let upper = match trimmed_i32(left) {
        Some(v) => v,
        None => return None,
    };
    let lower = match trimmed_i32(right) {
        Some(v) => v,
        None => return None,
    };
    Some(TimeInfo { upper, lower, symbol: None })
}

} // verus!

verus! {

// ─── Lyric continuation across systems ─────────────────────────────────

/// Lyric line states as optional texts.
pub open spec fn states_view(s: Seq<Option<String>>) -> Seq<Option<Seq<char>>> {
    s.map_values(|o: Option<String>| opt_view(o))
}

/// The state of lyric line `li` after an event with these lyric entries: a
/// carried entry keeps the line's state, a hyphen or extender continues it,
/// anything else (or no entry) ends it.
pub open spec fn next_lyric_state(states: Seq<Option<Seq<char>>>, lyrics: Seq<LyricEntry>, li: int) -> Option<Seq<char>> {
    if li < lyrics.len() {
        let e = lyrics[li];
        if e.carry {
            if li < states.len() {
                states[li]
            } else {
                None
            }
        } else if e.continuation@ == "hyphen"@ || e.continuation@ == "extender"@ {
            Some(e.continuation@)
        } else {
            None
        }
    } else {
        None
    }
}

/// A list of states without the ended lines at its end.
pub open spec fn trim_ended(s: Seq<Option<Seq<char>>>) -> Seq<Option<Seq<char>>>
    decreases s.len(),
{
    if s.len() > 0 && s.last() is None {
        trim_ended(s.drop_last())
    } else {
        s
    }
}

/// The lyric line states after an event: only notes, rests and chords
/// change them.
pub open spec fn spec_advance_lyric_states(states: Seq<Option<Seq<char>>>, e: Event) -> Seq<Option<Seq<char>>> {
    if !(e is Note || e is Rest || e is Chord) {
        states
    } else {
        let lyrics = e.spec_lyrics();
        let n = if states.len() >= lyrics.len() {
            states.len()
        } else {
            lyrics.len()
        };
        trim_ended(Seq::new(n, |li: int| next_lyric_state(states, lyrics, li)))
    }
}

/// A copy of a list of lyric states.
pub fn clone_states(states: &[Option<String>]) -> (r: Vec<Option<String>>)
    ensures
        states_view(r@) == states_view(states@),
{
    let mut r: Vec<Option<String>> = Vec::new();
    let mut i: usize = 0;
    while i < states.len()
        invariant
            i <= states@.len(),
            states_view(r@) == states_view(states@.take(i as int)),
        decreases states@.len() - i,
    {
        let ghost before = r@;
        r.push(crate::parser::clone_opt(&states[i]));
        assert(states@.take(i + 1) =~= states@.take(i as int).push(states@[i as int]));
        assert(states_view(r@) =~= states_view(before).push(opt_view(states@[i as int])));
        assert(states_view(r@) =~= states_view(states@.take(i + 1)));
        i = i + 1;
    }
    assert(states@.take(states@.len() as int) =~= states@);
    r
}

pub fn advance_lyric_states(states: &[Option<String>], event: &Event) -> (r: Vec<Option<String>>)
    ensures
        states_view(r@) == spec_advance_lyric_states(states_view(states@), *event),
{
    if !event.is_anchor() {
        return clone_states(states);
    }
    let ghost sv = states_view(states@);
    let lyrics = event.lyrics();
    let line_count = if states.len() >= lyrics.len() {
        states.len()
    } else {
        lyrics.len()
    };
    let ghost full = Seq::new(line_count as nat, |li: int| next_lyric_state(sv, lyrics@, li));
    let mut next_states: Vec<Option<String>> = Vec::new();
    let mut li: usize = 0;
    while li < line_count
        invariant
            li <= line_count,
            sv == states_view(states@),
            full == Seq::new(line_count as nat, |li: int| next_lyric_state(sv, lyrics@, li)),
            states_view(next_states@) == full.take(li as int),
        decreases line_count - li,
    {
        let ghost before = next_states@;
        let next: Option<String> = if li < lyrics.len() {
            let e = &lyrics[li];
            if e.carry {
                if li < states.len() {
                    crate::parser::clone_opt(&states[li])
                } else {
                    None
                }
            } else if str_eq(e.continuation.as_str(), "hyphen") || str_eq(e.continuation.as_str(), "extender") {
                Some(e.continuation.clone())
            } else {
                None
            }
        } else {
            None
        };
        assert(opt_view(next) == full[li as int]);
        next_states.push(next);
        assert(states_view(next_states@) =~= states_view(before).push(opt_view(next)));
        assert(full.take(li + 1) =~= full.take(li as int).push(full[li as int]));
        li = li + 1;
    }
    assert(full.take(line_count as int) =~= full);
    while next_states.len() > 0 && next_states[next_states.len() - 1].is_none()
        invariant
            trim_ended(states_view(next_states@)) == trim_ended(full),
        decreases next_states@.len(),
    {
        let ghost before = next_states@;
        next_states.pop();
        assert(states_view(before).drop_last() =~= states_view(next_states@));
    }
    next_states
}

// ─── Repeat barlines across a system break ─────────────────────────────

/// Line breaks and clef or time changes: what may stand before a system's
/// music.
pub open spec fn is_prefix_event(e: Event) -> bool {
    e is LineBreak || e is Clef || e is TimeSig
}

/// How many prefix events lead a system.
pub open spec fn spec_leading_prefix_count(s: Seq<Event>) -> int
    decreases s.len(),
{
    if s.len() > 0 && is_prefix_event(s[0]) {
        1 + spec_leading_prefix_count(s.drop_first())
    } else {
        0
    }
}

proof fn lemma_leading_prefix_count(s: Seq<Event>, k: int)
    requires
        0 <= k <= s.len(),
        forall|j: int| 0 <= j < k ==> is_prefix_event(#[trigger] s[j]),
        k == s.len() || !is_prefix_event(s[k]),
    ensures
        spec_leading_prefix_count(s) == k,
    decreases k,
{
    if k > 0 {
        assert forall|j: int| 0 <= j < k - 1 implies is_prefix_event(#[trigger] s.drop_first()[j]) by {
            assert(s.drop_first()[j] == s[j + 1]);
        }
        lemma_leading_prefix_count(s.drop_first(), k - 1);
    }
}

pub fn leading_prefix_event_count(events: &[Event]) -> (r: usize)
    ensures
        r as int == spec_leading_prefix_count(events@),
        r <= events@.len(),
{
    let mut i: usize = 0;
    while i < events.len()
        invariant
            i <= events@.len(),
            forall|j: int| 0 <= j < i ==> is_prefix_event(#[trigger] events@[j]),
        ensures
            i <= events@.len(),
            forall|j: int| 0 <= j < i ==> is_prefix_event(#[trigger] events@[j]),
            i == events@.len() || !is_prefix_event(events@[i as int]),
        decreases events@.len() - i,
    {
        let is_prefix = match &events[i] {
            Event::LineBreak | Event::Clef(_) | Event::TimeSig(_) => true,
            _ => false,
        };
        if !is_prefix {
            break;
        }
        i = i + 1;
    }
    proof {
        lemma_leading_prefix_count(events@, i as int);
    }
    i
}

/// A barline with the given style.
pub open spec fn is_barline_styled(e: Event, style: Seq<char>) -> bool {
    e matches Event::Barline(b) && b.style@ == style
}

/// Whether a system's music opens with a repeat-start barline.
pub open spec fn spec_starts_with_repeat_start(s: Seq<Event>) -> bool {
    let k = spec_leading_prefix_count(s);
    k < s.len() && is_barline_styled(s[k], "repeat-start"@)
}

fn barline_style_is(e: &Event, style: &str) -> (r: bool)
    ensures
        r == is_barline_styled(*e, style@),
{
    match e {
        Event::Barline(b) => str_eq(b.style.as_str(), style),
        _ => false,
    }
}

pub fn starts_with_repeat_start(events: &[Event]) -> (r: bool)
    ensures
        r == spec_starts_with_repeat_start(events@),
{
    let k = leading_prefix_event_count(events);
    k < events.len() && barline_style_is(&events[k], "repeat-start")
}

/// Whether a system ends with a barline that both closes and opens a repeat.
pub open spec fn ends_with_repeat_both(s: Seq<Event>) -> bool {
    s.len() > 0 && is_barline_styled(s.last(), "repeat-both"@)
}

/// A freshly made repeat-start barline.
pub open spec fn is_new_repeat_start(e: Event) -> bool {
    e matches Event::Barline(b) && b.style@ == "repeat-start"@ && b.ending is None && !b.ending_start
        && !b.ending_end && b.color is None
}

/// A system after the one before it ended with a repeat-both barline opens
/// with a repeat-start barline, placed after its prefix events, unless it
/// already has one; every other system stays as it is.
pub open spec fn continued_system(prev_ends_repeat_both: bool, sys: Seq<Event>, out: Seq<Event>) -> bool {
    if prev_ends_repeat_both && !spec_starts_with_repeat_start(sys) {
        let k = spec_leading_prefix_count(sys);
        &&& out.len() == sys.len() + 1
        &&& out.take(k) == sys.take(k)
        &&& is_new_repeat_start(out[k])
        &&& out.skip(k + 1) == sys.skip(k)
    } else {
        out == sys
    }
}

pub fn add_repeat_both_continuations(systems: Vec<Vec<Event>>) -> (result: Vec<Vec<Event>>)
    ensures
        result@.len() == systems@.len(),
        forall|i: int|
            0 <= i < systems@.len() ==> continued_system(
                i > 0 && ends_with_repeat_both(systems@[i - 1]@),
                systems@[i]@,
                #[trigger] result@[i]@,
            ),
{
    let ghost ss = systems@;
    let mut result: Vec<Vec<Event>> = Vec::new();
    let mut prev_ended = false;
    for system in it: systems.into_iter()
        invariant
            it.seq() == ss,
            result@.len() == it.index(),
            prev_ended == (it.index() > 0 && ends_with_repeat_both(ss[it.index() - 1]@)),
            forall|i: int|
                0 <= i < result@.len() ==> continued_system(
                    i > 0 && ends_with_repeat_both(ss[i - 1]@),
                    ss[i]@,
                    #[trigger] result@[i]@,
                ),
    {
        let ghost k = it.index() as int;
        let mut events = system;
        let ghost sys = events@;
        let ends = events.len() > 0 && barline_style_is(&events[events.len() - 1], "repeat-both");
        if prev_ended && !starts_with_repeat_start(&events) {
            let insert_at = leading_prefix_event_count(&events);
            events.insert(insert_at, Event::Barline(Barline::new("repeat-start")));
            assert(events@.take(insert_at as int) =~= sys.take(insert_at as int));
            assert(events@.skip(insert_at + 1) =~= sys.skip(insert_at as int));
        }
        result.push(events);
        prev_ended = ends;
        assert(result@[k]@ == result@.last()@);
    }
    result
}

} // verus!

verus! {

// ─── Preparing each staff's systems ────────────────────────────────────

/// One system of one staff, ready for layout: its music without the
/// leading line breaks and clef or time changes, and the clef, time
/// signature and lyric line states it starts with.
#[derive(Debug)]
pub struct PreparedSystem {
    pub events: Vec<Event>,
    pub clef: Option<String>,
    pub time: Option<TimeInfo>,
    pub show_time_prefix: bool,
    pub lyric_prefix_states: Vec<Option<String>>,
}

/// How many leading events satisfy `p`.
pub open spec fn leading_run(s: Seq<Event>, p: spec_fn(Event) -> bool) -> int
    decreases s.len(),
{
    if s.len() > 0 && p(s[0]) {
        1 + leading_run(s.drop_first(), p)
    } else {
        0
    }
}

proof fn lemma_leading_run(s: Seq<Event>, p: spec_fn(Event) -> bool, k: int)
    requires
        0 <= k <= s.len(),
        forall|j: int| 0 <= j < k ==> p(#[trigger] s[j]),
        k == s.len() || !p(s[k]),
    ensures
        leading_run(s, p) == k,
    decreases k,
{
    if k > 0 {
        assert forall|j: int| 0 <= j < k - 1 implies p(#[trigger] s.drop_first()[j]) by {
            assert(s.drop_first()[j] == s[j + 1]);
        }
        lemma_leading_run(s.drop_first(), p, k - 1);
    }
}

pub open spec fn line_break_pred() -> spec_fn(Event) -> bool {
    |e: Event| e is LineBreak
}

pub open spec fn header_pred() -> spec_fn(Event) -> bool {
    |e: Event| e is Clef || e is TimeSig
}

/// Where a system's music starts: after its leading line breaks and the
/// clef and time changes that follow them.
pub open spec fn system_start(s: Seq<Event>) -> int {
    let lb = leading_run(s, line_break_pred());
    lb + leading_run(s.skip(lb), header_pred())
}

/// The clef, time signature and time-prefix flag after one leading change.
pub open spec fn header_apply(
    h: (Option<Seq<char>>, Option<(int, int, Option<Seq<char>>)>, bool),
    e: Event,
) -> (Option<Seq<char>>, Option<(int, int, Option<Seq<char>>)>, bool) {
    match e {
        Event::Clef(c) => (Some(c.clef@), h.1, h.2),
        Event::TimeSig(t) => (h.0, Some((t.upper as int, t.lower as int, opt_view(t.symbol))), true),
        _ => h,
    }
}

pub open spec fn header_fold(
    items: Seq<Event>,
    h: (Option<Seq<char>>, Option<(int, int, Option<Seq<char>>)>, bool),
) -> (Option<Seq<char>>, Option<(int, int, Option<Seq<char>>)>, bool)
    decreases items.len(),
{
    if items.len() == 0 {
        h
    } else {
        header_apply(header_fold(items.drop_last(), h), items.last())
    }
}

/// The clef, time signature and lyric states after one event of a system's
/// music.
pub open spec fn content_apply(
    st: (Option<Seq<char>>, Option<(int, int, Option<Seq<char>>)>, Seq<Option<Seq<char>>>),
    e: Event,
) -> (Option<Seq<char>>, Option<(int, int, Option<Seq<char>>)>, Seq<Option<Seq<char>>>) {
    let lyrics = spec_advance_lyric_states(st.2, e);
    match e {
        Event::Clef(c) => (Some(c.clef@), st.1, lyrics),
        Event::TimeSig(t) => (st.0, Some((t.upper as int, t.lower as int, opt_view(t.symbol))), lyrics),
        _ => (st.0, st.1, lyrics),
    }
}

pub open spec fn content_fold(
    evs: Seq<Event>,
    st: (Option<Seq<char>>, Option<(int, int, Option<Seq<char>>)>, Seq<Option<Seq<char>>>),
) -> (Option<Seq<char>>, Option<(int, int, Option<Seq<char>>)>, Seq<Option<Seq<char>>>)
    decreases evs.len(),
{
    if evs.len() == 0 {
        st
    } else {
        content_apply(content_fold(evs.drop_last(), st), evs.last())
    }
}

/// The clef, time signature and time-prefix flag a system starts with,
/// given what was in force before it and whether the time is shown anyway.
pub open spec fn system_header(
    sys: Seq<Event>,
    st: (Option<Seq<char>>, Option<(int, int, Option<Seq<char>>)>, Seq<Option<Seq<char>>>),
    show: bool,
) -> (Option<Seq<char>>, Option<(int, int, Option<Seq<char>>)>, bool) {
    let lb = leading_run(sys, line_break_pred());
    header_fold(sys.subrange(lb, system_start(sys)), (st.0, st.1, show))
}

/// What is in force after a system: its header, then every change in its
/// music.
pub open spec fn after_system(
    st: (Option<Seq<char>>, Option<(int, int, Option<Seq<char>>)>, Seq<Option<Seq<char>>>),
    sys: Seq<Event>,
) -> (Option<Seq<char>>, Option<(int, int, Option<Seq<char>>)>, Seq<Option<Seq<char>>>) {
    let h = system_header(sys, st, false);
    content_fold(sys.skip(system_start(sys)), (h.0, h.1, st.2))
}

proof fn lemma_leading_run_bounds(s: Seq<Event>, p: spec_fn(Event) -> bool)
    ensures
        0 <= leading_run(s, p) <= s.len(),
    decreases s.len(),
{
    if s.len() > 0 && p(s[0]) {
        lemma_leading_run_bounds(s.drop_first(), p);
    }
}

proof fn lemma_header_fold_first_clef(
    items: Seq<Event>,
    h: (Option<Seq<char>>, Option<(int, int, Option<Seq<char>>)>, bool),
    c: crate::types::ClefChange,
)
    requires
        items.len() > 0,
        items[0] == Event::Clef(c),
        forall|j: int| 0 < j < items.len() ==> !(#[trigger] items[j] is Clef),
    ensures
        header_fold(items, h).0 == Some(c.clef@),
    decreases items.len(),
{
    if items.len() > 1 {
        lemma_header_fold_first_clef(items.drop_last(), h, c);
        assert(!(items.last() is Clef));
    }
}

proof fn lemma_content_fold_keeps_clef(
    evs: Seq<Event>,
    st: (Option<Seq<char>>, Option<(int, int, Option<Seq<char>>)>, Seq<Option<Seq<char>>>),
)
    requires
        forall|j: int| 0 <= j < evs.len() ==> !(#[trigger] evs[j] is Clef),
    ensures
        content_fold(evs, st).0 == st.0,
    decreases evs.len(),
{
    if evs.len() > 0 {
        lemma_content_fold_keeps_clef(evs.drop_last(), st);
        assert(!(evs.last() is Clef));
    }
}

proof fn lemma_header_fold_first_time(
    items: Seq<Event>,
    h: (Option<Seq<char>>, Option<(int, int, Option<Seq<char>>)>, bool),
    t: crate::types::TimeSig,
)
    requires
        items.len() > 0,
        items[0] == Event::TimeSig(t),
        forall|j: int| 0 < j < items.len() ==> !(#[trigger] items[j] is TimeSig),
    ensures
        header_fold(items, h).1 == Some((t.upper as int, t.lower as int, opt_view(t.symbol))),
        header_fold(items, h).2,
    decreases items.len(),
{
    if items.len() > 1 {
        lemma_header_fold_first_time(items.drop_last(), h, t);
        assert(!(items.last() is TimeSig));
    }
}

/// Law: a time signature that opens a system's music (after the system's
/// leading line breaks) is that system's time signature, and the system
/// shows it at its start, unless another time signature follows it among
/// the leading changes.
pub proof fn lemma_leading_time_sets_system_time(
    p: PreparedSystem,
    sys: Seq<Event>,
    st: (Option<Seq<char>>, Option<(int, int, Option<Seq<char>>)>, Seq<Option<Seq<char>>>),
    show: bool,
    t: crate::types::TimeSig,
)
    requires
        prepared_as(p, sys, st, show),
        leading_run(sys, line_break_pred()) < sys.len(),
        sys[leading_run(sys, line_break_pred())] == Event::TimeSig(t),
        forall|j: int|
            leading_run(sys, line_break_pred()) < j < system_start(sys) ==> !(#[trigger] sys[j] is TimeSig),
    ensures
        opt_time_view(p.time) == Some((t.upper as int, t.lower as int, opt_view(t.symbol))),
        p.show_time_prefix,
{
    let lb = leading_run(sys, line_break_pred());
    lemma_leading_run_bounds(sys, line_break_pred());
    let rest = sys.skip(lb);
    assert(rest[0] == sys[lb]);
    assert(leading_run(rest, header_pred()) == 1 + leading_run(rest.drop_first(), header_pred()));
    lemma_leading_run_bounds(rest.drop_first(), header_pred());
    let ss = system_start(sys);
    let items = sys.subrange(lb, ss);
    assert(items[0] == sys[lb]);
    assert forall|j: int| 0 < j < items.len() implies !(#[trigger] items[j] is TimeSig) by {
        assert(items[j] == sys[lb + j]);
    }
    lemma_header_fold_first_time(items, (st.0, st.1, show), t);
}

/// Law: a clef change that opens a system's music (after the system's
/// leading line breaks) is that system's clef, unless another clef change
/// follows it among the leading changes; and when the system changes clef
/// no more, it is the clef in force for the system after it (see
/// `state_before`).
pub proof fn lemma_leading_clef_sets_system_clef(
    p: PreparedSystem,
    sys: Seq<Event>,
    st: (Option<Seq<char>>, Option<(int, int, Option<Seq<char>>)>, Seq<Option<Seq<char>>>),
    show: bool,
    c: crate::types::ClefChange,
)
    requires
        prepared_as(p, sys, st, show),
        leading_run(sys, line_break_pred()) < sys.len(),
        sys[leading_run(sys, line_break_pred())] == Event::Clef(c),
    ensures
        (forall|j: int| leading_run(sys, line_break_pred()) < j < system_start(sys) ==> !(#[trigger] sys[j] is Clef))
            ==> opt_view(p.clef) == Some(c.clef@),
        (forall|j: int| leading_run(sys, line_break_pred()) < j < sys.len() ==> !(#[trigger] sys[j] is Clef))
            ==> after_system(st, sys).0 == Some(c.clef@),
{
    let lb = leading_run(sys, line_break_pred());
    lemma_leading_run_bounds(sys, line_break_pred());
    let rest = sys.skip(lb);
    lemma_leading_run_bounds(rest, header_pred());
    assert(rest[0] == sys[lb]);
    assert(leading_run(rest, header_pred()) == 1 + leading_run(rest.drop_first(), header_pred()));
    lemma_leading_run_bounds(rest.drop_first(), header_pred());
    let ss = system_start(sys);
    assert(lb < ss <= sys.len());
    let items = sys.subrange(lb, ss);
    assert(items[0] == sys[lb]);
    if forall|j: int| lb < j < ss ==> !(#[trigger] sys[j] is Clef) {
        assert forall|j: int| 0 < j < items.len() implies !(#[trigger] items[j] is Clef) by {
            assert(items[j] == sys[lb + j]);
        }
        lemma_header_fold_first_clef(items, (st.0, st.1, show), c);
        lemma_header_fold_first_clef(items, (st.0, st.1, false), c);
    }
    if forall|j: int| lb < j < sys.len() ==> !(#[trigger] sys[j] is Clef) {
        let tail = sys.skip(ss);
        assert forall|j: int| 0 <= j < tail.len() implies !(#[trigger] tail[j] is Clef) by {
            assert(tail[j] == sys[ss + j]);
        }
        let h = system_header(sys, st, false);
        lemma_content_fold_keeps_clef(tail, (h.0, h.1, st.2));
    }
}

/// What is in force before system `k`.
pub open spec fn state_before(
    systems: Seq<Seq<Event>>,
    k: int,
    init: (Option<Seq<char>>, Option<(int, int, Option<Seq<char>>)>, Seq<Option<Seq<char>>>),
) -> (Option<Seq<char>>, Option<(int, int, Option<Seq<char>>)>, Seq<Option<Seq<char>>>)
    decreases k,
{
    if k <= 0 {
        init
    } else {
        after_system(state_before(systems, k - 1, init), systems[k - 1])
    }
}

/// A prepared system as the rules above make it from `sys` and what is in
/// force before it.
pub open spec fn prepared_as(
    p: PreparedSystem,
    sys: Seq<Event>,
    st: (Option<Seq<char>>, Option<(int, int, Option<Seq<char>>)>, Seq<Option<Seq<char>>>),
    show: bool,
) -> bool {
    let h = system_header(sys, st, show);
    &&& p.events@ == sys.skip(system_start(sys))
    &&& opt_view(p.clef) == h.0
    &&& opt_time_view(p.time) == h.1
    &&& p.show_time_prefix == h.2
    &&& states_view(p.lyric_prefix_states@) == st.2
}

pub open spec fn initial_state(initial_clef: Option<&str>, initial_time: Option<&TimeInfo>) -> (
    Option<Seq<char>>,
    Option<(int, int, Option<Seq<char>>)>,
    Seq<Option<Seq<char>>>,
) {
    (opt_str_view(initial_clef), match initial_time {
        Some(t) => Some(time_view(*t)),
        None => None,
    }, Seq::empty())
}

fn clone_time(t: &Option<TimeInfo>) -> (r: Option<TimeInfo>)
    ensures
        opt_time_view(r) == opt_time_view(*t),
{
    match t {
        Some(x) => Some(TimeInfo { upper: x.upper, lower: x.lower, symbol: crate::parser::clone_opt(&x.symbol) }),
        None => None,
    }
}

fn time_of(t: &crate::types::TimeSig) -> (r: TimeInfo)
    ensures
        time_view(r) == (t.upper as int, t.lower as int, opt_view(t.symbol)),
{
    TimeInfo { upper: t.upper, lower: t.lower, symbol: crate::parser::clone_opt(&t.symbol) }
}

pub fn prepare_staff_systems(
    systems: Vec<Vec<Event>>,
    initial_clef: Option<&str>,
    initial_time: Option<&TimeInfo>,
    show_initial_time: bool,
) -> (prepared: Vec<PreparedSystem>)
    ensures
        prepared@.len() == systems@.len(),
        forall|i: int|
            0 <= i < systems@.len() ==> prepared_as(
                #[trigger] prepared@[i],
                systems@[i]@,
                state_before(crate::layout::parts_view(systems@), i, initial_state(initial_clef, initial_time)),
                i == 0 && show_initial_time && initial_time is Some,
            ),
{
    let ghost sv = crate::layout::parts_view(systems@);
    let ghost init = initial_state(initial_clef, initial_time);
    let mut prepared: Vec<PreparedSystem> = Vec::new();
    let mut current_clef: Option<String> = match initial_clef {
        Some(c) => Some(owned(c)),
        None => None,
    };
    let mut current_time: Option<TimeInfo> = match initial_time {
        Some(t) => Some(TimeInfo { upper: t.upper, lower: t.lower, symbol: crate::parser::clone_opt(&t.symbol) }),
        None => None,
    };
    let mut lyric_states: Vec<Option<String>> = Vec::new();
    let mut idx: usize = 0;
    let total = systems.len();
    for sys in it: systems.into_iter()
        invariant
            crate::layout::parts_view(it.seq()) == sv,
            it.seq().len() == total,
            idx == it.index(),
            prepared@.len() == idx,
            (opt_view(current_clef), opt_time_view(current_time), states_view(lyric_states@)) == state_before(sv, idx as int, init),
            init.1 is Some <==> initial_time is Some,
            forall|i: int|
                0 <= i < idx ==> prepared_as(
                    #[trigger] prepared@[i],
                    sv[i],
                    state_before(sv, i, init),
                    i == 0 && show_initial_time && initial_time is Some,
                ),
    {
        let ghost st = state_before(sv, idx as int, init);
        let ghost s = sys@;
        assert(s == sv[idx as int]);
        let mut sys = sys;
        let mut system_clef = crate::parser::clone_opt(&current_clef);
        let mut system_time = clone_time(&current_time);
        let lyric_prefix_states = clone_states(lyric_states.as_slice());
        let mut show_time = idx == 0 && show_initial_time && system_time.is_some();
        let ghost show0 = show_time;
        let mut start: usize = 0;
        while start < sys.len() && crate::parser::is_line_break(&sys[start])
            invariant
                s == sys@,
                start <= s.len(),
                forall|j: int| 0 <= j < start ==> (line_break_pred())(#[trigger] s[j]),
            decreases s.len() - start,
        {
            start = start + 1;
        }
        proof {
            lemma_leading_run(s, line_break_pred(), start as int);
        }
        let lb = start;
        let ghost hs = s.skip(lb as int);
        loop
            invariant
                s == sys@,
                lb == leading_run(s, line_break_pred()),
                lb <= start <= s.len(),
                forall|j: int| lb <= j < start ==> (header_pred())(#[trigger] s[j]),
                (opt_view(system_clef), opt_time_view(system_time), show_time) == header_fold(
                    s.subrange(lb as int, start as int),
                    (st.0, st.1, show0),
                ),
            ensures
                s == sys@,
                lb <= start <= s.len(),
                forall|j: int| lb <= j < start ==> (header_pred())(#[trigger] s[j]),
                start == s.len() || !(header_pred())(s[start as int]),
                (opt_view(system_clef), opt_time_view(system_time), show_time) == header_fold(
                    s.subrange(lb as int, start as int),
                    (st.0, st.1, show0),
                ),
            decreases s.len() - start,
        {
            if start >= sys.len() {
                break;
            }
            assert(s.subrange(lb as int, start + 1).drop_last() =~= s.subrange(lb as int, start as int));
            assert(s.subrange(lb as int, start + 1).last() == s[start as int]);
            match &sys[start] {
                Event::Clef(c) => {
                    system_clef = Some(c.clef.clone());
                    start = start + 1;
                },
                Event::TimeSig(t) => {
                    system_time = Some(time_of(t));
                    show_time = true;
                    start = start + 1;
                },
                _ => {
                    break;
                },
            }
        }
        proof {
            assert forall|j: int| 0 <= j < start - lb implies (header_pred())(#[trigger] hs[j]) by {
                assert(hs[j] == s[lb + j]);
            }
            if start < s.len() {
                assert(hs[start - lb] == s[start as int]);
            }
            lemma_leading_run(hs, header_pred(), start - lb);
        }
        let cleaned = sys.split_off(start);
        assert(cleaned@ == s.skip(system_start(s)));
        current_clef = crate::parser::clone_opt(&system_clef);
        current_time = clone_time(&system_time);
        let ghost h0 = (opt_view(current_clef), opt_time_view(current_time), states_view(lyric_states@));
        assert(h0 == (system_header(s, st, false).0, system_header(s, st, false).1, st.2)) by {
            lemma_header_show_free(s.subrange(lb as int, start as int), st.0, st.1, show0, false);
        }
        let mut k: usize = 0;
        while k < cleaned.len()
            invariant
                k <= cleaned@.len(),
                (opt_view(current_clef), opt_time_view(current_time), states_view(lyric_states@)) == content_fold(
                    cleaned@.take(k as int),
                    h0,
                ),
            decreases cleaned@.len() - k,
        {
            assert(cleaned@.take(k + 1).drop_last() =~= cleaned@.take(k as int));
            assert(cleaned@.take(k + 1).last() == cleaned@[k as int]);
            let ev = &cleaned[k];
            match ev {
                Event::Clef(c) => {
                    current_clef = Some(c.clef.clone());
                },
                Event::TimeSig(t) => {
                    current_time = Some(time_of(t));
                },
                _ => {},
            }
            lyric_states = advance_lyric_states(lyric_states.as_slice(), ev);
            k = k + 1;
        }
        assert(cleaned@.take(cleaned@.len() as int) =~= cleaned@);
        let ghost before = prepared@;
        prepared.push(
            PreparedSystem {
                events: cleaned,
                clef: system_clef,
                time: system_time,
                show_time_prefix: show_time,
                lyric_prefix_states,
            },
        );
        proof {
            assert(prepared@[idx as int] == prepared@.last());
            assert forall|i: int| 0 <= i < idx + 1 implies prepared_as(
                #[trigger] prepared@[i],
                sv[i],
                state_before(sv, i, init),
                i == 0 && show_initial_time && initial_time is Some,
            ) by {
                if i < idx {
                    assert(prepared@[i] == before[i]);
                } else {
                    assert(show0 == (idx == 0 && show_initial_time && st.1 is Some));
                    if idx == 0 {
                        assert(st == init);
                    }
                }
            }
        }
        idx = idx + 1;
    }
    prepared
}

/// The clef and time a header leaves do not depend on whether the time was
/// to be shown.
proof fn lemma_header_show_free(
    items: Seq<Event>,
    clef: Option<Seq<char>>,
    time: Option<(int, int, Option<Seq<char>>)>,
    a: bool,
    b: bool,
)
    ensures
        header_fold(items, (clef, time, a)).0 == header_fold(items, (clef, time, b)).0,
        header_fold(items, (clef, time, a)).1 == header_fold(items, (clef, time, b)).1,
    decreases items.len(),
{
    if items.len() > 0 {
        lemma_header_show_free(items.drop_last(), clef, time, a, b);
    }
}

} // verus!

verus! {

// ─── Instrument names ──────────────────────────────────────────────────

/// The tuplet style a score uses unless it names one.
pub fn default_tuplet_style() -> (r: String)
    ensures
        r@ == "bracket"@,
{
    owned("bracket")
}

/// `&`, `#` and `=` in an instrument name stand for the flat, sharp and
/// natural signs.
pub open spec fn normalize_char(c: char) -> char {
    if c == '&' {
        '\u{266d}'
    } else if c == '#' {
        '\u{266f}'
    } else if c == '=' {
        '\u{266e}'
    } else {
        c
    }
}

pub open spec fn spec_normalize_instrument_name(s: Seq<char>) -> Seq<char> {
    s.map_values(|c: char| normalize_char(c))
}

pub fn normalize_instrument_name(name: &str) -> (r: String)
    ensures
        r@ == spec_normalize_instrument_name(name@),
{
    let mut r = String::new();
    let n = name.unicode_len();
    let mut i: usize = 0;
    while i < n
        invariant
            n == name@.len(),
            i <= n,
            r@ == spec_normalize_instrument_name(name@.take(i as int)),
        decreases n - i,
    {
        let c = name.get_char(i);
        let d = if c == '&' {
            '\u{266d}'
        } else if c == '#' {
            '\u{266f}'
        } else if c == '=' {
            '\u{266e}'
        } else {
            c
        };
        push_char(&mut r, d);
        assert(name@.take(i + 1) =~= name@.take(i as int).push(c));
        assert(r@ =~= spec_normalize_instrument_name(name@.take(i + 1)));
        i = i + 1;
    }
    assert(name@.take(n as int) =~= name@);
    r
}

/// Where `" in "` first occurs in a text, if it does.
pub open spec fn find_in_word(s: Seq<char>) -> Option<int> {
    if exists|i: int| 0 <= i && i + 4 <= s.len() && #[trigger] s.subrange(i, i + 4) == " in "@ {
        Some(choose|i: int| 0 <= i && i + 4 <= s.len() && #[trigger] s.subrange(i, i + 4) == " in "@
            && forall|j: int| 0 <= j < i ==> #[trigger] s.subrange(j, j + 4) != " in "@)
    } else {
        None
    }
}

/// Scanning a text left to right for its words: the words closed so far and
/// the one being read. White space ends a word.
pub open spec fn word_scan(s: Seq<char>) -> (Seq<Seq<char>>, Seq<char>)
    decreases s.len(),
{
    if s.len() == 0 {
        (Seq::empty(), Seq::empty())
    } else {
        let (done, cur) = word_scan(s.drop_last());
        if is_unicode_whitespace(s.last()) {
            if cur.len() > 0 {
                (done.push(cur), Seq::empty())
            } else {
                (done, cur)
            }
        } else {
            (done, cur.push(s.last()))
        }
    }
}

/// The white-space separated words of a text, as `str::split_whitespace`
/// gives them.
pub open spec fn words_of(s: Seq<char>) -> Seq<Seq<char>> {
    let (done, cur) = word_scan(s);
    if cur.len() > 0 {
        done.push(cur)
    } else {
        done
    }
}

/// `line` with `w` appended, a space between when `line` is not empty.
pub open spec fn join_word(line: Seq<char>, w: Seq<char>) -> Seq<char> {
    if line.len() > 0 {
        line.push(' ') + w
    } else {
        w
    }
}

/// The two lines the words fill: each word goes to the first line while it
/// is shorter than `half` characters, and to the second line after that.
pub open spec fn fill_lines(ws: Seq<Seq<char>>, half: int) -> (Seq<char>, Seq<char>)
    decreases ws.len(),
{
    if ws.len() == 0 {
        (Seq::empty(), Seq::empty())
    } else {
        let (first, second) = fill_lines(ws.drop_last(), half);
        if first.len() < half {
            (join_word(first, ws.last()), second)
        } else {
            (first, join_word(second, ws.last()))
        }
    }
}

/// The lines an instrument name is set in: a short name on one line; a long
/// one broken before `in` (as in "Clarinet in B♭"), or else into two lines
/// of about equal length at word boundaries.
pub open spec fn spec_instrument_name_lines(name: Seq<char>) -> Seq<Seq<char>> {
    let t = trim_ws(spec_normalize_instrument_name(name));
    if t.len() == 0 {
        Seq::empty()
    } else if t.len() <= 12 {
        seq![t]
    } else {
        match find_in_word(t) {
            Some(i) => seq![trim_ws(t.take(i)), trim_ws(t.skip(i + 1))],
            None => {
                let ws = words_of(t);
                if ws.len() <= 1 {
                    seq![t]
                } else {
                    let (first, second) = fill_lines(ws, ((t.len() + 1) / 2) as int);
                    if second.len() == 0 {
                        seq![first]
                    } else {
                        seq![first, second]
                    }
                }
            },
        }
    }
}

pub open spec fn lines_view(v: Seq<String>) -> Seq<Seq<char>> {
    v.map_values(|s: String| s@)
}

fn find_in(t: &str) -> (r: Option<usize>)
    ensures
        match r {
            Some(i) => find_in_word(t@) == Some(i as int) && i + 4 <= t@.len(),
            None => find_in_word(t@) is None,
        },
{
    let n = t.unicode_len();
    let mut i: usize = 0;
    proof {
        reveal_strlit(" in ");
    }
    while n >= 4 && i <= n - 4
        invariant
            n == t@.len(),
            i <= n,
            " in "@ == seq![' ', 'i', 'n', ' '],
            forall|j: int| 0 <= j < i && j + 4 <= n ==> #[trigger] t@.subrange(j, j + 4) != " in "@,
        decreases n - i,
    {
        if t.get_char(i) == ' ' && t.get_char(i + 1) == 'i' && t.get_char(i + 2) == 'n' && t.get_char(i + 3) == ' ' {
            assert(t@.subrange(i as int, i + 4) =~= " in "@);
            assert(find_in_word(t@) == Some(i as int)) by {
                let c = choose|k: int| 0 <= k && k + 4 <= t@.len() && #[trigger] t@.subrange(k, k + 4) == " in "@
                    && forall|j: int| 0 <= j < k ==> #[trigger] t@.subrange(j, j + 4) != " in "@;
                assert(exists|k: int| 0 <= k && k + 4 <= t@.len() && #[trigger] t@.subrange(k, k + 4) == " in "@
                    && forall|j: int| 0 <= j < k ==> #[trigger] t@.subrange(j, j + 4) != " in "@) by {
                    assert forall|j: int| 0 <= j < i implies #[trigger] t@.subrange(j, j + 4) != " in "@ by {}
                }
                if c < i {
                    assert(t@.subrange(c, c + 4) != " in "@);
                } else if c > i {
                    assert(t@.subrange(i as int, i + 4) != " in "@);
                }
            }
            return Some(i);
        }
        proof {
            if t@.subrange(i as int, i + 4) == " in "@ {
                assert(t@.subrange(i as int, i + 4)[0] == ' ');
                assert(t@.subrange(i as int, i + 4)[1] == 'i');
                assert(t@.subrange(i as int, i + 4)[2] == 'n');
                assert(t@.subrange(i as int, i + 4)[3] == ' ');
            }
        }
        i = i + 1;
    }
    None
}

/// Appends the characters of `w` to `dst`.
fn push_text(dst: &mut String, w: &str)
    ensures
        final(dst)@ == old(dst)@ + w@,
{
    let n = w.unicode_len();
    let mut i: usize = 0;
    let ghost start = dst@;
    while i < n
        invariant
            n == w@.len(),
            i <= n,
            dst@ == start + w@.take(i as int),
        decreases n - i,
    {
        push_char(dst, w.get_char(i));
        assert(w@.take(i + 1) =~= w@.take(i as int).push(w@[i as int]));
        assert(dst@ =~= start + w@.take(i + 1));
        i = i + 1;
    }
    assert(w@.take(n as int) =~= w@);
}

fn split_words(t: &str) -> (ws: Vec<String>)
    ensures
        lines_view(ws@) == words_of(t@),
{
    let n = t.unicode_len();
    let mut ws: Vec<String> = Vec::new();
    let mut cur = String::new();
    let mut i: usize = 0;
    while i < n
        invariant
            n == t@.len(),
            i <= n,
            (lines_view(ws@), cur@) == word_scan(t@.take(i as int)),
        decreases n - i,
    {
        let c = t.get_char(i);
        assert(t@.take(i + 1).drop_last() =~= t@.take(i as int));
        assert(t@.take(i + 1).last() == c);
        if is_whitespace_char_unicode(c) {
            if cur.unicode_len() > 0 {
                let ghost before = ws@;
                let ghost w = cur@;
                ws.push(cur);
                cur = String::new();
                assert(lines_view(ws@) =~= lines_view(before).push(w));
            }
        } else {
            push_char(&mut cur, c);
        }
        i = i + 1;
    }
    assert(t@.take(n as int) =~= t@);
    if cur.unicode_len() > 0 {
        let ghost before = ws@;
        let ghost w = cur@;
        ws.push(cur);
        assert(lines_view(ws@) =~= lines_view(before).push(w));
    }
    ws
}

fn is_whitespace_char_unicode(c: char) -> (r: bool)
    ensures
        r == is_unicode_whitespace(c),
{
    let u = c as u32;
    (9 <= u && u <= 13) || u == 32 || u == 0x85 || u == 0xA0 || u == 0x1680 || (0x2000 <= u && u <= 0x200A)
        || u == 0x2028 || u == 0x2029 || u == 0x202F || u == 0x205F || u == 0x3000
}

pub fn instrument_name_lines(name: &str) -> (lines: Vec<String>)
    ensures
        lines_view(lines@) == spec_instrument_name_lines(name@),
{
    let normalized = normalize_instrument_name(name);
    let trimmed = str_trim(normalized.as_str());
    let ghost t = trimmed@;
    let count = trimmed.unicode_len();
    let mut lines: Vec<String> = Vec::new();
    if count == 0 {
        assert(lines_view(lines@) =~= spec_instrument_name_lines(name@));
        return lines;
    }
    if count <= 12 {
        lines.push(owned(trimmed));
        assert(lines_view(lines@) =~= spec_instrument_name_lines(name@));
        return lines;
    }
    if let Some(idx) = find_in(trimmed) {
        let head = trimmed.substring_char(0, idx);
        let tail = trimmed.substring_char(idx + 1, count);
        assert(head@ =~= t.take(idx as int));
        assert(tail@ =~= t.skip(idx + 1));
        lines.push(owned(str_trim(head)));
        lines.push(owned(str_trim(tail)));
        assert(lines_view(lines@) =~= spec_instrument_name_lines(name@));
        return lines;
    }
    let words = split_words(trimmed);
    if words.len() <= 1 {
        lines.push(owned(trimmed));
        assert(lines_view(lines@) =~= spec_instrument_name_lines(name@));
        return lines;
    }
    let half = count / 2 + count % 2;
    assert(half == (t.len() + 1) / 2);
    let mut first = String::new();
    let mut second = String::new();
    let mut k: usize = 0;
    while k < words.len()
        invariant
            k <= words@.len(),
            half == (t.len() + 1) / 2,
            (first@, second@) == fill_lines(lines_view(words@).take(k as int), half as int),
        decreases words@.len() - k,
    {
        let ghost ws = lines_view(words@);
        assert(ws.take(k + 1).drop_last() =~= ws.take(k as int));
        assert(ws.take(k + 1).last() == words@[k as int]@);
        let word = words[k].as_str();
        if first.as_str().unicode_len() < half {
            if first.as_str().unicode_len() > 0 {
                push_char(&mut first, ' ');
            }
            push_text(&mut first, word);
        } else {
            if second.as_str().unicode_len() > 0 {
                push_char(&mut second, ' ');
            }
            push_text(&mut second, word);
        }
        k = k + 1;
    }
    assert(lines_view(words@).take(words@.len() as int) =~= lines_view(words@));
    if second.as_str().unicode_len() == 0 {
        lines.push(first);
    } else {
        lines.push(first);
        lines.push(second);
    }
    assert(lines_view(lines@) =~= spec_instrument_name_lines(name@));
    lines
}

} // verus!

verus! {

// ─── Breaking the staves of a score into systems ───────────────────────

/// How many barlines an event list holds.
pub open spec fn barline_total(s: Seq<Event>) -> int
    decreases s.len(),
{
    if s.len() == 0 {
        0
    } else {
        barline_total(s.drop_last()) + if s.last() is Barline {
            1int
        } else {
            0int
        }
    }
}

pub fn barline_count(events: &[Event]) -> (r: usize)
    ensures
        r as int == barline_total(events@),
{
    let mut r: usize = 0;
    let mut i: usize = 0;
    while i < events.len()
        invariant
            i <= events@.len(),
            r as int == barline_total(events@.take(i as int)),
            r <= i,
        decreases events@.len() - i,
    {
        assert(events@.take(i + 1).drop_last() =~= events@.take(i as int));
        if events[i].is_barline() {
            r = r + 1;
        }
        i = i + 1;
    }
    assert(events@.take(events@.len() as int) =~= events@);
    r
}

proof fn lemma_barline_total_nonneg(s: Seq<Event>)
    ensures
        barline_total(s) >= 0,
    decreases s.len(),
{
    if s.len() > 0 {
        lemma_barline_total_nonneg(s.drop_last());
    }
}

proof fn lemma_barline_total_front(s: Seq<Event>)
    requires
        s.len() > 0,
    ensures
        barline_total(s) == barline_total(s.drop_first()) + if s[0] is Barline {
            1int
        } else {
            0int
        },
    decreases s.len(),
{
    if s.len() > 1 {
        lemma_barline_total_front(s.drop_last());
        assert(s.drop_last().drop_first() =~= s.drop_first().drop_last());
    } else {
        assert(s.drop_last() =~= Seq::<Event>::empty());
        assert(s.drop_first() =~= Seq::<Event>::empty());
    }
}

/// Law: a system that another staff takes for `bars` measures (see
/// `mirror_breaks`) is the shortest run of leading events that holds `bars`
/// barlines: it holds exactly that many and ends with the last of them.
/// When the staff holds fewer barlines, it takes all of its events.
pub proof fn lemma_mirror_system_is_shortest(s: Seq<Event>, bars: int)
    requires
        bars > 0,
    ensures
        barline_total(s) >= bars ==> {
            let k = crate::layout::bar_prefix_len(s, bars);
            &&& 0 < k <= s.len()
            &&& s[k - 1] is Barline
            &&& barline_total(s.take(k)) == bars
        },
        barline_total(s) < bars ==> crate::layout::bar_prefix_len(s, bars) == s.len(),
    decreases s.len(),
{
    if s.len() > 0 {
        lemma_barline_total_front(s);
        let rest = s.drop_first();
        lemma_barline_total_nonneg(rest);
        let k = crate::layout::bar_prefix_len(s, bars);
        if s[0] is Barline && bars == 1 {
            assert(crate::layout::bar_prefix_len(rest, 0) == 0);
            assert(s.take(1).drop_first() =~= Seq::<Event>::empty());
            lemma_barline_total_front(s.take(1));
        } else {
            let left = if s[0] is Barline {
                bars - 1
            } else {
                bars
            };
            lemma_mirror_system_is_shortest(rest, left);
            assert(k == 1 + crate::layout::bar_prefix_len(rest, left));
            if barline_total(s) >= bars {
                assert(s.take(k).drop_first() =~= rest.take(k - 1));
                lemma_barline_total_front(s.take(k));
            }
        }
    } else {
        assert(barline_total(s) == 0);
    }
}

/// The number of measures (barlines) in each system of the first staff,
/// which the other staves follow.
pub fn measure_counts(systems: &[Vec<Event>]) -> (counts: Vec<usize>)
    ensures
        counts@.len() == systems@.len(),
        forall|i: int| 0 <= i < systems@.len() ==> #[trigger] counts@[i] as int == barline_total(systems@[i]@),
{
    let mut counts: Vec<usize> = Vec::new();
    let mut i: usize = 0;
    while i < systems.len()
        invariant
            i <= systems@.len(),
            counts@.len() == i,
            forall|k: int| 0 <= k < i ==> #[trigger] counts@[k] as int == barline_total(systems@[k]@),
        decreases systems@.len() - i,
    {
        counts.push(barline_count(systems[i].as_slice()));
        i = i + 1;
    }
    counts
}

/// How a staff other than the first is cut: at its own line breaks when
/// both it and the first staff have some, otherwise measure for measure
/// like the first staff.
pub open spec fn spec_split_like_first_staff(first_has_line_breaks: bool, s: Seq<Event>, counts: Seq<usize>) -> Seq<Seq<Event>> {
    if first_has_line_breaks && (exists|i: int| 0 <= i < s.len() && #[trigger] crate::layout::is_line_break_event(s[i])) {
        crate::layout::spec_split_at_line_breaks(s)
    } else {
        crate::layout::spec_mirror_breaks(s, counts)
    }
}

pub fn split_like_first_staff(first_has_line_breaks: bool, events: Vec<Event>, counts: &[usize]) -> (systems: Vec<Vec<Event>>)
    ensures
        crate::layout::parts_view(systems@) == spec_split_like_first_staff(first_has_line_breaks, events@, counts@),
{
    if first_has_line_breaks && crate::layout::has_line_breaks(events.as_slice()) {
        crate::layout::split_at_line_breaks(events)
    } else {
        crate::layout::mirror_breaks(events, counts)
    }
}

/// The first staff's systems where they follow from the music alone, or the
/// music handed back where they depend on how wide the measures are drawn.
pub enum FirstStaffBreaks {
    Decided(Vec<Vec<Event>>),
    ByWidth(Vec<Event>),
}

/// How the first staff is cut into systems: at its line breaks if it has
/// any; else after a fixed number of measures when one is set (a count
/// below one keeps everything on one system); else by width when a page
/// width is known; else all on one system.
pub open spec fn first_staff_breaks_as(
    r: FirstStaffBreaks,
    s: Seq<Event>,
    measures_per_line: Option<i32>,
    width_known: bool,
) -> bool {
    if exists|i: int| 0 <= i < s.len() && #[trigger] crate::layout::is_line_break_event(s[i]) {
        r matches FirstStaffBreaks::Decided(v) && crate::layout::parts_view(v@) == crate::layout::spec_split_at_line_breaks(s)
    } else if measures_per_line is Some {
        let mpl = measures_per_line->0;
        if mpl > 0 {
            r matches FirstStaffBreaks::Decided(v) && crate::layout::parts_view(v@) == crate::layout::spec_systems_by_measure_count(s, mpl as int)
        } else {
            r matches FirstStaffBreaks::Decided(v) && crate::layout::parts_view(v@) == seq![s]
        }
    } else if width_known {
        r matches FirstStaffBreaks::ByWidth(e) && e@ == s
    } else {
        r matches FirstStaffBreaks::Decided(v) && crate::layout::parts_view(v@) == seq![s]
    }
}

pub fn first_staff_breaks(events: Vec<Event>, measures_per_line: Option<i32>, width_known: bool) -> (r: FirstStaffBreaks)
    ensures
        first_staff_breaks_as(r, events@, measures_per_line, width_known),
{
    if crate::layout::has_line_breaks(events.as_slice()) {
        return FirstStaffBreaks::Decided(crate::layout::split_at_line_breaks(events));
    }
    match measures_per_line {
        Some(mpl) => {
            if mpl > 0 {
                FirstStaffBreaks::Decided(crate::layout::systems_by_measure_count(events, mpl))
            } else {
                let mut v: Vec<Vec<Event>> = Vec::new();
                let ghost s = events@;
                v.push(events);
                assert(crate::layout::parts_view(v@) =~= seq![s]);
                FirstStaffBreaks::Decided(v)
            }
        },
        None => {
            if width_known {
                FirstStaffBreaks::ByWidth(events)
            } else {
                let mut v: Vec<Vec<Event>> = Vec::new();
                let ghost s = events@;
                v.push(events);
                assert(crate::layout::parts_view(v@) =~= seq![s]);
                FirstStaffBreaks::Decided(v)
            }
        },
    }
}

} // verus!

verus! {

proof fn lemma_trim_ended_ends_live(s: Seq<Option<Seq<char>>>)
    ensures
        trim_ended(s).len() > 0 ==> trim_ended(s).last() is Some,
    decreases s.len(),
{
    if s.len() > 0 && s.last() is None {
        lemma_trim_ended_ends_live(s.drop_last());
    }
}

/// After a note, rest or chord the lyric states never end with an ended
/// line.
pub proof fn lemma_lyric_states_end_live(states: Seq<Option<Seq<char>>>, e: Event)
    requires
        e is Note || e is Rest || e is Chord,
    ensures
        spec_advance_lyric_states(states, e).len() > 0 ==> spec_advance_lyric_states(states, e).last() is Some,
{
    let lyrics = e.spec_lyrics();
    let n = if states.len() >= lyrics.len() {
        states.len()
    } else {
        lyrics.len()
    };
    lemma_trim_ended_ends_live(Seq::new(n, |li: int| next_lyric_state(states, lyrics, li)));
}

proof fn lemma_continued_system_facts(flag: bool, sys: Seq<Event>, out: Seq<Event>)
    requires
        continued_system(flag, sys, out),
    ensures
        ends_with_repeat_both(out) == ends_with_repeat_both(sys),
        flag ==> spec_starts_with_repeat_start(out),
{
    reveal_strlit("repeat-start");
    reveal_strlit("repeat-both");
    if flag && !spec_starts_with_repeat_start(sys) {
        let k = spec_leading_prefix_count(sys);
        lemma_leading_prefix_bounds(sys);
        assert(out[k] == out.skip(k)[0]);
        assert forall|j: int| 0 <= j < k implies is_prefix_event(#[trigger] out[j]) by {
            assert(out[j] == out.take(k)[j]);
            assert(sys[j] == sys.take(k)[j]);
            lemma_leading_prefix_holds(sys, j);
        }
        assert(!is_prefix_event(out[k]));
        lemma_leading_prefix_count(out, k);
        if k < sys.len() {
            assert(out.last() == out.skip(k + 1).last());
            assert(sys.last() == sys.skip(k).last());
        } else if sys.len() > 0 {
            lemma_leading_prefix_holds(sys, sys.len() - 1);
            assert(out.last() == out[k]);
        } else {
            assert(out.last() == out[k]);
        }
        assert("repeat-start"@ != "repeat-both"@) by {
            assert("repeat-start"@[7] != "repeat-both"@[7]);
        }
    }
}

proof fn lemma_leading_prefix_bounds(s: Seq<Event>)
    ensures
        0 <= spec_leading_prefix_count(s) <= s.len(),
    decreases s.len(),
{
    if s.len() > 0 && is_prefix_event(s[0]) {
        lemma_leading_prefix_bounds(s.drop_first());
    }
}

proof fn lemma_leading_prefix_holds(s: Seq<Event>, j: int)
    requires
        0 <= j < spec_leading_prefix_count(s),
    ensures
        is_prefix_event(s[j]),
    decreases s.len(),
{
    lemma_leading_prefix_bounds(s);
    if j > 0 {
        lemma_leading_prefix_holds(s.drop_first(), j - 1);
        assert(s.drop_first()[j - 1] == s[j]);
    }
}

/// Adding repeat-start barlines after repeat-both system ends is done once
/// and for all: doing it again changes nothing.
pub proof fn lemma_repeat_continuations_settle(
    systems: Seq<Seq<Event>>,
    once: Seq<Seq<Event>>,
    twice: Seq<Seq<Event>>,
)
    requires
        once.len() == systems.len(),
        forall|i: int|
            0 <= i < systems.len() ==> continued_system(
                i > 0 && ends_with_repeat_both(systems[i - 1]),
                systems[i],
                #[trigger] once[i],
            ),
        twice.len() == once.len(),
        forall|i: int|
            0 <= i < once.len() ==> continued_system(
                i > 0 && ends_with_repeat_both(once[i - 1]),
                once[i],
                #[trigger] twice[i],
            ),
    ensures
        twice == once,
{
    assert forall|i: int| 0 <= i < once.len() implies #[trigger] twice[i] == once[i] by {
        let flag = i > 0 && ends_with_repeat_both(systems[i - 1]);
        assert(continued_system(flag, systems[i], once[i]));
        lemma_continued_system_facts(flag, systems[i], once[i]);
        if i > 0 {
            let pflag = i - 1 > 0 && ends_with_repeat_both(systems[i - 2]);
            assert(continued_system(pflag, systems[i - 1], once[i - 1]));
            lemma_continued_system_facts(pflag, systems[i - 1], once[i - 1]);
        }
        assert(continued_system(i > 0 && ends_with_repeat_both(once[i - 1]), once[i], twice[i]));
    }
    assert(twice =~= once);
}

} // verus!
