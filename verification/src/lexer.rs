//! Token-level readers of the music-string syntax. Each reads from a byte
//! position and returns what it recognised with the position after it.

use vstd::prelude::*;

use crate::text::{
    is_digit, latin1, latin1_string, matches_at, opt_view, owned, resolve_color_name,
    spec_is_digit, spec_matches_at, spec_resolve_color,
};
use crate::types::{DURATION_BREVE, DURATION_LONGA, DURATION_MAXIMA, Fingering, FingeringMark, LyricEntry};

verus! {

pub open spec fn spec_peek(b: Seq<u8>, p: int) -> Option<u8> {
    if 0 <= p < b.len() {
        Some(b[p])
    } else {
        None
    }
}

pub fn peek(b: &[u8], p: usize) -> (r: Option<u8>)
    ensures
        r == spec_peek(b@, p as int),
{
    if p < b.len() {
        Some(b[p])
    } else {
        None
    }
}

/// The number of consecutive bytes equal to `byte` starting at `p`.
pub open spec fn spec_run_of(b: Seq<u8>, p: int, byte: u8) -> int
    decreases b.len() - p,
{
    if 0 <= p < b.len() && b[p] == byte {
        1 + spec_run_of(b, p + 1, byte)
    } else {
        0
    }
}

/// The number of consecutive ASCII digits starting at `p`.
pub open spec fn spec_digit_run(b: Seq<u8>, p: int) -> int
    decreases b.len() - p,
{
    if 0 <= p < b.len() && spec_is_digit(b[p]) {
        1 + spec_digit_run(b, p + 1)
    } else {
        0
    }
}

pub proof fn lemma_run_bounds(b: Seq<u8>, p: int, byte: u8)
    requires
        0 <= p <= b.len(),
    ensures
        0 <= spec_run_of(b, p, byte) <= b.len() - p,
        forall|k: int| p <= k < p + spec_run_of(b, p, byte) ==> b[k] == byte,
        p + spec_run_of(b, p, byte) < b.len() ==> b[p + spec_run_of(b, p, byte)] != byte,
    decreases b.len() - p,
{
    if p < b.len() && b[p] == byte {
        lemma_run_bounds(b, p + 1, byte);
    }
}

pub proof fn lemma_digit_run_bounds(b: Seq<u8>, p: int)
    requires
        0 <= p <= b.len(),
    ensures
        0 <= spec_digit_run(b, p) <= b.len() - p,
        forall|k: int| p <= k < p + spec_digit_run(b, p) ==> spec_is_digit(b[k]),
        p + spec_digit_run(b, p) < b.len() ==> !spec_is_digit(b[p + spec_digit_run(b, p)]),
    decreases b.len() - p,
{
    if p < b.len() && spec_is_digit(b[p]) {
        lemma_digit_run_bounds(b, p + 1);
    }
}

/// Reads a run of `byte` from `p`; returns its length and the end position.
pub fn read_run(b: &[u8], p: usize, byte: u8) -> (r: usize)
    requires
        p <= b@.len(),
    ensures
        r as int == spec_run_of(b@, p as int, byte),
        p + r <= b@.len(),
{
    proof {
        lemma_run_bounds(b@, p as int, byte);
    }
    let mut q = p;
    while q < b.len() && b[q] == byte
        invariant
            p <= q <= b@.len(),
            spec_run_of(b@, p as int, byte) == (q - p) + spec_run_of(b@, q as int, byte),
        decreases b.len() - q,
    {
        q = q + 1;
    }
    q - p
}

/// Reads a run of ASCII digits from `p`; returns its length.
pub fn read_digit_run(b: &[u8], p: usize) -> (r: usize)
    requires
        p <= b@.len(),
    ensures
        r as int == spec_digit_run(b@, p as int),
        p + r <= b@.len(),
{
    proof {
        lemma_digit_run_bounds(b@, p as int);
    }
    let mut q = p;
    while q < b.len() && is_digit(b[q])
        invariant
            p <= q <= b@.len(),
            spec_digit_run(b@, p as int) == (q - p) + spec_digit_run(b@, q as int),
        decreases b.len() - q,
    {
        q = q + 1;
    }
    q - p
}

/// The octave after the marks at `p`: each `'` raises it, then each `,`
/// lowers it; with the position after the marks.
pub open spec fn spec_octave_markers(b: Seq<u8>, p: int, octave: int) -> (int, int) {
    let ups = spec_run_of(b, p, 39);
    let downs = spec_run_of(b, p + ups, 44);
    (octave + ups - downs, p + ups + downs)
}

pub fn parse_octave_markers(b: &[u8], p: usize, octave: i32) -> (r: (i32, usize))
    requires
        p <= b@.len(),
        i32::MIN + b@.len() <= octave <= i32::MAX - b@.len(),
    ensures
        (r.0 as int, r.1 as int) == spec_octave_markers(b@, p as int, octave as int),
        p <= r.1 <= b@.len(),
{
    let ups = read_run(b, p, 39);
    let downs = read_run(b, p + ups, 44);
    (octave + ups as i32 - downs as i32, p + ups + downs)
}

/// The decimal value of the digits `b[s..e]`.
pub open spec fn spec_digits_value(b: Seq<u8>, s: int, e: int) -> int
    decreases e - s,
{
    if e <= s {
        0
    } else {
        spec_digits_value(b, s, e - 1) * 10 + (b[e - 1] - 48)
    }
}

proof fn lemma_digits_value_monotone(b: Seq<u8>, s: int, e: int)
    requires
        s <= e,
        forall|k: int| s <= k < e ==> spec_is_digit(b[k]),
    ensures
        spec_digits_value(b, s, e) >= 0,
    decreases e - s,
{
    if s < e {
        lemma_digits_value_monotone(b, s, e - 1);
    }
}

/// The value of the digits `b[s..e]` if it fits in an `i32`.
pub open spec fn spec_digits_i32(b: Seq<u8>, s: int, e: int) -> Option<int> {
    if s < e && spec_digits_value(b, s, e) <= i32::MAX {
        Some(spec_digits_value(b, s, e))
    } else {
        None
    }
}

/// Reads the digits `b[s..e]` as a decimal `i32`; `None` when there are none
/// or the value does not fit.
pub fn digits_to_i32(b: &[u8], s: usize, e: usize) -> (r: Option<i32>)
    requires
        s <= e <= b@.len(),
        forall|k: int| s <= k < e ==> spec_is_digit(b@[k]),
    ensures
        match r {
            Some(v) => spec_digits_i32(b@, s as int, e as int) == Some(v as int),
            None => spec_digits_i32(b@, s as int, e as int) is None,
        },
{
    if s == e {
        return None;
    }
    let mut value: i64 = 0;
    let mut q = s;
    while q < e
        invariant
            s <= q <= e <= b@.len(),
            forall|k: int| s <= k < e ==> spec_is_digit(b@[k]),
            value as int == spec_digits_value(b@, s as int, q as int),
            0 <= value <= i32::MAX,
        decreases e - q,
    {
        let next = value * 10 + (b[q] - 48) as i64;
        if next > 2147483647 {
            proof {
                lemma_digits_tail_grows(b@, s as int, q as int + 1, e as int);
            }
            return None;
        }
        value = next;
        q = q + 1;
    }
    Some(value as i32)
}

proof fn lemma_digits_tail_grows(b: Seq<u8>, s: int, m: int, e: int)
    requires
        s <= m <= e,
        forall|k: int| s <= k < e ==> spec_is_digit(b[k]),
    ensures
        spec_digits_value(b, s, e) >= spec_digits_value(b, s, m),
    decreases e - m,
{
    if m < e {
        lemma_digits_tail_grows(b, s, m, e - 1);
        lemma_digits_value_monotone(b, s, e - 1);
    }
}

/// The written duration at `p` and the position after it: a positive number,
/// or one of the names `maxima`, `breve`, `longa`; otherwise (also for `0`
/// and numbers too large for an `i32`) the sticky duration carries over.
pub open spec fn spec_duration_at(b: Seq<u8>, p: int, sticky: int) -> (int, int) {
    let d = spec_digit_run(b, p);
    if d == 0 {
        if spec_matches_at(b, p, "maxima"@.map_values(|c: char| c as u8)) {
            (DURATION_MAXIMA as int, p + 6)
        } else if spec_matches_at(b, p, "breve"@.map_values(|c: char| c as u8)) {
            (DURATION_BREVE as int, p + 5)
        } else if spec_matches_at(b, p, "longa"@.map_values(|c: char| c as u8)) {
            (DURATION_LONGA as int, p + 5)
        } else {
            (sticky, p)
        }
    } else {
        match spec_digits_i32(b, p, p + d) {
            Some(v) if v > 0 => (v, p + d),
            _ => (sticky, p + d),
        }
    }
}

/// A duration and dots: the written duration (see `spec_duration_at`), the
/// number of `.` after it, and the position after them.
pub open spec fn spec_duration_dots(b: Seq<u8>, p: int, sticky: int) -> (int, int, int) {
    let (duration, q) = spec_duration_at(b, p, sticky);
    let dots = spec_run_of(b, q, 46);
    (duration, dots, q + dots)
}

/// A duration is a positive note value or one of the long named values.
pub open spec fn duration_ok(d: int) -> bool {
    d > 0 || d == DURATION_BREVE || d == DURATION_LONGA || d == DURATION_MAXIMA
}

/// The bytes of an ASCII word.
pub open spec fn ascii(s: Seq<char>) -> Seq<u8> {
    s.map_values(|c: char| c as u8)
}

pub fn parse_duration_dots(b: &[u8], p: usize, sticky: i32) -> (r: (i32, i32, usize))
    requires
        p <= b@.len(),
        b@.len() <= i32::MAX,
    ensures
        (r.0 as int, r.1 as int, r.2 as int) == spec_duration_dots(b@, p as int, sticky as int),
        p <= r.2 <= b@.len(),
        duration_ok(sticky as int) ==> duration_ok(r.0 as int),
        r.1 >= 0,
{
    let d = read_digit_run(b, p);
    proof {
        lemma_digit_run_bounds(b@, p as int);
    }
    let maxima: [u8; 6] = [109, 97, 120, 105, 109, 97];
    let breve: [u8; 5] = [98, 114, 101, 118, 101];
    let longa: [u8; 5] = [108, 111, 110, 103, 97];
    proof {
        reveal_strlit("maxima");
        reveal_strlit("breve");
        reveal_strlit("longa");
        assert(maxima@ =~= ascii("maxima"@));
        assert(breve@ =~= ascii("breve"@));
        assert(longa@ =~= ascii("longa"@));
    }
    let mut q = p;
    let duration: i32 = if d == 0 {
        if matches_at(b, p, &maxima) {
            q = p + 6;
            DURATION_MAXIMA
        } else if matches_at(b, p, &breve) {
            q = p + 5;
            DURATION_BREVE
        } else if matches_at(b, p, &longa) {
            q = p + 5;
            DURATION_LONGA
        } else {
            sticky
        }
    } else {
        q = p + d;
        match digits_to_i32(b, p, p + d) {
            Some(v) => if v > 0 {
                v
            } else {
                sticky
            },
            None => sticky,
        }
    };
    let dots = read_run(b, q, 46);
    (duration, dots as i32, q + dots)
}

/// The position of the first `byte` at or after `p`, or the end of `b`.
pub open spec fn spec_find(b: Seq<u8>, p: int, byte: u8) -> int
    decreases b.len() - p,
{
    if p < 0 || p >= b.len() {
        b.len() as int
    } else if b[p] == byte {
        p
    } else {
        spec_find(b, p + 1, byte)
    }
}

pub proof fn lemma_find_bounds(b: Seq<u8>, p: int, byte: u8)
    requires
        0 <= p,
    ensures
        p <= spec_find(b, p, byte) || p > b.len(),
        spec_find(b, p, byte) <= b.len(),
        spec_find(b, p, byte) < b.len() ==> b[spec_find(b, p, byte)] == byte,
        forall|k: int| p <= k < spec_find(b, p, byte) ==> b[k] != byte,
    decreases b.len() - p,
{
    if p < b.len() && b[p] != byte {
        lemma_find_bounds(b, p + 1, byte);
    }
}

/// Bracketed text from `p` up to the next `]`: its characters and the
/// position after the `]` (the end of input when there is none).
pub open spec fn spec_bracketed(b: Seq<u8>, p: int) -> (Seq<char>, int) {
    let q = spec_find(b, p, 93);
    (latin1(b.subrange(p, q)), if q < b.len() {
        q + 1
    } else {
        q
    })
}

pub fn find_byte(b: &[u8], p: usize, byte: u8) -> (r: usize)
    requires
        p <= b@.len(),
    ensures
        r as int == spec_find(b@, p as int, byte),
        p <= r <= b@.len(),
{
    proof {
        lemma_find_bounds(b@, p as int, byte);
    }
    let mut q = p;
    while q < b.len() && b[q] != byte
        invariant
            p <= q <= b@.len(),
            spec_find(b@, q as int, byte) == spec_find(b@, p as int, byte),
        decreases b.len() - q,
    {
        q = q + 1;
    }
    q
}

pub fn read_bracketed_text(b: &[u8], p: usize) -> (r: (String, usize))
    requires
        p <= b@.len(),
    ensures
        (r.0@, r.1 as int) == spec_bracketed(b@, p as int),
        p <= r.1 <= b@.len(),
{
    let q = find_byte(b, p, 93);
    let text = latin1_string(b, p, q);
    if q < b.len() {
        (text, q + 1)
    } else {
        (text, q)
    }
}

/// Scans a voice-group body from `q` at brace depth `depth` (`split` being the
/// last `;` seen at depth 0) and yields the last top-level `;` and the `}`
/// that closes the group.
pub open spec fn spec_scan_group(b: Seq<u8>, q: int, depth: int, split: Option<int>) -> Option<(int, int)>
    decreases b.len() - q,
{
    if q < 0 || q >= b.len() {
        None
    } else if b[q] == 123 {
        spec_scan_group(b, q + 1, depth + 1, split)
    } else if b[q] == 125 && depth == 0 {
        match split {
            Some(s) => Some((s, q)),
            None => None,
        }
    } else if b[q] == 125 {
        spec_scan_group(b, q + 1, depth - 1, split)
    } else if b[q] == 59 && depth == 0 {
        spec_scan_group(b, q + 1, depth, Some(q))
    } else {
        spec_scan_group(b, q + 1, depth, split)
    }
}

proof fn lemma_scan_group_bounds(b: Seq<u8>, q: int, depth: int, split: Option<int>)
    requires
        0 <= q,
        split matches Some(s) ==> 0 <= s < q && b[s] == 59,
    ensures
        spec_scan_group(b, q, depth, split) matches Some((s, c)) ==> (0 <= s < c < b.len()
            && b[s] == 59 && b[c] == 125 && (split matches Some(s0) ==> s0 <= s) && (split is None
            ==> q <= s)),
    decreases b.len() - q,
{
    if 0 <= q < b.len() {
        if b[q] == 123 {
            lemma_scan_group_bounds(b, q + 1, depth + 1, split);
        } else if b[q] == 125 && depth == 0 {
        } else if b[q] == 125 {
            lemma_scan_group_bounds(b, q + 1, depth - 1, split);
        } else if b[q] == 59 && depth == 0 {
            lemma_scan_group_bounds(b, q + 1, depth, Some(q));
        } else {
            lemma_scan_group_bounds(b, q + 1, depth, split);
        }
    }
}

/// A voice group `{upper;lower}` at `p`: the position of the top-level `;`
/// that separates the voices (the last one) and of the closing `}`.
pub open spec fn spec_voice_group(b: Seq<u8>, p: int) -> Option<(int, int)> {
    if spec_peek(b, p) != Some(123u8) {
        None
    } else {
        spec_scan_group(b, p + 1, 0, None)
    }
}

pub fn read_voice_group(b: &[u8], p: usize) -> (r: Option<(usize, usize)>)
    requires
        p <= b@.len(),
        b@.len() <= i32::MAX,
    ensures
        match r {
            Some((s, c)) => spec_voice_group(b@, p as int) == Some((s as int, c as int)),
            None => spec_voice_group(b@, p as int) is None,
        },
        r matches Some((s, c)) ==> p < s < c < b@.len() && b@[s as int] == 59 && b@[c as int] == 125,
{
    if p >= b.len() || b[p] != 123 {
        return None;
    }
    proof {
        lemma_scan_group_bounds(b@, p + 1, 0, None);
        assert(spec_voice_group(b@, p as int) == spec_scan_group(b@, p + 1, 0, None));
    }
    let mut q = p + 1;
    let mut depth: i32 = 0;
    let mut split: Option<usize> = None;
    while q < b.len()
        invariant
            p + 1 <= q <= b@.len() <= i32::MAX,
            spec_voice_group(b@, p as int) == spec_scan_group(b@, p + 1, 0, None),
            -(q as int) <= depth <= q,
            split matches Some(s) ==> p + 1 <= s < q && b@[s as int] == 59,
            spec_scan_group(b@, q as int, depth as int, match split {
                Some(s) => Some(s as int),
                None => None,
            }) == spec_scan_group(b@, p + 1, 0, None),
        decreases b.len() - q,
    {
        let ch = b[q];
        if ch == 123 {
            depth = depth + 1;
        } else if ch == 125 && depth == 0 {
            return match split {
                Some(s) => Some((s, q)),
                None => None,
            };
        } else if ch == 125 {
            depth = depth - 1;
        } else if ch == 59 && depth == 0 {
            split = Some(q);
        }
        q = q + 1;
    }
    None
}

/// The first `:` or `}` at or after `p`, or the end of `b`.
pub open spec fn spec_find_colon_or_close(b: Seq<u8>, p: int) -> int
    decreases b.len() - p,
{
    if p < 0 || p >= b.len() {
        b.len() as int
    } else if b[p] == 58 || b[p] == 125 {
        p
    } else {
        spec_find_colon_or_close(b, p + 1)
    }
}

proof fn lemma_find_colon_or_close_bounds(b: Seq<u8>, p: int)
    requires
        0 <= p,
    ensures
        p <= spec_find_colon_or_close(b, p) || p > b.len(),
        spec_find_colon_or_close(b, p) <= b.len(),
        spec_find_colon_or_close(b, p) < b.len() ==> (b[spec_find_colon_or_close(b, p)] == 58
            || b[spec_find_colon_or_close(b, p)] == 125),
    decreases b.len() - p,
{
    if 0 <= p < b.len() && !(b[p] == 58 || b[p] == 125) {
        lemma_find_colon_or_close_bounds(b, p + 1);
    }
}

/// A colour call `{name}` or `{name:` at `p`: the resolved colour, where the
/// coloured span's body starts (for the `:` form), and the position after
/// the `}` or `:`.
pub open spec fn spec_color_call(b: Seq<u8>, p: int) -> Option<(Seq<char>, Option<int>, int)> {
    if spec_peek(b, p) != Some(123u8) {
        None
    } else {
        let c = spec_find_colon_or_close(b, p + 1);
        if c >= b.len() {
            None
        } else {
            let color = spec_resolve_color(latin1(b.subrange(p + 1, c)));
            if b[c] == 58 {
                Some((color, Some(c + 1), c + 1))
            } else {
                Some((color, None, c + 1))
            }
        }
    }
}

pub fn parse_color_call(b: &[u8], p: usize) -> (r: Option<(String, Option<usize>, usize)>)
    requires
        p <= b@.len(),
    ensures
        match r {
            Some((color, body, next)) => spec_color_call(b@, p as int) == Some(
                (
                    color@,
                    match body {
                        Some(x) => Some(x as int),
                        None => None,
                    },
                    next as int,
                ),
            ),
            None => spec_color_call(b@, p as int) is None,
        },
        r matches Some((_, body, next)) ==> p < next <= b@.len() && (body matches Some(x) ==> x
            == next),
{
    if p >= b.len() || b[p] != 123 {
        return None;
    }
    proof {
        lemma_find_colon_or_close_bounds(b@, p + 1);
    }
    let mut c = p + 1;
    while c < b.len() && !(b[c] == 58 || b[c] == 125)
        invariant
            p + 1 <= c <= b@.len(),
            spec_find_colon_or_close(b@, c as int) == spec_find_colon_or_close(b@, p + 1),
        decreases b.len() - c,
    {
        c = c + 1;
    }
    if c >= b.len() {
        return None;
    }
    let raw = latin1_string(b, p + 1, c);
    let color = owned(resolve_color_name(raw.as_str()));
    if b[c] == 58 {
        Some((color, Some(c + 1), c + 1))
    } else {
        Some((color, None, c + 1))
    }
}

/// A staff marker at `p` (`coda`, `bm`, `ds`, `//`) and the position after it.
pub open spec fn spec_staff_marker(b: Seq<u8>, p: int) -> (Option<Seq<char>>, int) {
    if spec_peek(b, p) == Some(99u8) && spec_peek(b, p + 1) == Some(111u8) && spec_peek(b, p + 2)
        == Some(100u8) && spec_peek(b, p + 3) == Some(97u8) {
        (Some("coda"@), p + 4)
    } else if spec_peek(b, p) == Some(98u8) && spec_peek(b, p + 1) == Some(109u8) {
        (Some("breath-mark"@), p + 2)
    } else if spec_peek(b, p) == Some(100u8) && spec_peek(b, p + 1) == Some(115u8) {
        (Some("dal-segno"@), p + 2)
    } else if spec_peek(b, p) == Some(47u8) && spec_peek(b, p + 1) == Some(47u8) {
        (Some("caesura"@), p + 2)
    } else {
        (None, p)
    }
}

pub fn parse_staff_marker(b: &[u8], p: usize) -> (r: (Option<String>, usize))
    requires
        p <= b@.len(),
        b@.len() <= i32::MAX,
    ensures
        (opt_view(r.0), r.1 as int) == spec_staff_marker(b@, p as int),
        r.0 is Some ==> p < r.1 <= b@.len(),
        r.0 is None ==> r.1 == p,
{
    if peek(b, p) == Some(99u8) && peek(b, p + 1) == Some(111u8) && peek(b, p + 2) == Some(100u8)
        && peek(b, p + 3) == Some(97u8) {
        (Some(owned("coda")), p + 4)
    } else if peek(b, p) == Some(98u8) && peek(b, p + 1) == Some(109u8) {
        (Some(owned("breath-mark")), p + 2)
    } else if peek(b, p) == Some(100u8) && peek(b, p + 1) == Some(115u8) {
        (Some(owned("dal-segno")), p + 2)
    } else if peek(b, p) == Some(47u8) && peek(b, p + 1) == Some(47u8) {
        (Some(owned("caesura")), p + 2)
    } else {
        (None, p)
    }
}

} // verus!

verus! {

/// A byte whose one-character reading is white space in Unicode's sense
/// (tab to carriage return, space, U+0085, U+00A0).
pub open spec fn spec_is_text_space(c: u8) -> bool {
    (9 <= c <= 13) || c == 32 || c == 0x85 || c == 0xA0
}

pub fn is_text_space(c: u8) -> (r: bool)
    ensures
        r == spec_is_text_space(c),
{
    (9 <= c && c <= 13) || c == 32 || c == 0x85 || c == 0xA0
}

/// The text of a lyric: what `l[...]` holds, without a final `-` (hyphen)
/// or `_` (extender), and that continuation.
pub open spec fn spec_lyric_at(b: Seq<u8>, p: int) -> Option<(Option<Seq<char>>, bool, Seq<char>, int)> {
    if spec_peek(b, p) != Some(108u8) {
        None
    } else if p + 1 < b.len() && b[p + 1] == 91 {
        let q = spec_find(b, p + 2, 93);
        let next = if q < b.len() {
            q + 1
        } else {
            q
        };
        if q > p + 2 && b[q - 1] == 45 {
            Some((Some(latin1(b.subrange(p + 2, q - 1))), false, "hyphen"@, next))
        } else if q > p + 2 && b[q - 1] == 95 {
            Some((Some(latin1(b.subrange(p + 2, q - 1))), false, "extender"@, next))
        } else {
            Some((Some(latin1(b.subrange(p + 2, q))), false, "none"@, next))
        }
    } else {
        Some((None, true, "none"@, p + 1))
    }
}

/// Law: the last character of a lyric's bracketed text says how the
/// syllable goes on: `_` draws an extender (melisma) line, `-` a hyphen, and
/// anything else neither; the marker is left out of the text, and the three
/// continuations are different words.
pub proof fn lemma_lyric_continuations(b: Seq<u8>, p: int)
    requires
        0 <= p,
        p + 1 < b.len(),
        b[p] == 108,
        b[p + 1] == 91,
    ensures
        spec_lyric_at(b, p) is Some,
        spec_find(b, p + 2, 93) > p + 2 && b[spec_find(b, p + 2, 93) - 1] == 95 ==> {
            &&& (spec_lyric_at(b, p)->0).2 == "extender"@
            &&& (spec_lyric_at(b, p)->0).0 == Some(latin1(b.subrange(p + 2, spec_find(b, p + 2, 93) - 1)))
        },
        spec_find(b, p + 2, 93) > p + 2 && b[spec_find(b, p + 2, 93) - 1] == 45 ==> {
            &&& (spec_lyric_at(b, p)->0).2 == "hyphen"@
            &&& (spec_lyric_at(b, p)->0).0 == Some(latin1(b.subrange(p + 2, spec_find(b, p + 2, 93) - 1)))
        },
        !(spec_find(b, p + 2, 93) > p + 2 && (b[spec_find(b, p + 2, 93) - 1] == 95 || b[spec_find(b, p + 2, 93)
            - 1] == 45)) ==> (spec_lyric_at(b, p)->0).2 == "none"@,
        !(spec_lyric_at(b, p)->0).1,
        "extender"@ != "hyphen"@,
        "extender"@ != "none"@,
        "hyphen"@ != "none"@,
{
    reveal_strlit("extender");
    reveal_strlit("hyphen");
    reveal_strlit("none");
    assert("extender"@[0] != "hyphen"@[0]);
    assert("extender"@.len() != "none"@.len());
    assert("hyphen"@[0] != "none"@[0]);
}

/// The lyric at `p` (`l[text]`, or a bare `l` that carries the previous
/// lyric on) and the position after it.
pub fn parse_lyric(b: &[u8], p: usize) -> (r: (Option<LyricEntry>, usize))
    requires
        p <= b@.len(),
        b@.len() <= i32::MAX,
    ensures
        match spec_lyric_at(b@, p as int) {
            None => r.0 is None && r.1 == p,
            Some((text, carry, cont, next)) => r.0 matches Some(e) && opt_view(e.text) == text
                && e.carry == carry && e.continuation@ == cont && r.1 == next,
        },
        p <= r.1 <= b@.len(),
{
    if p >= b.len() || b[p] != 108 {
        return (None, p);
    }
    if p + 1 < b.len() && b[p + 1] == 91 {
        let q = find_byte(b, p + 2, 93);
        let next = if q < b.len() {
            q + 1
        } else {
            q
        };
        if q > p + 2 && b[q - 1] == 45 {
            let text = latin1_string(b, p + 2, q - 1);
            (Some(LyricEntry { text: Some(text), carry: false, continuation: owned("hyphen") }), next)
        } else if q > p + 2 && b[q - 1] == 95 {
            let text = latin1_string(b, p + 2, q - 1);
            (
                Some(LyricEntry { text: Some(text), carry: false, continuation: owned("extender") }),
                next,
            )
        } else {
            let text = latin1_string(b, p + 2, q);
            (Some(LyricEntry { text: Some(text), carry: false, continuation: owned("none") }), next)
        }
    } else {
        (Some(LyricEntry { text: None, carry: true, continuation: owned("none") }), p + 1)
    }
}

/// Tagged text `tag[...]` at `p`: its text (none when empty) and the position
/// after the `]`; `(None, p)` when the tag is not there.
pub open spec fn spec_tagged_text(b: Seq<u8>, p: int, tag: Seq<u8>) -> (Option<Seq<char>>, int) {
    if p + tag.len() >= b.len() || b.subrange(p, p + tag.len()) != tag || b[p + tag.len()] != 91 {
        (None, p)
    } else {
        let (value, next) = spec_bracketed(b, p + tag.len() + 1);
        (if value.len() == 0 {
            None
        } else {
            Some(value)
        }, next)
    }
}

pub fn parse_tagged_text(b: &[u8], p: usize, tag: &[u8]) -> (r: (Option<String>, usize))
    requires
        p <= b@.len(),
        tag@.len() <= 8,
        b@.len() <= i32::MAX,
    ensures
        (opt_view(r.0), r.1 as int) == spec_tagged_text(b@, p as int, tag@),
        p <= r.1 <= b@.len(),
{
    if p + tag.len() >= b.len() {
        return (None, p);
    }
    if !matches_at(b, p, tag) {
        return (None, p);
    }
    if b[p + tag.len()] != 91 {
        return (None, p);
    }
    let (value, next) = read_bracketed_text(b, p + tag.len() + 1);
    if value.unicode_len() == 0 {
        (None, next)
    } else {
        (Some(value), next)
    }
}

/// A fingering `n[...]` (above) or `n_[...]` (below) starts at `p`.
pub open spec fn spec_fingering_start(b: Seq<u8>, p: int) -> bool {
    spec_peek(b, p) == Some(110u8) && p + 1 < b.len() && (b[p + 1] == 91 || (b[p + 1] == 95 && p
        + 2 < b.len() && b[p + 2] == 91))
}

pub fn is_fingering_start(b: &[u8], p: usize) -> (r: bool)
    requires
        p <= b@.len(),
        b@.len() <= i32::MAX,
    ensures
        r == spec_fingering_start(b@, p as int),
{
    p < b.len() && b[p] == 110 && p + 1 < b.len() && (b[p + 1] == 91 || (b[p + 1] == 95 && p + 2
        < b.len() && b[p + 2] == 91))
}

/// The value of a decimal integer as `str::parse::<i32>` reads it: an
/// optional `+` or `-`, then one or more ASCII digits, in range.
pub open spec fn spec_parse_i32(t: Seq<u8>) -> Option<int> {
    if t.len() == 0 {
        None
    } else {
        let (neg, s) = if t[0] == 43 {
            (false, 1int)
        } else if t[0] == 45 {
            (true, 1int)
        } else {
            (false, 0int)
        };
        if s >= t.len() || spec_digit_run(t, s) != t.len() - s {
            None
        } else {
            let v = if neg {
                -spec_digits_value(t, s, t.len() as int)
            } else {
                spec_digits_value(t, s, t.len() as int)
            };
            if i32::MIN <= v <= i32::MAX {
                Some(v)
            } else {
                None
            }
        }
    }
}

proof fn lemma_digits_value_subrange(b: Seq<u8>, s: int, e: int)
    requires
        0 <= s <= e <= b.len(),
    ensures
        spec_digits_value(b.subrange(s, e), 0, e - s) == spec_digits_value(b, s, e),
        forall|k: int| 0 <= k <= e - s ==> spec_digits_value(b.subrange(s, e), 0, k) == spec_digits_value(b, s, s + k),
    decreases e - s,
{
    assert forall|k: int| 0 <= k <= e - s implies spec_digits_value(b.subrange(s, e), 0, k)
        == spec_digits_value(b, s, s + k) by {
        lemma_digits_value_prefix(b, s, e, k);
    }
}

proof fn lemma_digits_value_prefix(b: Seq<u8>, s: int, e: int, k: int)
    requires
        0 <= s <= e <= b.len(),
        0 <= k <= e - s,
    ensures
        spec_digits_value(b.subrange(s, e), 0, k) == spec_digits_value(b, s, s + k),
    decreases k,
{
    if k > 0 {
        lemma_digits_value_prefix(b, s, e, k - 1);
    }
}

proof fn lemma_digit_run_subrange(b: Seq<u8>, s: int, e: int, k: int)
    requires
        0 <= s <= e <= b.len(),
        0 <= k <= e - s,
    ensures
        spec_digit_run(b.subrange(s, e), k) == if spec_digit_run(b, s + k) <= e - (s + k) {
            spec_digit_run(b, s + k)
        } else {
            e - (s + k)
        },
    decreases e - s - k,
{
    lemma_digit_run_bounds(b, s + k);
    if k < e - s {
        lemma_digit_run_subrange(b, s, e, k + 1);
        lemma_digit_run_bounds(b, s + k + 1);
        assert(b.subrange(s, e)[k] == b[s + k]);
        if spec_is_digit(b[s + k]) {
            assert(spec_digit_run(b.subrange(s, e), k) == 1 + spec_digit_run(b.subrange(s, e), k + 1));
            assert(spec_digit_run(b, s + k) == 1 + spec_digit_run(b, s + k + 1));
        } else {
            assert(spec_digit_run(b.subrange(s, e), k) == 0);
            assert(spec_digit_run(b, s + k) == 0);
        }
    } else {
        assert(spec_digit_run(b.subrange(s, e), k) == 0);
    }
}

/// Reads `b[s..e]` as `str::parse::<i32>` would.
pub fn parse_i32(b: &[u8], s: usize, e: usize) -> (r: Option<i32>)
    requires
        s <= e <= b@.len(),
    ensures
        match r {
            Some(v) => spec_parse_i32(b@.subrange(s as int, e as int)) == Some(v as int),
            None => spec_parse_i32(b@.subrange(s as int, e as int)) is None,
        },
{
    let ghost t = b@.subrange(s as int, e as int);
    if s == e {
        return None;
    }
    let mut neg = false;
    let mut d = s;
    if b[s] == 43 {
        d = s + 1;
    } else if b[s] == 45 {
        neg = true;
        d = s + 1;
    }
    if d >= e {
        return None;
    }
    let run = read_digit_run(b, d);
    proof {
        lemma_digit_run_subrange(b@, s as int, e as int, d - s);
        lemma_digit_run_bounds(b@, d as int);
        lemma_digits_value_subrange(b@, s as int, e as int);
    }
    if run < e - d {
        return None;
    }
    let mut value: i64 = 0;
    let mut q = d;
    let limit: i64 = if neg {
        2147483648
    } else {
        2147483647
    };
    while q < e
        invariant
            s <= d <= q <= e <= b@.len(),
            d < e,
            d == s || d == s + 1,
            t == b@.subrange(s as int, e as int),
            t.len() > 0,
            t[0] == b@[s as int],
            neg == (b@[s as int] == 45),
            (d == s + 1) == (b@[s as int] == 43 || b@[s as int] == 45),
            spec_digit_run(t, d - s) == e - d,
            forall|k: int| d <= k < e ==> spec_is_digit(b@[k]),
            value as int == spec_digits_value(b@, d as int, q as int),
            0 <= value <= limit,
            limit == if neg { 2147483648i64 } else { 2147483647i64 },
        decreases e - q,
    {
        let next = value * 10 + (b[q] - 48) as i64;
        if next > limit {
            proof {
                lemma_digits_tail_grows(b@, d as int, q as int + 1, e as int);
                lemma_digits_sub(b@, s as int, d as int, e as int);
            }
            return None;
        }
        value = next;
        q = q + 1;
    }
    proof {
        lemma_digits_sub(b@, s as int, d as int, e as int);
    }
    if neg {
        Some((0 - value) as i32)
    } else {
        Some(value as i32)
    }
}

proof fn lemma_digits_sub(b: Seq<u8>, s: int, d: int, e: int)
    requires
        0 <= s <= d <= e <= b.len(),
    ensures
        spec_digits_value(b.subrange(s, e), d - s, e - s) == spec_digits_value(b, d, e),
    decreases e - d,
{
    if d < e {
        lemma_digits_sub(b, s, d, e - 1);
        assert(b.subrange(s, e)[e - s - 1] == b[e - 1]);
        lemma_digits_sub_prefix(b, s, d, e - 1, e);
    }
}

proof fn lemma_digits_sub_prefix(b: Seq<u8>, s: int, d: int, m: int, e: int)
    requires
        0 <= s <= d <= m <= e <= b.len(),
    ensures
        spec_digits_value(b.subrange(s, e), d - s, m - s) == spec_digits_value(b.subrange(s, m), d - s, m - s),
    decreases m - d,
{
    if d < m {
        lemma_digits_sub_prefix(b, s, d, m - 1, e);
        lemma_digits_sub_prefix(b, s, d, m - 1, m);
        assert(b.subrange(s, e)[m - s - 1] == b.subrange(s, m)[m - s - 1]);
    }
}

} // verus!

verus! {

/// The parts of a fingering text, as byte ranges: runs separated by white
/// space outside braces. A `{` opens a part and nests, a `}` only closes a
/// nesting level.
pub open spec fn spec_split_parts(v: Seq<u8>, i: int, start: Option<int>, depth: int) -> Seq<(int, int)>
    decreases v.len() - i,
{
    if i < 0 || i >= v.len() {
        match start {
            Some(st) => seq![(st, v.len() as int)],
            None => seq![],
        }
    } else {
        let c = v[i];
        let opened = if start is None {
            Some(i)
        } else {
            start
        };
        if c == 123 {
            spec_split_parts(v, i + 1, opened, depth + 1)
        } else if c == 125 {
            spec_split_parts(v, i + 1, start, depth - 1)
        } else if spec_is_text_space(c) && depth == 0 {
            match start {
                Some(st) => seq![(st, i)] + spec_split_parts(v, i + 1, None, depth),
                None => spec_split_parts(v, i + 1, None, depth),
            }
        } else {
            spec_split_parts(v, i + 1, opened, depth)
        }
    }
}

/// A plain fingering mark: an integer, bold when written `*n*`.
pub open spec fn spec_plain_mark(p: Seq<u8>) -> Option<(int, bool)> {
    let bold = p.len() >= 3 && p[0] == 42 && p.last() == 42;
    let text = if bold {
        p.subrange(1, p.len() - 1)
    } else {
        p
    };
    match spec_parse_i32(text) {
        Some(v) => Some((v, bold)),
        None => None,
    }
}

/// A coloured fingering mark `color{name:mark}`.
pub open spec fn spec_colored_mark(p: Seq<u8>) -> Option<(int, bool, Seq<char>)> {
    if p.len() >= 7 && p.subrange(0, 6) == ascii("color{"@) && p.last() == 125 {
        let inner = p.subrange(6, p.len() - 1);
        let colon = spec_find(inner, 0, 58);
        if colon >= inner.len() {
            None
        } else {
            match spec_plain_mark(inner.subrange(colon + 1, inner.len() as int)) {
                Some((v, bold)) => Some(
                    (v, bold, spec_resolve_color(latin1(inner.subrange(0, colon)))),
                ),
                None => None,
            }
        }
    } else {
        None
    }
}

/// One fingering mark: its value, boldness and colour.
pub open spec fn spec_mark(p: Seq<u8>) -> Option<(int, bool, Option<Seq<char>>)> {
    match spec_colored_mark(p) {
        Some((v, bold, color)) => Some((v, bold, Some(color))),
        None => match spec_plain_mark(p) {
            Some((v, bold)) => Some((v, bold, None)),
            None => None,
        },
    }
}

/// The marks of the parts that read as marks, in order.
pub open spec fn spec_marks(v: Seq<u8>, parts: Seq<(int, int)>) -> Seq<(int, bool, Option<Seq<char>>)>
    decreases parts.len(),
{
    if parts.len() == 0 {
        seq![]
    } else {
        let rest = spec_marks(v, parts.drop_last());
        match spec_mark(v.subrange(parts.last().0, parts.last().1)) {
            Some(m) => rest.push(m),
            None => rest,
        }
    }
}

pub open spec fn is_custom_mark(m: FingeringMark) -> bool {
    m.bold || m.color is Some
}

pub open spec fn mark_view(m: FingeringMark) -> (int, bool, Option<Seq<char>>) {
    (m.value as int, m.bold, opt_view(m.color))
}

/// What a fingering text gives: nothing without marks; `Marked` when a mark
/// is bold or coloured; otherwise `Single` for one mark and `Multiple` for
/// several.
pub open spec fn fingering_matches(f: Option<Fingering>, marks: Seq<(int, bool, Option<Seq<char>>)>) -> bool {
    if marks.len() == 0 {
        f is None
    } else if exists|i: int| 0 <= i < marks.len() && (marks[i].1 || marks[i].2 is Some) {
        f matches Some(Fingering::Marked(ms)) && ms@.len() == marks.len() && forall|i: int|
            0 <= i < marks.len() ==> mark_view(#[trigger] ms@[i]) == marks[i]
    } else if marks.len() == 1 {
        f == Some(Fingering::Single(marks[0].0 as i32))
    } else {
        f matches Some(Fingering::Multiple(vs)) && vs@.len() == marks.len() && forall|i: int|
            0 <= i < marks.len() ==> #[trigger] vs@[i] as int == marks[i].0
    }
}

/// Every part range lies within the text.
pub open spec fn parts_in_bounds(parts: Seq<(int, int)>, len: int) -> bool {
    forall|k: int| 0 <= k < parts.len() ==> 0 <= (#[trigger] parts[k]).0 <= parts[k].1 <= len
}

proof fn lemma_split_parts_bounds(v: Seq<u8>, i: int, start: Option<int>, depth: int)
    requires
        0 <= i <= v.len(),
        start matches Some(st) ==> 0 <= st <= i,
    ensures
        parts_in_bounds(spec_split_parts(v, i, start, depth), v.len() as int),
    decreases v.len() - i,
{
    let r = spec_split_parts(v, i, start, depth);
    if i < v.len() {
        let c = v[i];
        let opened = if start is None {
            Some(i)
        } else {
            start
        };
        if c == 123 {
            lemma_split_parts_bounds(v, i + 1, opened, depth + 1);
        } else if c == 125 {
            lemma_split_parts_bounds(v, i + 1, start, depth - 1);
        } else if spec_is_text_space(c) && depth == 0 {
            lemma_split_parts_bounds(v, i + 1, None, depth);
            match start {
                Some(st) => {
                    let rest = spec_split_parts(v, i + 1, None, depth);
                    assert(r == seq![(st, i)] + rest);
                    assert forall|k: int| 0 <= k < r.len() implies 0 <= (#[trigger] r[k]).0 <= r[k].1
                        <= v.len() by {
                        if k > 0 {
                            assert(r[k] == rest[k - 1]);
                        } else {
                            assert(r[k] == (st, i));
                        }
                    }
                },
                None => {},
            }
        } else {
            lemma_split_parts_bounds(v, i + 1, opened, depth);
        }
    } else {
        match start {
            Some(st) => {
                assert(r == seq![(st, v.len() as int)]);
                assert(r[0] == (st, v.len() as int));
            },
            None => {},
        }
    }
}

/// Splits a fingering text into parts (see `spec_split_parts`).
pub fn split_fingering_parts(v: &[u8]) -> (parts: Vec<(usize, usize)>)
    requires
        v@.len() <= i32::MAX,
    ensures
        parts@.map_values(|r: (usize, usize)| (r.0 as int, r.1 as int)) == spec_split_parts(
            v@,
            0,
            None,
            0,
        ),
        parts_in_bounds(parts@.map_values(|r: (usize, usize)| (r.0 as int, r.1 as int)), v@.len() as int),
{
    proof {
        lemma_split_parts_bounds(v@, 0, None, 0);
    }
    let mut parts: Vec<(usize, usize)> = Vec::new();
    let mut start: Option<usize> = None;
    let mut depth: i32 = 0;
    let mut i: usize = 0;
    while i < v.len()
        invariant
            0 <= i <= v@.len() <= i32::MAX,
            -(i as int) <= depth <= i,
            start matches Some(st) ==> st < i,
            parts@.map_values(|r: (usize, usize)| (r.0 as int, r.1 as int)) + spec_split_parts(
                v@,
                i as int,
                match start {
                    Some(st) => Some(st as int),
                    None => None,
                },
                depth as int,
            ) == spec_split_parts(v@, 0, None, 0),
        decreases v.len() - i,
    {
        let c = v[i];
        let ghost old_parts = parts@.map_values(|r: (usize, usize)| (r.0 as int, r.1 as int));
        if c == 123 {
            if start.is_none() {
                start = Some(i);
            }
            depth = depth + 1;
        } else if c == 125 {
            depth = depth - 1;
        } else if is_text_space(c) && depth == 0 {
            if let Some(st) = start {
                parts.push((st, i));
                assert(parts@.map_values(|r: (usize, usize)| (r.0 as int, r.1 as int)) =~= old_parts.push(
                    (st as int, i as int),
                ));
                assert(old_parts.push((st as int, i as int)) + spec_split_parts(v@, i + 1, None, depth as int)
                    =~= old_parts + (seq![(st as int, i as int)] + spec_split_parts(v@, i + 1, None, depth as int)));
            }
            start = None;
        } else {
            if start.is_none() {
                start = Some(i);
            }
        }
        i = i + 1;
    }
    if let Some(st) = start {
        let ghost old_parts = parts@.map_values(|r: (usize, usize)| (r.0 as int, r.1 as int));
        parts.push((st, v.len()));
        assert(parts@.map_values(|r: (usize, usize)| (r.0 as int, r.1 as int)) =~= old_parts.push(
            (st as int, v@.len() as int),
        ));
    } else {
        assert(parts@.map_values(|r: (usize, usize)| (r.0 as int, r.1 as int)) + seq![] =~= parts@.map_values(
            |r: (usize, usize)| (r.0 as int, r.1 as int),
        ));
    }
    parts
}

fn parse_plain_mark(v: &[u8], s: usize, e: usize) -> (r: Option<(i32, bool)>)
    requires
        s <= e <= v@.len(),
    ensures
        match r {
            Some((value, bold)) => spec_plain_mark(v@.subrange(s as int, e as int)) == Some(
                (value as int, bold),
            ),
            None => spec_plain_mark(v@.subrange(s as int, e as int)) is None,
        },
{
    let ghost p = v@.subrange(s as int, e as int);
    let bold = e - s >= 3 && v[s] == 42 && v[e - 1] == 42;
    assert(bold == (p.len() >= 3 && p[0] == 42 && p.last() == 42));
    let parsed = if bold {
        assert(v@.subrange(s + 1, e - 1) =~= p.subrange(1, p.len() - 1));
        parse_i32(v, s + 1, e - 1)
    } else {
        parse_i32(v, s, e)
    };
    match parsed {
        Some(value) => Some((value, bold)),
        None => None,
    }
}

fn parse_fingering_mark(v: &[u8], s: usize, e: usize) -> (r: Option<FingeringMark>)
    requires
        s <= e <= v@.len(),
    ensures
        match r {
            Some(m) => spec_mark(v@.subrange(s as int, e as int)) == Some(mark_view(m)),
            None => spec_mark(v@.subrange(s as int, e as int)) is None,
        },
{
    let ghost p = v@.subrange(s as int, e as int);
    let prefix: [u8; 6] = [99, 111, 108, 111, 114, 123];
    proof {
        reveal_strlit("color{");
        assert(prefix@ =~= ascii("color{"@));
    }
    let is_colored = e - s >= 7 && matches_at(v, s, &prefix) && v[e - 1] == 125;
    proof {
        if e - s >= 7 {
            assert(v@.subrange(s as int, s + 6) =~= p.subrange(0, 6));
        }
    }
    assert(is_colored == (p.len() >= 7 && p.subrange(0, 6) == ascii("color{"@) && p.last() == 125));
    if is_colored {
        let inner_s = s + 6;
        let inner_e = e - 1;
        let ghost inner = p.subrange(6, p.len() - 1);
        assert(inner =~= v@.subrange(inner_s as int, inner_e as int));
        let inner_slice = &v[inner_s..inner_e];
        let colon = find_byte(inner_slice, 0, 58);
        if colon < inner_slice.len() {
            assert(inner.subrange(colon + 1, inner.len() as int) =~= v@.subrange(
                inner_s + colon + 1,
                inner_e as int,
            ));
            if let Some((value, bold)) = parse_plain_mark(v, inner_s + colon + 1, inner_e) {
                let raw = latin1_string(inner_slice, 0, colon);
                let color = owned(resolve_color_name(raw.as_str()));
                return Some(FingeringMark { value, bold, color: Some(color) });
            }
        }
    }
    match parse_plain_mark(v, s, e) {
        Some((value, bold)) => Some(FingeringMark { value, bold, color: None }),
        None => None,
    }
}

/// The fingering a fingering text gives (see `fingering_matches`).
pub fn parse_fingering_text(v: &[u8]) -> (r: Option<Fingering>)
    requires
        v@.len() <= i32::MAX,
    ensures
        fingering_matches(
            r,
            spec_marks(v@, spec_split_parts(v@, 0, None, 0)),
        ),
{
    let parts = split_fingering_parts(v);
    let ghost ps = spec_split_parts(v@, 0, None, 0);
    assert(ps.len() == parts@.len());
    let mut marks: Vec<FingeringMark> = Vec::new();
    let mut k: usize = 0;
    while k < parts.len()
        invariant
            0 <= k <= parts@.len() == ps.len(),
            ps == parts@.map_values(|r: (usize, usize)| (r.0 as int, r.1 as int)),
            parts_in_bounds(ps, v@.len() as int),
            marks@.map_values(|m: FingeringMark| mark_view(m)) == spec_marks(v@, ps.take(k as int)),
        decreases parts.len() - k,
    {
        let (s, e) = parts[k];
        assert(ps[k as int] == (s as int, e as int));
        assert(ps.take(k + 1).drop_last() =~= ps.take(k as int));
        assert(ps.take(k + 1).last() == (s as int, e as int));
        let ghost before = marks@;
        if let Some(m) = parse_fingering_mark(v, s, e) {
            let ghost mg = m;
            marks.push(m);
            assert(marks@ == before.push(mg));
            assert(marks@.map_values(|m: FingeringMark| mark_view(m)) =~= before.map_values(
                |m: FingeringMark| mark_view(m),
            ).push(mark_view(mg)));
        }
        k = k + 1;
    }
    assert(ps.take(parts@.len() as int) =~= ps);
    let mut custom = false;
    let mut j: usize = 0;
    while j < marks.len()
        invariant
            0 <= j <= marks@.len(),
            custom == exists|i: int| 0 <= i < j && #[trigger] is_custom_mark(marks@[i]),
        decreases marks.len() - j,
    {
        if marks[j].bold || marks[j].color.is_some() {
            custom = true;
            assert(is_custom_mark(marks@[j as int]));
        } else {
            assert(!is_custom_mark(marks@[j as int]));
        }
        j = j + 1;
    }
    let ghost ms = spec_marks(v@, ps);
    assert(ms.len() == marks@.len());
    assert forall|i: int| 0 <= i < marks@.len() implies mark_view(#[trigger] marks@[i]) == ms[i] by {
        assert(marks@.map_values(|m: FingeringMark| mark_view(m))[i] == mark_view(marks@[i]));
    }
    assert((exists|i: int| 0 <= i < ms.len() && (ms[i].1 || ms[i].2 is Some)) == custom) by {
        if custom {
            let i = choose|i: int| 0 <= i < marks@.len() && #[trigger] is_custom_mark(marks@[i]);
            assert(ms[i] == mark_view(marks@[i]));
        }
        if exists|i: int| 0 <= i < ms.len() && (ms[i].1 || ms[i].2 is Some) {
            let i = choose|i: int| 0 <= i < ms.len() && (ms[i].1 || ms[i].2 is Some);
            assert(ms[i] == mark_view(marks@[i]));
            assert(is_custom_mark(marks@[i]));
        }
    }
    if marks.len() == 0 {
        None
    } else if custom {
        Some(Fingering::Marked(marks))
    } else if marks.len() == 1 {
        Some(Fingering::Single(marks[0].value))
    } else {
        let mut values: Vec<i32> = Vec::new();
        let mut j: usize = 0;
        while j < marks.len()
            invariant
                0 <= j <= marks@.len(),
                values@.len() == j,
                forall|i: int| 0 <= i < j ==> values@[i] == marks@[i].value,
            decreases marks.len() - j,
        {
            values.push(marks[j].value);
            j = j + 1;
        }
        Some(Fingering::Multiple(values))
    }
}

/// The fingering at `p` (which `spec_fingering_start` holds of): its marks,
/// its position (`below` for `n_[`, else `above`) and the position after it.
pub fn parse_fingering(b: &[u8], p: usize) -> (r: (Option<Fingering>, String, usize))
    requires
        p <= b@.len() <= i32::MAX,
        spec_fingering_start(b@, p as int),
    ensures
        ({
            let below = b@[p + 1] == 95;
            let start = if below {
                p + 3
            } else {
                p + 2
            };
            let q = spec_find(b@, start, 93);
            let text = b@.subrange(start, q);
            &&& fingering_matches(r.0, spec_marks(text, spec_split_parts(text, 0, None, 0)))
            &&& r.1@ == if below {
                "below"@
            } else {
                "above"@
            }
            &&& r.2 == if q < b@.len() {
                q + 1
            } else {
                q
            }
        }),
        p < r.2 <= b@.len(),
{
    let below = b[p + 1] == 95;
    let start = if below {
        p + 3
    } else {
        p + 2
    };
    let q = find_byte(b, start, 93);
    let text = &b[start..q];
    let fingering = parse_fingering_text(text);
    let position = if below {
        owned("below")
    } else {
        owned("above")
    };
    let next = if q < b.len() {
        q + 1
    } else {
        q
    };
    (fingering, position, next)
}

} // verus!
