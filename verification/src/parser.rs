//! The music-string parser: turns a music string into events.

use vstd::prelude::*;

use crate::lexer::{
    ascii, duration_ok, is_fingering_start, parse_duration_dots, parse_fingering, parse_i32, peek,
    parse_octave_markers, parse_color_call, read_digit_run, digits_to_i32, read_voice_group,
    parse_lyric, parse_staff_marker, parse_tagged_text, read_bracketed_text, spec_find,
    spec_parse_i32, find_byte,
};
use crate::text::{
    is_digit, is_lower, is_whitespace_char, is_word_char, latin1_string, matches_at, opt_view, owned,
    push_char, str_trim, trim_ws, utf8_lossy,
};
use crate::pitch::{clef_default_base_octave, is_supported_clef};
use crate::types::{
    Barline, Chord, ChordNote, ClefChange, ElementColors, Event, Fingering, Gap, LyricEntry, Note, Rest, Spacer, VoiceGroup,
    KeySig, TimeSig,
};
use crate::note_colors::{
    accidental_at, apply_note_colors, build_note_color_map, chord_note_colored, event_colored, keys_fit,
    note_colored, set_if_missing, source_view, winner, NoteColorMap,
};

verus! {

/// The part of a note, rest or chord that a following `color{...}` applies to.
#[derive(Clone, Copy)]
pub enum EventColorTarget {
    Overall,
    Tie,
    Slur,
    Beam,
    Articulations,
    Dynamic,
    ChordSymbol,
    StaffText,
    ExpressionText,
    Fingering,
    Lyrics,
    Trill,
    StaffMarkers,
}

/// What the most recent element was, for a following `color{...}`.
#[derive(Clone, Copy)]
pub enum LastColorTarget {
    Event(EventColorTarget),
    Barline,
    Clef,
    TimeSig,
    Spacer,
}

/// A time-signature token: `common`/`C`, `cut`/`C|`, or `upper/lower` with
/// exactly one `/` and an integer on each side.
pub open spec fn spec_time_token(t: Seq<u8>) -> Option<(int, int, Option<Seq<char>>)> {
    if t == ascii("common"@) || t == seq![67u8] {
        Some((4, 4, Some("common"@)))
    } else if t == ascii("cut"@) || t == seq![67u8, 124u8] {
        Some((2, 2, Some("cut"@)))
    } else {
        let k = spec_find(t, 0, 47);
        if k >= t.len() || spec_find(t, k + 1, 47) < t.len() || k == 0 || k + 1 == t.len() {
            None
        } else {
            match (spec_parse_i32(t.subrange(0, k)), spec_parse_i32(t.subrange(k + 1, t.len() as int))) {
                (Some(u), Some(l)) => Some((u, l, None)),
                _ => None,
            }
        }
    }
}

pub open spec fn time_sig_is(ts: TimeSig, spec: (int, int, Option<Seq<char>>)) -> bool {
    &&& ts.upper as int == spec.0
    &&& ts.lower as int == spec.1
    &&& opt_view(ts.symbol) == spec.2
    &&& ts.ending is None
    &&& !ts.ending_start
    &&& !ts.ending_end
    &&& ts.color is None
}

fn time_sig(upper: i32, lower: i32, symbol: Option<String>) -> (ts: TimeSig)
    ensures
        ts.upper == upper,
        ts.lower == lower,
        ts.symbol == symbol,
        ts.ending is None,
        !ts.ending_start,
        !ts.ending_end,
        ts.color is None,
{
    TimeSig { upper, lower, symbol, ending: None, ending_start: false, ending_end: false, color: None }
}

/// Reads a time-signature token (see `spec_time_token`).
pub fn parse_time_token(t: &[u8]) -> (r: Option<TimeSig>)
    ensures
        match spec_time_token(t@) {
            Some(s) => r matches Some(ts) && time_sig_is(ts, s),
            None => r is None,
        },
{
    let common: [u8; 6] = [99, 111, 109, 109, 111, 110];
    let cut: [u8; 3] = [99, 117, 116];
    proof {
        reveal_strlit("common");
        reveal_strlit("cut");
        assert(common@ =~= ascii("common"@));
        assert(cut@ =~= ascii("cut"@));
    }
    let is_common = (t.len() == 6 && matches_at(t, 0, &common)) || (t.len() == 1 && t[0] == 67);
    proof {
        if t@.len() == 6 {
            assert(t@.subrange(0, 6) =~= t@);
        }
        if t@.len() == 1 && t@[0] == 67 {
            assert(t@ =~= seq![67u8]);
        }
    }
    if is_common {
        return Some(time_sig(4, 4, Some(owned("common"))));
    }
    let is_cut = (t.len() == 3 && matches_at(t, 0, &cut)) || (t.len() == 2 && t[0] == 67 && t[1]
        == 124);
    proof {
        if t@.len() == 3 {
            assert(t@.subrange(0, 3) =~= t@);
        }
        if t@.len() == 2 && t@[0] == 67 && t@[1] == 124 {
            assert(t@ =~= seq![67u8, 124u8]);
        }
    }
    if is_cut {
        return Some(time_sig(2, 2, Some(owned("cut"))));
    }
    let k = find_byte(t, 0, 47);
    if k >= t.len() {
        return None;
    }
    let k2 = find_byte(t, k + 1, 47);
    if k2 < t.len() || k == 0 || k + 1 == t.len() {
        return None;
    }
    match (parse_i32(t, 0, k), parse_i32(t, k + 1, t.len())) {
        (Some(upper), Some(lower)) => Some(time_sig(upper, lower, None)),
        _ => None,
    }
}

/// What may follow a note, rest or chord.
pub struct NoteAttachments {
    pub tie: bool,
    pub articulations: Vec<String>,
    pub dynamic: Option<String>,
    pub trill: bool,
    pub slur_start: bool,
    pub slur_end: bool,
    pub beam_start: bool,
    pub beam_end: bool,
    pub chord_symbol: Option<String>,
    pub staff_markers: Vec<String>,
    pub staff_text: Option<String>,
    pub expression_text: Option<String>,
    pub fingering: Option<Fingering>,
    pub fingering_position: String,
    pub lyrics: Vec<LyricEntry>,
    pub last_color_target: EventColorTarget,
}

impl NoteAttachments {
    pub fn new() -> (a: NoteAttachments)
        ensures
            !a.tie,
            a.articulations@.len() == 0,
            a.dynamic is None,
            !a.trill && !a.slur_start && !a.slur_end && !a.beam_start && !a.beam_end,
            a.chord_symbol is None,
            a.staff_markers@.len() == 0,
            a.staff_text is None,
            a.expression_text is None,
            a.fingering is None,
            a.fingering_position@ == "above"@,
            a.lyrics@.len() == 0,
            a.last_color_target == EventColorTarget::Overall,
    {
        NoteAttachments {
            tie: false,
            articulations: Vec::new(),
            dynamic: None,
            trill: false,
            slur_start: false,
            slur_end: false,
            beam_start: false,
            beam_end: false,
            chord_symbol: None,
            staff_markers: Vec::new(),
            staff_text: None,
            expression_text: None,
            fingering: None,
            fingering_position: owned("above"),
            lyrics: Vec::new(),
            last_color_target: EventColorTarget::Overall,
        }
    }
}

/// The first byte of a plain melody token: a note letter `a`-`g`, a rest
/// `r`, a spacer `s`, a barline's `|` or `:`, a chord `<`, the `t` or `p` that
/// starts a clef name (see `melody_word`), the digit or `C` that starts a
/// time signature, or the `v` of a voice group.
pub open spec fn plain_token_start(c: u8) -> bool {
    97 <= c <= 103 || c == 114 || c == 115 || c == 124 || c == 58 || c == 60 || c == 116 || c == 112
        || (48 <= c <= 57) || c == 67 || c == 118
}

/// Nothing attaches at `p`: the input ends, a newline or two spaces follow,
/// or one space leads to the next plain token, which does not spell `ex`
/// or `tex`.
pub open spec fn quiet_follow(b: Seq<u8>, p: int) -> bool {
    ||| p == b.len()
    ||| (0 <= p < b.len() && b[p] == 10)
    ||| (0 <= p && p + 1 < b.len() && b[p] == 32 && b[p + 1] == 32)
    ||| {
        &&& 0 <= p
        &&& p + 1 < b.len()
        &&& b[p] == 32
        &&& plain_token_start(b[p + 1])
        &&& (p + 2 < b.len() && b[p + 1] == 101 ==> b[p + 2] != 120)
        &&& (p + 3 < b.len() && b[p + 1] == 116 && b[p + 2] == 101 ==> b[p + 3] != 120)
    }
}

proof fn lemma_quiet_no_attachment(b: Seq<u8>, p: int)
    requires
        quiet_follow(b, p),
        p < b.len(),
    ensures
        b[p] == 32 && b[p + 1] != 32 ==> !crate::text::spec_is_whitespace_char(b[p + 1])
            && !spec_can_start_post_note_attachment(b, p + 1),
        b[p] == 10 ==> !spec_can_start_post_note_attachment(b, p),
{
    reveal_strlit("text[");
    reveal_strlit("exp[");
    if b[p] == 10 {
        if crate::text::spec_matches_at(b, p, ascii("exp["@)) {
            assert(b.subrange(p, p + 4)[0] == b[p]);
        }
        if crate::text::spec_matches_at(b, p, ascii("text["@)) {
            assert(b.subrange(p, p + 5)[0] == b[p]);
        }
        return;
    }
    if !(b[p] == 32 && b[p + 1] != 32) {
        return;
    }
    if crate::text::spec_matches_at(b, p + 1, ascii("exp["@)) {
        assert(b.subrange(p + 1, p + 5)[0] == b[p + 1]);
        assert(b.subrange(p + 1, p + 5)[1] == b[p + 2]);
        assert(ascii("exp["@)[0] == 101);
        assert(ascii("exp["@)[1] == 120);
    }
    if crate::text::spec_matches_at(b, p + 1, ascii("text["@)) {
        assert(b.subrange(p + 1, p + 6)[0] == b[p + 1]);
        assert(b.subrange(p + 1, p + 6)[1] == b[p + 2]);
        assert(b.subrange(p + 1, p + 6)[2] == b[p + 3]);
        assert(ascii("text["@)[0] == 116);
        assert(ascii("text["@)[1] == 101);
        assert(ascii("text["@)[2] == 120);
    }
}

/// A note letter, `r` or `s` whose word cannot be a keyword, a
/// time-signature word or a clef name: the letter ends its word, or a
/// written duration (digits, or `maxima`, `breve`, `longa`) follows it.
pub open spec fn plain_word(b: Seq<u8>, p: int) -> bool {
    &&& 0 <= p < b.len()
    &&& (97 <= b[p] <= 103 || b[p] == 114 || b[p] == 115)
    &&& {
        ||| p + 1 == b.len()
        ||| !crate::text::spec_is_word_char(b[p + 1])
        ||| crate::text::spec_is_digit(b[p + 1])
        ||| duration_name_len(b, p + 1) > 0
    }
}

/// The length of the duration name (`maxima`, `breve`, `longa`) at `x`, or
/// 0 where none starts.
pub open spec fn duration_name_len(b: Seq<u8>, x: int) -> int {
    if crate::text::spec_matches_at(b, x, ascii("maxima"@)) {
        6
    } else if crate::text::spec_matches_at(b, x, ascii("breve"@)) {
        5
    } else if crate::text::spec_matches_at(b, x, ascii("longa"@)) {
        5
    } else {
        0
    }
}

/// A duration name at `x` and what it reads as.
proof fn lemma_named_duration(b: Seq<u8>, x: int, sticky: int)
    requires
        0 <= x,
        duration_name_len(b, x) > 0,
    ensures
        x + duration_name_len(b, x) <= b.len(),
        crate::lexer::spec_digit_run(b, x) == 0,
        crate::lexer::spec_duration_at(b, x, sticky).1 == x + duration_name_len(b, x),
        b[x] == 109 || b[x] == 98 || b[x] == 108,
        b[x] == 108 ==> b[x + 1] == 111,
        forall|k: int|
            x <= k < x + duration_name_len(b, x) ==> crate::text::spec_is_lower(#[trigger] b[k]),
{
    reveal_strlit("maxima");
    reveal_strlit("breve");
    reveal_strlit("longa");
    let n = duration_name_len(b, x);
    if n == 6 {
        assert forall|k: int| x <= k < x + 6 implies crate::text::spec_is_lower(#[trigger] b[k]) by {
            assert(b[k] == b.subrange(x, x + 6)[k - x]);
        }
        assert(b[x] == b.subrange(x, x + 6)[0]);
    } else if crate::text::spec_matches_at(b, x, ascii("breve"@)) {
        assert forall|k: int| x <= k < x + 5 implies crate::text::spec_is_lower(#[trigger] b[k]) by {
            assert(b[k] == b.subrange(x, x + 5)[k - x]);
        }
        assert(b[x] == b.subrange(x, x + 5)[0]);
    } else {
        assert forall|k: int| x <= k < x + 5 implies crate::text::spec_is_lower(#[trigger] b[k]) by {
            assert(b[k] == b.subrange(x, x + 5)[k - x]);
        }
        assert(b[x] == b.subrange(x, x + 5)[0]);
        assert(b[x + 1] == b.subrange(x, x + 5)[1]);
    }
}

/// A word of a note letter, `r` or `s` that stands alone or goes on with a
/// digit or a duration name (`m`, `b`, or `lo`) is no time-signature word
/// and no clef name.
proof fn lemma_note_word_no_keyword(w: Seq<u8>)
    requires
        w.len() >= 1,
        97 <= w[0] <= 103 || w[0] == 114 || w[0] == 115,
        forall|k: int| 0 <= k < w.len() ==> crate::text::spec_is_word_char(#[trigger] w[k]),
        w.len() == 1 || crate::text::spec_is_digit(w[1]) || w[1] == 109 || w[1] == 98 || (w[1] == 108
            && w.len() > 2 && w[2] == 111),
    ensures
        spec_time_token(w) is None,
        !crate::pitch::spec_is_supported_clef(crate::text::latin1(w)),
{
    reveal_strlit("common");
    reveal_strlit("cut");
    reveal_strlit("treble");
    reveal_strlit("bass");
    reveal_strlit("alto");
    reveal_strlit("tenor");
    reveal_strlit("treble-8a");
    reveal_strlit("treble-8b");
    reveal_strlit("treble-15a");
    reveal_strlit("treble-15b");
    reveal_strlit("bass-8a");
    reveal_strlit("bass-8b");
    reveal_strlit("bass-15a");
    reveal_strlit("bass-15b");
    reveal_strlit("percussion");
    crate::lexer::lemma_find_bounds(w, 0, 47);
    assert(ascii("common"@)[1] == 111);
    assert(ascii("cut"@)[1] == 117);
    let cw = crate::text::latin1(w);
    assert(cw.len() == w.len());
    if w.len() >= 2 {
        assert(cw[1] == w[1] as char);
        let c1 = cw[1];
        assert(('0' <= c1 <= '9') || c1 == 'm' || c1 == 'b' || c1 == 'l');
    }
    if w.len() > 2 {
        assert(cw[2] == w[2] as char);
    }
    if spec_find(w, 0, 47) < w.len() {
        let k = spec_find(w, 0, 47);
        assert(crate::text::spec_is_word_char(w[k]));
    }
}

/// A lyric, `text[`, `exp[`, fingering or chord-symbol bracket starts at `p`.
pub open spec fn spec_can_start_post_note_attachment(b: Seq<u8>, p: int) -> bool {
    ||| (0 <= p < b.len() && b[p] == 108)
    ||| crate::text::spec_matches_at(b, p, ascii("text["@))
    ||| crate::text::spec_matches_at(b, p, ascii("exp["@))
    ||| crate::lexer::spec_fingering_start(b, p)
    ||| (0 <= p < b.len() && b[p] == 91)
}

fn text_tag() -> (r: [u8; 5])
    ensures
        r@ == ascii("text["@),
{
    let r: [u8; 5] = [116, 101, 120, 116, 91];
    proof {
        reveal_strlit("text[");
        assert(r@ =~= ascii("text["@));
    }
    r
}

fn exp_tag() -> (r: [u8; 4])
    ensures
        r@ == ascii("exp["@),
{
    let r: [u8; 4] = [101, 120, 112, 91];
    proof {
        reveal_strlit("exp[");
        assert(r@ =~= ascii("exp["@));
    }
    r
}

pub fn can_start_post_note_attachment(b: &[u8], p: usize) -> (r: bool)
    requires
        p <= b@.len() <= i32::MAX,
    ensures
        r == spec_can_start_post_note_attachment(b@, p as int),
{
    let text = text_tag();
    let exp = exp_tag();
    (p < b.len() && b[p] == 108) || matches_at(b, p, &text) || matches_at(b, p, &exp)
        || is_fingering_start(b, p) || (p < b.len() && b[p] == 91)
}

/// The views of a sequence of strings.
pub open spec fn string_views(v: Seq<String>) -> Seq<Seq<char>> {
    v.map_values(|s: String| s@)
}

/// An articulation sign: `>` accent, `*` staccato, `-` tenuto, `_` fermata.
pub open spec fn is_articulation(c: u8) -> bool {
    c == 62 || c == 42 || c == 45 || c == 95
}

/// The name of an articulation sign.
pub open spec fn articulation_name(c: u8) -> Seq<char> {
    if c == 62 {
        "accent"@
    } else if c == 42 {
        "staccato"@
    } else if c == 45 {
        "tenuto"@
    } else {
        "fermata"@
    }
}

/// The articulations written from `x` on, up to the first other byte.
pub open spec fn articulation_run(b: Seq<u8>, x: int) -> Seq<Seq<char>>
    decreases b.len() - x,
{
    if 0 <= x < b.len() && is_articulation(b[x]) {
        seq![articulation_name(b[x])] + articulation_run(b, x + 1)
    } else {
        Seq::empty()
    }
}

/// The staff markers written one after another from `x` on, and the
/// position after them.
pub open spec fn marker_run(b: Seq<u8>, x: int) -> (Seq<Seq<char>>, int)
    decreases b.len() - x,
{
    let (m, n) = crate::lexer::spec_staff_marker(b, x);
    if m is Some && x < n <= b.len() {
        let (rest, e) = marker_run(b, n);
        (seq![m->0] + rest, e)
    } else {
        (Seq::empty(), x)
    }
}

/// The marks right after a note, rest or chord at `p`, before its text
/// attachments, each stage starting where the one before ended: a tie `~`;
/// articulations; a dynamic `v[..]` (kept when not empty); a tie, unless
/// there was one; a trill `tr`; staff markers; a slur start `(` and end
/// `)`; a beam start `[` (not before a letter `A`-`G`, which starts a chord
/// symbol) and end `]`.
pub open spec fn marks_tie1(b: Seq<u8>, p: int) -> bool {
    crate::lexer::spec_peek(b, p) == Some(126u8)
}

pub open spec fn marks_arts_at(b: Seq<u8>, p: int) -> int {
    if marks_tie1(b, p) {
        p + 1
    } else {
        p
    }
}

pub open spec fn marks_articulations(b: Seq<u8>, p: int) -> Seq<Seq<char>> {
    articulation_run(b, marks_arts_at(b, p))
}

pub open spec fn marks_dyn_at(b: Seq<u8>, p: int) -> int {
    marks_arts_at(b, p) + marks_articulations(b, p).len()
}

pub open spec fn marks_has_dyn(b: Seq<u8>, p: int) -> bool {
    crate::lexer::spec_peek(b, marks_dyn_at(b, p)) == Some(118u8) && crate::lexer::spec_peek(
        b,
        marks_dyn_at(b, p) + 1,
    ) == Some(91u8)
}

pub open spec fn marks_dynamic(b: Seq<u8>, p: int) -> Option<Seq<char>> {
    let text = crate::lexer::spec_bracketed(b, marks_dyn_at(b, p) + 2).0;
    if marks_has_dyn(b, p) && text.len() != 0 {
        Some(text)
    } else {
        None
    }
}

pub open spec fn marks_tie2_at(b: Seq<u8>, p: int) -> int {
    if marks_has_dyn(b, p) {
        crate::lexer::spec_bracketed(b, marks_dyn_at(b, p) + 2).1
    } else {
        marks_dyn_at(b, p)
    }
}

pub open spec fn marks_tie2(b: Seq<u8>, p: int) -> bool {
    !marks_tie1(b, p) && crate::lexer::spec_peek(b, marks_tie2_at(b, p)) == Some(126u8)
}

pub open spec fn marks_trill_at(b: Seq<u8>, p: int) -> int {
    marks_tie2_at(b, p) + if marks_tie2(b, p) {
        1int
    } else {
        0int
    }
}

pub open spec fn marks_trill(b: Seq<u8>, p: int) -> bool {
    crate::lexer::spec_peek(b, marks_trill_at(b, p)) == Some(116u8) && crate::lexer::spec_peek(
        b,
        marks_trill_at(b, p) + 1,
    ) == Some(114u8)
}

pub open spec fn marks_markers_at(b: Seq<u8>, p: int) -> int {
    marks_trill_at(b, p) + if marks_trill(b, p) {
        2int
    } else {
        0int
    }
}

pub open spec fn marks_markers(b: Seq<u8>, p: int) -> Seq<Seq<char>> {
    marker_run(b, marks_markers_at(b, p)).0
}

pub open spec fn marks_slur_at(b: Seq<u8>, p: int) -> int {
    marker_run(b, marks_markers_at(b, p)).1
}

pub open spec fn marks_slur_start(b: Seq<u8>, p: int) -> bool {
    crate::lexer::spec_peek(b, marks_slur_at(b, p)) == Some(40u8)
}

pub open spec fn marks_slur_end_at(b: Seq<u8>, p: int) -> int {
    marks_slur_at(b, p) + if marks_slur_start(b, p) {
        1int
    } else {
        0int
    }
}

pub open spec fn marks_slur_end(b: Seq<u8>, p: int) -> bool {
    crate::lexer::spec_peek(b, marks_slur_end_at(b, p)) == Some(41u8)
}

pub open spec fn marks_beam_at(b: Seq<u8>, p: int) -> int {
    marks_slur_end_at(b, p) + if marks_slur_end(b, p) {
        1int
    } else {
        0int
    }
}

pub open spec fn marks_beam_start(b: Seq<u8>, p: int) -> bool {
    let x = marks_beam_at(b, p);
    crate::lexer::spec_peek(b, x) == Some(91u8) && !(x + 1 < b.len() && 65 <= b[x + 1] <= 71)
}

pub open spec fn marks_beam_end_at(b: Seq<u8>, p: int) -> int {
    marks_beam_at(b, p) + if marks_beam_start(b, p) {
        1int
    } else {
        0int
    }
}

pub open spec fn marks_beam_end(b: Seq<u8>, p: int) -> bool {
    crate::lexer::spec_peek(b, marks_beam_end_at(b, p)) == Some(93u8)
}

/// Where the marks after `p` end.
pub open spec fn marks_end(b: Seq<u8>, p: int) -> int {
    marks_beam_end_at(b, p) + if marks_beam_end(b, p) {
        1int
    } else {
        0int
    }
}

/// The part the last of the marks after `p` names for a following
/// `color{...}` (the whole element when there is none).
pub open spec fn marks_target(b: Seq<u8>, p: int) -> EventColorTarget {
    if marks_beam_start(b, p) || marks_beam_end(b, p) {
        EventColorTarget::Beam
    } else if marks_slur_start(b, p) || marks_slur_end(b, p) {
        EventColorTarget::Slur
    } else if marks_markers(b, p).len() > 0 {
        EventColorTarget::StaffMarkers
    } else {
        marks_early_target(b, p)
    }
}

/// The colour target of the marks up to the trill.
pub open spec fn marks_early_target(b: Seq<u8>, p: int) -> EventColorTarget {
    if marks_trill(b, p) {
        EventColorTarget::Trill
    } else if marks_tie2(b, p) {
        EventColorTarget::Tie
    } else if marks_dynamic(b, p) is Some {
        EventColorTarget::Dynamic
    } else if marks_articulations(b, p).len() > 0 {
        EventColorTarget::Articulations
    } else if marks_tie1(b, p) {
        EventColorTarget::Tie
    } else {
        EventColorTarget::Overall
    }
}

/// The attachments carry the marks read after `p` (see `marks_tie1` and
/// the stages after it).
pub open spec fn marks_read(a: NoteAttachments, b: Seq<u8>, p: int) -> bool {
    &&& a.tie == (marks_tie1(b, p) || marks_tie2(b, p))
    &&& string_views(a.articulations@) == marks_articulations(b, p)
    &&& opt_view(a.dynamic) == marks_dynamic(b, p)
    &&& a.trill == marks_trill(b, p)
    &&& string_views(a.staff_markers@) == marks_markers(b, p)
    &&& a.slur_start == marks_slur_start(b, p)
    &&& a.slur_end == marks_slur_end(b, p)
    &&& a.beam_start == marks_beam_start(b, p)
    &&& a.beam_end == marks_beam_end(b, p)
}

/// No text attachment follows: no lyrics, staff or expression text,
/// fingering or chord symbol, the default fingering position, and the
/// colour target of the marks.
pub open spec fn no_text_attachments(a: NoteAttachments, b: Seq<u8>, p: int) -> bool {
    &&& a.lyrics@.len() == 0
    &&& a.staff_text is None
    &&& a.expression_text is None
    &&& a.fingering is None
    &&& a.chord_symbol is None
    &&& a.fingering_position@ == "above"@
    &&& a.last_color_target == marks_target(b, p)
}

proof fn lemma_articulation_step(b: Seq<u8>, x0: int, x: int, arts: Seq<Seq<char>>)
    requires
        0 <= x0 <= x < b.len(),
        is_articulation(b[x]),
        articulation_run(b, x0) == arts + articulation_run(b, x),
    ensures
        articulation_run(b, x0) == arts.push(articulation_name(b[x])) + articulation_run(b, x + 1),
{
    assert(articulation_run(b, x) == seq![articulation_name(b[x])] + articulation_run(b, x + 1));
    assert(arts + (seq![articulation_name(b[x])] + articulation_run(b, x + 1)) =~= arts.push(
        articulation_name(b[x]),
    ) + articulation_run(b, x + 1));
}

proof fn lemma_marker_step(b: Seq<u8>, x0: int, x: int, ms: Seq<Seq<char>>)
    requires
        0 <= x0 <= x,
        crate::lexer::spec_staff_marker(b, x).0 is Some,
        x < crate::lexer::spec_staff_marker(b, x).1 <= b.len(),
        marker_run(b, x0).0 == ms + marker_run(b, x).0,
        marker_run(b, x0).1 == marker_run(b, x).1,
    ensures
        marker_run(b, x0).0 == ms.push(crate::lexer::spec_staff_marker(b, x).0->0) + marker_run(
            b,
            crate::lexer::spec_staff_marker(b, x).1,
        ).0,
        marker_run(b, x0).1 == marker_run(b, crate::lexer::spec_staff_marker(b, x).1).1,
{
    let m = crate::lexer::spec_staff_marker(b, x).0->0;
    let n = crate::lexer::spec_staff_marker(b, x).1;
    assert(marker_run(b, x).0 == seq![m] + marker_run(b, n).0);
    assert(ms + (seq![m] + marker_run(b, n).0) =~= ms.push(m) + marker_run(b, n).0);
}

/// Reads the marks after `p` up to the trill: gives attachments that hold
/// them and nothing else, and the position after them.
#[verifier::spinoff_prover]
#[verifier::rlimit(40)]
fn read_early_marks(b: &[u8], p: usize) -> (r: (NoteAttachments, usize))
    requires
        p <= b@.len() <= i32::MAX,
    ensures
        r.1 == marks_markers_at(b@, p as int),
        p <= r.1 <= b@.len(),
        r.0.tie == (marks_tie1(b@, p as int) || marks_tie2(b@, p as int)),
        string_views(r.0.articulations@) == marks_articulations(b@, p as int),
        opt_view(r.0.dynamic) == marks_dynamic(b@, p as int),
        r.0.trill == marks_trill(b@, p as int),
        r.0.staff_markers@.len() == 0,
        !r.0.slur_start && !r.0.slur_end && !r.0.beam_start && !r.0.beam_end,
        r.0.chord_symbol is None && r.0.staff_text is None && r.0.expression_text is None,
        r.0.fingering is None && r.0.lyrics@.len() == 0,
        r.0.fingering_position@ == "above"@,
        r.0.last_color_target == marks_early_target(b@, p as int),
{
    let mut att = NoteAttachments::new();
    let mut p = p;
    let ghost p0 = p as int;
    let ghost bv = b@;

    // Tie before articulations
    if p < b.len() && b[p] == 126 {
        att.tie = true;
        att.last_color_target = EventColorTarget::Tie;
        p = p + 1;
    }
    assert(p == marks_arts_at(bv, p0));
    let ghost x0 = p as int;
    proof {
        assert(string_views(att.articulations@) =~= Seq::<Seq<char>>::empty());
        assert(articulation_run(bv, x0) =~= Seq::<Seq<char>>::empty() + articulation_run(bv, x0));
    }
    // Articulations
    while p < b.len() && (b[p] == 62 || b[p] == 42 || b[p] == 45 || b[p] == 95)
        invariant
            x0 <= p <= b@.len() <= i32::MAX,
            bv == b@,
            x0 == marks_arts_at(bv, p0),
            att.fingering_position@ == "above"@,
            articulation_run(bv, x0) == string_views(att.articulations@) + articulation_run(bv, p as int),
            string_views(att.articulations@).len() == p - x0,
            att.tie == marks_tie1(bv, p0),
            att.dynamic is None,
            !att.trill && !att.slur_start && !att.slur_end && !att.beam_start && !att.beam_end,
            att.staff_markers@.len() == 0,
            att.chord_symbol is None && att.staff_text is None && att.expression_text is None,
            att.fingering is None && att.lyrics@.len() == 0,
            att.last_color_target == if p > x0 {
                EventColorTarget::Articulations
            } else if marks_tie1(bv, p0) {
                EventColorTarget::Tie
            } else {
                EventColorTarget::Overall
            },
        decreases b.len() - p,
    {
        let name = if b[p] == 62 {
            owned("accent")
        } else if b[p] == 42 {
            owned("staccato")
        } else if b[p] == 45 {
            owned("tenuto")
        } else {
            owned("fermata")
        };
        proof {
            lemma_articulation_step(bv, x0, p as int, string_views(att.articulations@));
        }
        let ghost before = att.articulations@;
        att.articulations.push(name);
        proof {
            assert(string_views(att.articulations@) =~= string_views(before).push(articulation_name(bv[p as int])));
        }
        att.last_color_target = EventColorTarget::Articulations;
        p = p + 1;
    }
    proof {
        assert(articulation_run(bv, p as int) =~= Seq::<Seq<char>>::empty());
        assert(string_views(att.articulations@) + Seq::<Seq<char>>::empty() =~= string_views(att.articulations@));
    }
    assert(p == marks_dyn_at(bv, p0));
    // Dynamic
    if p < b.len() && b[p] == 118 && p + 1 < b.len() && b[p + 1] == 91 {
        let (value, next) = read_bracketed_text(b, p + 2);
        if value.unicode_len() != 0 {
            att.dynamic = Some(value);
            att.last_color_target = EventColorTarget::Dynamic;
        }
        p = next;
    }
    assert(p == marks_tie2_at(bv, p0));
    // Tie after articulations/dynamic
    if !att.tie && p < b.len() && b[p] == 126 {
        att.tie = true;
        att.last_color_target = EventColorTarget::Tie;
        p = p + 1;
    }
    assert(p == marks_trill_at(bv, p0));
    // Trill
    if p < b.len() && b[p] == 116 && p + 1 < b.len() && b[p + 1] == 114 {
        att.trill = true;
        att.last_color_target = EventColorTarget::Trill;
        p = p + 2;
    }
    assert(p == marks_markers_at(bv, p0));
    (att, p)
}

/// Reads the marks after a note, rest or chord at `p` (see `marks_read`):
/// gives attachments that hold them and nothing else, and the position
/// after them.
#[verifier::spinoff_prover]
#[verifier::rlimit(40)]
fn read_marks(b: &[u8], p: usize) -> (r: (NoteAttachments, usize))
    requires
        p <= b@.len() <= i32::MAX,
    ensures
        r.1 == marks_end(b@, p as int),
        p <= r.1 <= b@.len(),
        marks_read(r.0, b@, p as int),
        no_text_attachments(r.0, b@, p as int),
{
    let ghost p0 = p as int;
    let ghost bv = b@;
    let (mut att, mut p) = read_early_marks(b, p);
    assert(p == marks_markers_at(bv, p0));
    let ghost m0 = p as int;
    let ghost target0 = att.last_color_target;
    proof {
        assert(string_views(att.staff_markers@) =~= Seq::<Seq<char>>::empty());
        assert(marker_run(bv, m0).0 =~= Seq::<Seq<char>>::empty() + marker_run(bv, m0).0);
    }
    // Staff markers
    let mut more = true;
    while more
        invariant
            m0 <= p <= b@.len() <= i32::MAX,
            bv == b@,
            m0 == marks_markers_at(bv, p0),
            att.fingering_position@ == "above"@,
            marker_run(bv, m0).0 == string_views(att.staff_markers@) + marker_run(bv, p as int).0,
            marker_run(bv, m0).1 == marker_run(bv, p as int).1,
            !more ==> marker_run(bv, p as int).0.len() == 0 && marker_run(bv, p as int).1 == p,
            att.tie == (marks_tie1(bv, p0) || marks_tie2(bv, p0)),
            string_views(att.articulations@) == marks_articulations(bv, p0),
            opt_view(att.dynamic) == marks_dynamic(bv, p0),
            att.trill == marks_trill(bv, p0),
            !att.slur_start && !att.slur_end && !att.beam_start && !att.beam_end,
            att.chord_symbol is None && att.staff_text is None && att.expression_text is None,
            att.fingering is None && att.lyrics@.len() == 0,
            att.last_color_target == if att.staff_markers@.len() > 0 {
                EventColorTarget::StaffMarkers
            } else {
                target0
            },
        decreases b.len() - p, if more { 1int } else { 0int },
    {
        let (marker, next) = parse_staff_marker(b, p);
        if let Some(m) = marker {
            proof {
                lemma_marker_step(bv, m0, p as int, string_views(att.staff_markers@));
            }
            let ghost before = att.staff_markers@;
            att.staff_markers.push(m);
            proof {
                assert(string_views(att.staff_markers@) =~= string_views(before).push(
                    crate::lexer::spec_staff_marker(bv, p as int).0->0,
                ));
            }
            att.last_color_target = EventColorTarget::StaffMarkers;
            p = next;
        } else {
            more = false;
        }
    }
    proof {
        assert(string_views(att.staff_markers@) + Seq::<Seq<char>>::empty() =~= string_views(att.staff_markers@));
    }
    assert(p == marks_slur_at(bv, p0));
    // Slur start/end
    if p < b.len() && b[p] == 40 {
        att.slur_start = true;
        att.last_color_target = EventColorTarget::Slur;
        p = p + 1;
    }
    if p < b.len() && b[p] == 41 {
        att.slur_end = true;
        att.last_color_target = EventColorTarget::Slur;
        p = p + 1;
    }
    assert(p == marks_beam_at(bv, p0));
    // Beam start/end
    if p < b.len() && b[p] == 91 {
        let is_chord_bracket = p + 1 < b.len() && b[p + 1] >= 65 && b[p + 1] <= 71;
        if !is_chord_bracket {
            att.beam_start = true;
            att.last_color_target = EventColorTarget::Beam;
            p = p + 1;
        }
    }
    if p < b.len() && b[p] == 93 {
        att.beam_end = true;
        att.last_color_target = EventColorTarget::Beam;
        p = p + 1;
    }
    assert(p == marks_end(bv, p0));
    assert(att.last_color_target == marks_target(bv, p0));
    (att, p)
}

/// The fingering marks written in the `n[..]` or `n_[..]` at `q`, whether
/// it goes below, and the position after it.
pub open spec fn fingering_at(b: Seq<u8>, q: int) -> (Seq<(int, bool, Option<Seq<char>>)>, bool, int) {
    let below = b[q + 1] == 95;
    let start = if below {
        q + 3
    } else {
        q + 2
    };
    let f = spec_find(b, start, 93);
    let text = b.subrange(start, f);
    (
        crate::lexer::spec_marks(text, crate::lexer::spec_split_parts(text, 0, None, 0)),
        below,
        if f < b.len() {
            f + 1
        } else {
            f
        },
    )
}

/// The text attachments from `p` on, added to `st`: lyrics (text, carry,
/// continuation), staff text, expression text, fingering marks, whether
/// the fingering goes below, chord symbol and colour target. Each one may
/// follow the one before after at most one blank (one blank only before
/// the start of an attachment); a staff or expression text, fingering or
/// non-empty chord symbol replaces the one before, lyrics add up. Gives the
/// attachments and the position after them.
pub open spec fn text_tail(b: Seq<u8>, p: int, st: (Seq<(Option<Seq<char>>, bool, Seq<char>)>, Option<Seq<char>>, Option<Seq<char>>, Seq<(int, bool, Option<Seq<char>>)>, bool, Option<Seq<char>>, EventColorTarget)) -> ((Seq<(Option<Seq<char>>, bool, Seq<char>)>, Option<Seq<char>>, Option<Seq<char>>, Seq<(int, bool, Option<Seq<char>>)>, bool, Option<Seq<char>>, EventColorTarget), int)
    decreases b.len() - p,
{
    let q = blank_run_end(b, p);
    let ws = q - p;
    if p < 0 || p > b.len() || (ws > 0 && (ws > 1 || !spec_can_start_post_note_attachment(b, q))) {
        (st, p)
    } else if q < b.len() && b[q] == 108 {
        match crate::lexer::spec_lyric_at(b, q) {
            Some((text, carry, cont, next)) => {
                let st2 = (st.0.push((text, carry, cont)), st.1, st.2, st.3, st.4, st.5, EventColorTarget::Lyrics);
                if p < next <= b.len() {
                    text_tail(b, next, st2)
                } else {
                    (st2, next)
                }
            },
            None => (st, q),
        }
    } else if crate::text::spec_matches_at(b, q, ascii("text["@)) {
        let (v, next) = crate::lexer::spec_tagged_text(b, q, seq![116u8, 101u8, 120u8, 116u8]);
        let st2 = (st.0, v, st.2, st.3, st.4, st.5, EventColorTarget::StaffText);
        if p < next <= b.len() {
            text_tail(b, next, st2)
        } else {
            (st2, next)
        }
    } else if crate::text::spec_matches_at(b, q, ascii("exp["@)) {
        let (v, next) = crate::lexer::spec_tagged_text(b, q, seq![101u8, 120u8, 112u8]);
        let st2 = (st.0, st.1, v, st.3, st.4, st.5, EventColorTarget::ExpressionText);
        if p < next <= b.len() {
            text_tail(b, next, st2)
        } else {
            (st2, next)
        }
    } else if crate::lexer::spec_fingering_start(b, q) {
        let (marks, below, next) = fingering_at(b, q);
        let st2 = (st.0, st.1, st.2, marks, below, st.5, EventColorTarget::Fingering);
        if p < next <= b.len() {
            text_tail(b, next, st2)
        } else {
            (st2, next)
        }
    } else if q < b.len() && b[q] == 91 {
        let (v, next) = crate::lexer::spec_bracketed(b, q + 1);
        let st2 = if v.len() != 0 {
            (st.0, st.1, st.2, st.3, st.4, Some(v), EventColorTarget::ChordSymbol)
        } else {
            st
        };
        if p < next <= b.len() {
            text_tail(b, next, st2)
        } else {
            (st2, next)
        }
    } else {
        (st, p)
    }
}

/// No text attachments yet, and the colour target the marks after `p` left.
pub open spec fn text_start(b: Seq<u8>, p: int) -> (Seq<(Option<Seq<char>>, bool, Seq<char>)>, Option<Seq<char>>, Option<Seq<char>>, Seq<(int, bool, Option<Seq<char>>)>, bool, Option<Seq<char>>, EventColorTarget) {
    (Seq::empty(), None, None, Seq::empty(), false, None, marks_target(b, p))
}

/// The text attachments read after the marks that follow `x`.
pub open spec fn text_read(b: Seq<u8>, x: int) -> (Seq<(Option<Seq<char>>, bool, Seq<char>)>, Option<Seq<char>>, Option<Seq<char>>, Seq<(int, bool, Option<Seq<char>>)>, bool, Option<Seq<char>>, EventColorTarget) {
    text_tail(b, marks_end(b, x), text_start(b, x)).0
}

/// Where the attachments after `x` (marks, then text attachments) end.
pub open spec fn attachments_end(b: Seq<u8>, x: int) -> int {
    text_tail(b, marks_end(b, x), text_start(b, x)).1
}

/// The part of a note or rest that a colour call right after the marks and
/// text attachments read from `x` applies to: the one written last.
pub open spec fn attachments_target(b: Seq<u8>, x: int) -> EventColorTarget {
    text_tail(b, marks_end(b, x), text_start(b, x)).0.6
}

/// A lyric entry as (text, carry, continuation).
pub open spec fn lyric_view(e: LyricEntry) -> (Option<Seq<char>>, bool, Seq<char>) {
    (opt_view(e.text), e.carry, e.continuation@)
}

/// The attachments hold the text attachments `st`.
pub open spec fn holds_text(a: NoteAttachments, st: (Seq<(Option<Seq<char>>, bool, Seq<char>)>, Option<Seq<char>>, Option<Seq<char>>, Seq<(int, bool, Option<Seq<char>>)>, bool, Option<Seq<char>>, EventColorTarget)) -> bool {
    &&& a.lyrics@.map_values(|e: LyricEntry| lyric_view(e)) == st.0
    &&& opt_view(a.staff_text) == st.1
    &&& opt_view(a.expression_text) == st.2
    &&& crate::lexer::fingering_matches(a.fingering, st.3)
    &&& a.fingering_position@ == if st.4 {
        "below"@
    } else {
        "above"@
    }
    &&& opt_view(a.chord_symbol) == st.5
    &&& a.last_color_target == st.6
}

/// A run of blanks from `p` to `e` that cannot go on ends at `e`.
proof fn lemma_blank_run_end_is(b: Seq<u8>, p: int, e: int)
    requires
        0 <= p <= e <= b.len(),
        forall|k: int| p <= k < e ==> crate::text::spec_is_whitespace_char(#[trigger] b[k]),
        e == b.len() || !crate::text::spec_is_whitespace_char(b[e]),
    ensures
        blank_run_end(b, p) == e,
    decreases e - p,
{
    if p < e {
        lemma_blank_run_end_is(b, p + 1, e);
    }
}

/// Nothing is read where the marks are quietly followed.
proof fn lemma_quiet_text_tail(b: Seq<u8>, x: int, st: (Seq<(Option<Seq<char>>, bool, Seq<char>)>, Option<Seq<char>>, Option<Seq<char>>, Seq<(int, bool, Option<Seq<char>>)>, bool, Option<Seq<char>>, EventColorTarget))
    requires
        quiet_follow(b, x),
    ensures
        text_tail(b, x, st) == (st, x),
{
    reveal_strlit("text[");
    reveal_strlit("exp[");
    if x == b.len() {
        lemma_blank_run_end_is(b, x, x);
    }
    if x < b.len() {
        lemma_quiet_no_attachment(b, x);
        if b[x] == 32 {
            if b[x + 1] == 32 {
                lemma_blank_run_bounds(b, x + 2);
                assert(blank_run_end(b, x) == blank_run_end(b, x + 1));
                assert(blank_run_end(b, x + 1) == blank_run_end(b, x + 2));
            } else {
                lemma_blank_run_end_is(b, x, x + 1);
            }
        } else {
            lemma_blank_run_end_is(b, x, x);
            if crate::text::spec_matches_at(b, x, ascii("exp["@)) {
                assert(b.subrange(x, x + 4)[0] == b[x]);
            }
            if crate::text::spec_matches_at(b, x, ascii("text["@)) {
                assert(b.subrange(x, x + 5)[0] == b[x]);
            }
        }
    }
}

proof fn lemma_blank_run_bounds(b: Seq<u8>, p: int)
    requires
        0 <= p <= b.len(),
    ensures
        p <= blank_run_end(b, p) <= b.len(),
    decreases b.len() - p,
{
    if p < b.len() && crate::text::spec_is_whitespace_char(b[p]) {
        lemma_blank_run_bounds(b, p + 1);
    }
}

/// Reads what follows a note, rest or chord at `p`, in this order: a tie,
/// articulations (`>` `*` `-` `_`), a dynamic `v[..]`, a tie, a trill `tr`,
/// staff markers, slur start/end, beam start/end (see `marks_read`), then
/// lyrics, `text[..]`, `exp[..]`, fingerings and chord symbols, each
/// separated by at most one space. Returns the attachments and the
/// position after them.
#[verifier::rlimit(40)]
pub(crate) fn parse_note_attachments(b: &[u8], p: usize) -> (r: (NoteAttachments, usize))
    requires
        p <= b@.len() <= i32::MAX,
    ensures
        p <= marks_end(b@, p as int) <= r.1 <= b@.len(),
        r.0.fingering_position@ == "above"@ || r.0.fingering_position@ == "below"@,
        marks_read(r.0, b@, p as int),
        r.1 == text_tail(b@, marks_end(b@, p as int), text_start(b@, p as int)).1,
        holds_text(r.0, text_tail(b@, marks_end(b@, p as int), text_start(b@, p as int)).0),
        quiet_follow(b@, marks_end(b@, p as int)) ==> r.1 == marks_end(b@, p as int)
            && no_text_attachments(r.0, b@, p as int),
        quiet_follow(b@, p as int) ==> r.1 == p,
{
    let ghost p0 = p as int;
    let ghost bv = b@;
    let (mut att, mut p) = read_marks(b, p);
    let ghost pm = p as int;
    let ghost mut st = text_start(bv, p0);
    proof {
        assert(att.lyrics@.map_values(|e: LyricEntry| lyric_view(e)) =~= st.0);
        if quiet_follow(bv, pm) {
            lemma_quiet_text_tail(bv, pm, st);
        }
    }
    // Chord symbol, staff text, expression text, fingering, lyrics
    let text = text_tag();
    let exp = exp_tag();
    let mut more = true;
    while more
        invariant
            p0 <= pm <= p <= b@.len() <= i32::MAX,
            bv == b@,
            pm == marks_end(bv, p0),
            marks_read(att, bv, p0),
            text_tail(bv, pm, text_start(bv, p0)) == if more {
                text_tail(bv, p as int, st)
            } else {
                (st, p as int)
            },
            holds_text(att, st),
            quiet_follow(bv, pm) ==> p == pm && st == text_start(bv, p0),
            text@ == ascii("text["@),
            exp@ == ascii("exp["@),
            att.fingering_position@ == "above"@ || att.fingering_position@ == "below"@,
        decreases b.len() - p, if more { 1int } else { 0int },
    {
        let attachment_start = p;
        proof {
            if quiet_follow(bv, pm) && pm < b@.len() {
                lemma_quiet_no_attachment(bv, pm);
            }
        }
        let mut q = p;
        while q < b.len() && is_whitespace_char(b[q])
            invariant
                attachment_start <= q <= b@.len(),
                forall|k: int| attachment_start <= k < q ==> crate::text::spec_is_whitespace_char(#[trigger] b@[k]),
            decreases b.len() - q,
        {
            q = q + 1;
        }
        proof {
            lemma_blank_run_end_is(bv, attachment_start as int, q as int);
        }
        let whitespace_len = q - attachment_start;
        if whitespace_len > 0 && (whitespace_len > 1 || !can_start_post_note_attachment(b, q)) {
            more = false;
        } else if q < b.len() && b[q] == 108 {
            let (entry, next) = parse_lyric(b, q);
            if let Some(e) = entry {
                let ghost before = att.lyrics@;
                att.lyrics.push(e);
                att.last_color_target = EventColorTarget::Lyrics;
                proof {
                    let l = lyric_view(e);
                    assert(att.lyrics@.map_values(|e: LyricEntry| lyric_view(e)) =~= before.map_values(
                        |e: LyricEntry| lyric_view(e),
                    ).push(l));
                    st = (st.0.push(l), st.1, st.2, st.3, st.4, st.5, EventColorTarget::Lyrics);
                }
            }
            p = next;
            if p == attachment_start {
                more = false;
            }
        } else if matches_at(b, q, &text) {
            let tag: [u8; 4] = [116, 101, 120, 116];
            proof {
                assert(tag@ =~= seq![116u8, 101u8, 120u8, 116u8]);
            }
            let (v, next) = parse_tagged_text(b, q, &tag);
            proof {
                st = (st.0, opt_view(v), st.2, st.3, st.4, st.5, EventColorTarget::StaffText);
            }
            att.staff_text = v;
            att.last_color_target = EventColorTarget::StaffText;
            p = next;
            if p == attachment_start {
                more = false;
            }
        } else if matches_at(b, q, &exp) {
            let tag: [u8; 3] = [101, 120, 112];
            proof {
                assert(tag@ =~= seq![101u8, 120u8, 112u8]);
            }
            let (v, next) = parse_tagged_text(b, q, &tag);
            proof {
                st = (st.0, st.1, opt_view(v), st.3, st.4, st.5, EventColorTarget::ExpressionText);
            }
            att.expression_text = v;
            att.last_color_target = EventColorTarget::ExpressionText;
            p = next;
            if p == attachment_start {
                more = false;
            }
        } else if is_fingering_start(b, q) {
            let (fingering, position, next) = parse_fingering(b, q);
            proof {
                let f = fingering_at(bv, q as int);
                st = (st.0, st.1, st.2, f.0, f.1, st.5, EventColorTarget::Fingering);
            }
            att.fingering = fingering;
            att.fingering_position = position;
            att.last_color_target = EventColorTarget::Fingering;
            p = next;
        } else if q < b.len() && b[q] == 91 {
            let (value, next) = read_bracketed_text(b, q + 1);
            if value.unicode_len() != 0 {
                proof {
                    st = (st.0, st.1, st.2, st.3, st.4, Some(value@), EventColorTarget::ChordSymbol);
                }
                att.chord_symbol = Some(value);
                att.last_color_target = EventColorTarget::ChordSymbol;
            }
            p = next;
        } else {
            more = false;
        }
    }
    proof {
        if quiet_follow(bv, p0) {
            assert(crate::lexer::spec_staff_marker(bv, p0).0 is None);
            assert(articulation_run(bv, p0) =~= Seq::<Seq<char>>::empty());
            assert(marks_end(bv, p0) == p0);
        }
    }
    (att, p)
}

} // verus!

verus! {

/// A note name is one letter `a` to `g`.
pub open spec fn note_name_ok(name: Seq<char>) -> bool {
    name.len() == 1 && 'a' <= name[0] <= 'g'
}

/// What every parsed event satisfies: note names are `a`-`g`, durations are
/// positive or one of the long named values, dot counts are not negative,
/// chords have notes, gaps are at least one unit, and voice groups hold
/// such events.
pub open spec fn event_wf(e: Event) -> bool
    decreases e,
{
    match e {
        Event::Note(n) => note_name_ok(n.name@) && duration_ok(n.duration as int) && n.dots >= 0,
        Event::Rest(r) => duration_ok(r.duration as int) && r.dots >= 0,
        Event::Chord(c) => {
            &&& duration_ok(c.duration as int)
            &&& c.dots >= 0
            &&& c.notes@.len() > 0
            &&& forall|k: int| 0 <= k < c.notes@.len() ==> note_name_ok(#[trigger] c.notes@[k].name@)
        },
        Event::Spacer(s) => duration_ok(s.duration as int) && s.dots >= 0,
        Event::Gap(g) => g.amount >= 1,
        Event::VoiceGroup(g) => {
            &&& forall|k: int| 0 <= k < g.upper@.len() ==> event_wf(#[trigger] g.upper@[k])
            &&& forall|k: int| 0 <= k < g.lower@.len() ==> event_wf(#[trigger] g.lower@[k])
        },
        _ => true,
    }
}

/// A parsed event sequence: every event is well formed (see `event_wf`) and
/// the sequence never starts with a line break.
pub open spec fn events_wf(s: Seq<Event>) -> bool {
    &&& forall|k: int| 0 <= k < s.len() ==> event_wf(#[trigger] s[k])
    &&& s.len() > 0 ==> !(s[0] is LineBreak)
}

/// Inputs are limited so that positions, counts and octaves fit in an `i32`.
pub open spec fn input_len_ok(len: int) -> bool {
    len <= 0x7fff_0000
}

/// An octave offset from which any run of octave marks in the input stays
/// within an `i32`.
pub open spec fn base_octave_ok(base: int, len: int) -> bool {
    i32::MIN + len <= base <= i32::MAX - len
}

pub struct ColorSpan {
    pub start_idx: usize,
    pub color: String,
    pub open_order: i32,
}

pub struct Parser<'a> {
    pub input: &'a [u8],
    pub pos: usize,
    pub last_duration: i32,
    pub current_base_octave: i32,
    pub events: Vec<Event>,
    pub curly_open_serial: i32,
    pub tuplet_start_idx: Option<usize>,
    pub tuplet_n: i32,
    pub tuplet_m: i32,
    pub tuplet_open_order: Option<i32>,
    pub octline_start_idx: Option<usize>,
    pub octline_number: i32,
    pub octline_dir: Option<String>,
    pub octline_open_order: Option<i32>,
    pub hairpin_start_idx: Option<usize>,
    pub hairpin_kind: Option<String>,
    pub hairpin_open_order: Option<i32>,
    pub trill_start_idx: Option<usize>,
    pub trill_open_order: Option<i32>,
    pub grace_start_idx: Option<usize>,
    pub grace_slash: bool,
    pub grace_open_order: Option<i32>,
    pub ending_start_idx: Option<usize>,
    pub ending_label: Option<String>,
    pub ending_open_order: Option<i32>,
    pub color_spans: Vec<ColorSpan>,
    pub last_color_target: Option<LastColorTarget>,
}

pub open spec fn idx_ok(i: Option<usize>, len: int) -> bool {
    i matches Some(s) ==> s <= len
}

pub open spec fn order_ok(o: Option<i32>, serial: int) -> bool {
    o matches Some(x) ==> 0 <= x <= serial
}

impl<'a> Parser<'a> {
    pub open spec fn inv(&self) -> bool {
        &&& input_len_ok(self.input@.len() as int)
        &&& vstd::utf8::valid_utf8(self.input@)
        &&& self.pos <= self.input@.len()
        &&& self.events@.len() <= self.pos
        &&& 0 <= self.curly_open_serial <= self.pos
        &&& base_octave_ok(self.current_base_octave as int, self.input@.len() as int)
        &&& duration_ok(self.last_duration as int)
        &&& events_wf(self.events@)
        &&& idx_ok(self.tuplet_start_idx, self.events@.len() as int)
        &&& idx_ok(self.octline_start_idx, self.events@.len() as int)
        &&& idx_ok(self.hairpin_start_idx, self.events@.len() as int)
        &&& idx_ok(self.trill_start_idx, self.events@.len() as int)
        &&& idx_ok(self.grace_start_idx, self.events@.len() as int)
        &&& idx_ok(self.ending_start_idx, self.events@.len() as int)
        &&& order_ok(self.tuplet_open_order, self.curly_open_serial as int)
        &&& order_ok(self.octline_open_order, self.curly_open_serial as int)
        &&& order_ok(self.hairpin_open_order, self.curly_open_serial as int)
        &&& order_ok(self.trill_open_order, self.curly_open_serial as int)
        &&& order_ok(self.grace_open_order, self.curly_open_serial as int)
        &&& order_ok(self.ending_open_order, self.curly_open_serial as int)
        &&& forall|k: int|
            0 <= k < self.color_spans@.len() ==> 0 <= (#[trigger] self.color_spans@[k]).open_order
                <= self.curly_open_serial
    }

    /// A parser that has read nothing of `input`: no events, no span or
    /// colour open, no colour target, `dur` and `base` in force.
    pub open spec fn fresh(&self, input: Seq<u8>, base: int, dur: int) -> bool {
        &&& self.input@ == input
        &&& self.pos == 0
        &&& self.events@.len() == 0
        &&& self.last_duration == dur
        &&& self.current_base_octave == base
        &&& self.curly_open_serial == 0
        &&& self.tuplet_start_idx is None && self.tuplet_n == 0 && self.tuplet_m == 0
        &&& self.tuplet_open_order is None
        &&& self.octline_start_idx is None && self.octline_number == 0 && self.octline_dir is None
        &&& self.octline_open_order is None
        &&& self.hairpin_start_idx is None && self.hairpin_kind is None && self.hairpin_open_order is None
        &&& self.trill_start_idx is None && self.trill_open_order is None
        &&& self.grace_start_idx is None && !self.grace_slash && self.grace_open_order is None
        &&& self.ending_start_idx is None && self.ending_label is None && self.ending_open_order is None
        &&& self.color_spans@.len() == 0
        &&& self.last_color_target is None
    }

    pub fn new(input: &'a [u8], base_octave: i32) -> (p: Parser<'a>)
        requires
            input_len_ok(input@.len() as int),
            vstd::utf8::valid_utf8(input@),
            base_octave_ok(base_octave as int, input@.len() as int),
        ensures
            p.inv(),
            p.input == input,
            p.pos == 0,
            p.events@.len() == 0,
            p.last_duration == 4,
            p.current_base_octave == base_octave,
            p.spans_idle(),
            p.fresh(input@, base_octave as int, 4),
    {
        Parser {
            input,
            pos: 0,
            last_duration: 4,
            current_base_octave: base_octave,
            events: Vec::new(),
            curly_open_serial: 0,
            tuplet_start_idx: None,
            tuplet_n: 0,
            tuplet_m: 0,
            tuplet_open_order: None,
            octline_start_idx: None,
            octline_number: 0,
            octline_dir: None,
            octline_open_order: None,
            hairpin_start_idx: None,
            hairpin_kind: None,
            hairpin_open_order: None,
            trill_start_idx: None,
            trill_open_order: None,
            grace_start_idx: None,
            grace_slash: false,
            grace_open_order: None,
            ending_start_idx: None,
            ending_label: None,
            ending_open_order: None,
            color_spans: Vec::new(),
            last_color_target: None,
        }
    }
}

} // verus!

verus! {

impl<'a> Parser<'a> {
    /// No hairpin, trill, ending or colour span is open.
    pub open spec fn spans_idle(&self) -> bool {
        &&& self.hairpin_start_idx is None
        &&& self.trill_start_idx is None
        &&& self.ending_start_idx is None
        &&& self.color_spans@.len() == 0
    }

    /// The open spans are as in `other`.
    pub open spec fn same_spans(&self, other: &Parser<'a>) -> bool {
        &&& self.hairpin_start_idx == other.hairpin_start_idx
        &&& self.trill_start_idx == other.trill_start_idx
        &&& self.ending_start_idx == other.ending_start_idx
        &&& self.color_spans@.len() == other.color_spans@.len()
    }

    /// What the span-closing steps keep: the input, position and event count.
    pub open spec fn same_frame(&self, other: &Parser<'a>) -> bool {
        &&& self.input == other.input
        &&& self.pos == other.pos
        &&& self.events@.len() == other.events@.len()
        &&& self.current_base_octave == other.current_base_octave
        &&& self.last_duration == other.last_duration
    }

    /// Marks the notes, rests and chords since the tuplet opened with its
    /// ratio and count (the events since it opened), and sets the start
    /// flag of the event where it opened and the end flag of the last event
    /// where those are notes, rests or chords.
    fn close_tuplet(&mut self)
        requires
            old(self).inv(),
        ensures
            final(self).inv(),
            final(self).same_frame(old(self)),
            final(self).tuplet_start_idx is None,
            *final(self) == (Parser {
                events: final(self).events,
                tuplet_start_idx: None,
                tuplet_open_order: None,
                ..*old(self)
            }),
            tuplet_closed(old(self).tuplet_start_idx, old(self).tuplet_m, old(self).tuplet_n, old(self).events@, final(self).events@),
    {
        if let Some(start) = self.tuplet_start_idx {
            let end = self.events.len();
            let count = (end - start) as i32;
            let mut i = start;
            while i < end
                invariant
                    self.inv(),
                    self.same_frame(old(self)),
                    self.events@.len() == end,
                    start <= i <= end,
                    self.tuplet_start_idx == old(self).tuplet_start_idx,
                    self.tuplet_m == old(self).tuplet_m,
                    self.tuplet_n == old(self).tuplet_n,
                    *self == (Parser { events: self.events, ..*old(self) }),
                    count == (end - start) as i32,
                    forall|k: int|
                        0 <= k < end ==> if start <= k < i {
                            tuplet_marked(
                                old(self).events@[k],
                                #[trigger] self.events@[k],
                                old(self).tuplet_m,
                                old(self).tuplet_n,
                                count,
                                k == start,
                                k == end - 1,
                            )
                        } else {
                            self.events@[k] == old(self).events@[k]
                        },
                decreases end - i,
            {
                let ghost before = self.events@;
                let m = self.tuplet_m;
                let n = self.tuplet_n;
                mark_tuplet(&mut self.events[i], m, n, count, i == start, i == end - 1);
                proof {
                    lemma_marks_keep_wf(before[i as int], self.events@[i as int], None, m, n, count, i == start, i == end - 1);
                    assert forall|k: int| 0 <= k < end implies if start <= k < i + 1 {
                        tuplet_marked(
                            old(self).events@[k],
                            #[trigger] self.events@[k],
                            old(self).tuplet_m,
                            old(self).tuplet_n,
                            count,
                            k == start,
                            k == end - 1,
                        )
                    } else {
                        self.events@[k] == old(self).events@[k]
                    } by {
                        if k != i {
                            assert(self.events@[k] == before[k]);
                        } else {
                            assert(before[k] == old(self).events@[k]);
                        }
                    }
                    assert forall|k: int| 0 <= k < end implies event_wf(#[trigger] self.events@[k]) by {
                        if k != i {
                            assert(self.events@[k] == before[k]);
                        }
                    }
                }
                i = i + 1;
            }
        }
        self.tuplet_start_idx = None;
        self.tuplet_open_order = None;
    }
}

} // verus!

verus! {

/// A copy of an optional string.
pub fn clone_opt(o: &Option<String>) -> (r: Option<String>)
    ensures
        r == *o,
{
    match o {
        Some(s) => Some(s.clone()),
        None => None,
    }
}

pub fn is_line_break(e: &Event) -> (r: bool)
    ensures
        r == (e is LineBreak),
{
    match e {
        Event::LineBreak => true,
        _ => false,
    }
}


/// A note, rest or chord.
pub open spec fn anchor_event(e: Event) -> bool {
    e is Note || e is Rest || e is Chord
}

/// No note, rest or chord in `ev[lo..hi]`.
pub open spec fn no_anchor(ev: Seq<Event>, lo: int, hi: int) -> bool {
    forall|j: int| lo <= j < hi ==> !anchor_event(#[trigger] ev[j])
}

/// Nothing but line breaks in `ev[lo..hi]`.
pub open spec fn only_breaks(ev: Seq<Event>, lo: int, hi: int) -> bool {
    forall|j: int| lo <= j < hi ==> #[trigger] ev[j] is LineBreak
}

/// `ev2` is `ev` once the hairpin of `kind` that opened at `start`, if one
/// did, is closed (see `hairpin_marked`).
pub open spec fn hairpin_closed(start: Option<usize>, kind: Option<String>, ev: Seq<Event>, ev2: Seq<Event>) -> bool {
    &&& ev2.len() == ev.len()
    &&& match start {
        Some(s) => forall|k: int|
            0 <= k < ev.len() ==> if s <= k {
                hairpin_marked(ev[k], #[trigger] ev2[k], kind, no_anchor(ev, s as int, k), no_anchor(ev, k + 1, ev.len() as int))
            } else {
                ev2[k] == ev[k]
            },
        None => ev2 == ev,
    }
}

/// `ev2` is `ev` once the trill line that opened at `start`, if one did,
/// is closed (see `trill_marked`).
pub open spec fn trill_closed(start: Option<usize>, ev: Seq<Event>, ev2: Seq<Event>) -> bool {
    &&& ev2.len() == ev.len()
    &&& match start {
        Some(s) => forall|k: int|
            0 <= k < ev.len() ==> if s <= k {
                trill_marked(ev[k], #[trigger] ev2[k], no_anchor(ev, s as int, k), no_anchor(ev, k + 1, ev.len() as int))
            } else {
                ev2[k] == ev[k]
            },
        None => ev2 == ev,
    }
}

/// `ev2` is `ev` once the ending with `label` that opened at `start`, if
/// one did, is closed (see `ending_marked`).
pub open spec fn ending_closed(start: Option<usize>, label: Option<String>, ev: Seq<Event>, ev2: Seq<Event>) -> bool {
    &&& ev2.len() == ev.len()
    &&& match start {
        Some(s) => forall|k: int|
            0 <= k < ev.len() ==> if s <= k {
                ending_marked(ev[k], #[trigger] ev2[k], label, only_breaks(ev, s as int, k), only_breaks(ev, k + 1, ev.len() as int))
            } else {
                ev2[k] == ev[k]
            },
        None => ev2 == ev,
    }
}

/// `ev2` is `ev` once the colour span `span` is closed: what it enclosed is
/// coloured (see `selection_colored`).
pub open spec fn span_colored(span: ColorSpan, ev: Seq<Event>, ev2: Seq<Event>) -> bool {
    &&& ev2.len() == ev.len()
    &&& forall|k: int|
        0 <= k < ev.len() ==> if span.start_idx <= k {
            selection_colored(ev[k], #[trigger] ev2[k], span.color@)
        } else {
            ev2[k] == ev[k]
        }
}

/// What a `{` at `p` reads: the end of what it takes, whether a tuplet
/// opens, and the tuplet's count and beats. After any white space, `n`
/// (digits), optionally `,m` (digits; `m` is `n` when absent or unreadable),
/// an optional `:` and white space open a tuplet of `m` notes in the time of
/// `n`; without digits the `{` and the white space are skipped.
pub open spec fn tuplet_open_read(b: Seq<u8>, p: int) -> (int, bool, int, int) {
    let q0 = blank_run_end(b, p + 1);
    let n = crate::lexer::spec_digit_run(b, q0);
    if n == 0 {
        (q0, false, 0, 0)
    } else {
        let beats = digits_or_zero(b, q0, q0 + n);
        let q1 = q0 + n;
        let m = crate::lexer::spec_digit_run(b, q1 + 1);
        let comma = crate::lexer::spec_peek(b, q1) == Some(44u8);
        let q3 = if comma {
            q1 + 1 + m
        } else {
            q1
        };
        let count = if comma && m > 0 {
            match crate::lexer::spec_digits_i32(b, q1 + 1, q1 + 1 + m) {
                Some(v) => v,
                None => beats,
            }
        } else {
            beats
        };
        let q4 = if crate::lexer::spec_peek(b, q3) == Some(58u8) {
            q3 + 1
        } else {
            q3
        };
        (blank_run_end(b, q4), true, count, beats)
    }
}

/// Where the label of `end{label:` stops: the first `:` or `}` from `q`,
/// or the end of the input.
pub open spec fn label_stop(b: Seq<u8>, q: int) -> int
    decreases b.len() - q,
{
    if 0 <= q < b.len() && b[q] != 58 && b[q] != 125 {
        label_stop(b, q + 1)
    } else {
        q
    }
}

/// `cur` (an opening order and a kind), or `kind` with order `o` when `o`
/// is later.
pub open spec fn pick_latest(cur: (int, int), o: Option<i32>, kind: int) -> (int, int) {
    match o {
        Some(x) => if x > cur.0 {
            (x as int, kind)
        } else {
            cur
        },
        None => cur,
    }
}

/// `ev2` is `ev` once the tuplet of `n` in the time of `m` that opened at
/// `start`, if one did, is closed (see `tuplet_marked`).
pub open spec fn tuplet_closed(start: Option<usize>, m: i32, n: i32, ev: Seq<Event>, ev2: Seq<Event>) -> bool {
    &&& ev2.len() == ev.len()
    &&& match start {
        Some(s) => forall|k: int|
            0 <= k < ev.len() ==> if s <= k {
                tuplet_marked(ev[k], #[trigger] ev2[k], m, n, (ev.len() - s) as i32, k == s, k == ev.len() - 1)
            } else {
                ev2[k] == ev[k]
            },
        None => ev2 == ev,
    }
}

/// `ev2` is `ev` once the octave line that opened at `start`, if one did,
/// is closed (see `octline_marked`).
pub open spec fn octline_closed(start: Option<usize>, number: i32, dir: Option<String>, ev: Seq<Event>, ev2: Seq<Event>) -> bool {
    &&& ev2.len() == ev.len()
    &&& match start {
        Some(s) => forall|k: int|
            0 <= k < ev.len() ==> if s <= k {
                octline_marked(ev[k], #[trigger] ev2[k], number, dir, k == s, k == ev.len() - 1)
            } else {
                ev2[k] == ev[k]
            },
        None => ev2 == ev,
    }
}

/// `ev2` is `ev` once the grace group that opened at `start`, if one did,
/// is closed (see `grace_marked`).
pub open spec fn grace_closed(start: Option<usize>, slash: bool, ev: Seq<Event>, ev2: Seq<Event>) -> bool {
    &&& ev2.len() == ev.len()
    &&& match start {
        Some(s) => forall|k: int|
            0 <= k < ev.len() ==> if s <= k {
                grace_marked(ev[k], #[trigger] ev2[k], slash)
            } else {
                ev2[k] == ev[k]
            },
        None => ev2 == ev,
    }
}

/// `fin` is `ev` once the colour spans `spans` are closed, innermost
/// (last) first.
pub open spec fn colors_closed(spans: Seq<ColorSpan>, ev: Seq<Event>, fin: Seq<Event>) -> bool
    decreases spans.len(),
{
    if spans.len() == 0 {
        fin == ev
    } else {
        exists|mid: Seq<Event>|
            #[trigger] span_colored(spans.last(), ev, mid) && colors_closed(spans.drop_last(), mid, fin)
    }
}

/// A note, rest or chord with a hairpin of `kind`, marked as its first
/// and/or last element.
pub open spec fn hairpin_marked(old: Event, new: Event, kind: Option<String>, first: bool, last: bool) -> bool {
    match old {
        Event::Note(x) => new == Event::Note(Note { hairpin: kind, hairpin_start: first, hairpin_end: last, ..x }),
        Event::Rest(x) => new == Event::Rest(Rest { hairpin: kind, hairpin_start: first, hairpin_end: last, ..x }),
        Event::Chord(x) => new == Event::Chord(Chord { hairpin: kind, hairpin_start: first, hairpin_end: last, ..x }),
        _ => new == old,
    }
}

/// A note, rest or chord under a trill line, marked as its first and/or
/// last element.
pub open spec fn trill_marked(old: Event, new: Event, first: bool, last: bool) -> bool {
    match old {
        Event::Note(x) => new == Event::Note(
            Note { trill: true, trill_line: true, trill_start: first, trill_end: last, ..x },
        ),
        Event::Rest(x) => new == Event::Rest(
            Rest { trill: true, trill_line: true, trill_start: first, trill_end: last, ..x },
        ),
        Event::Chord(x) => new == Event::Chord(
            Chord { trill: true, trill_line: true, trill_start: first, trill_end: last, ..x },
        ),
        _ => new == old,
    }
}

/// A note, rest or chord made a grace note, slashed or not.
pub open spec fn grace_marked(old: Event, new: Event, slash: bool) -> bool {
    match old {
        Event::Note(x) => new == Event::Note(Note { grace: true, grace_slash: slash, ..x }),
        Event::Rest(x) => new == Event::Rest(Rest { grace: true, grace_slash: slash, ..x }),
        Event::Chord(x) => new == Event::Chord(Chord { grace: true, grace_slash: slash, ..x }),
        _ => new == old,
    }
}

/// A note, rest or chord under an octave line of `number` and `direction`,
/// with its start and end flags.
pub open spec fn octline_marked(
    old: Event,
    new: Event,
    number: i32,
    direction: Option<String>,
    at_start: bool,
    at_end: bool,
) -> bool {
    match old {
        Event::Note(x) => new == Event::Note(
            Note {
                octave_line_number: number,
                octave_line_direction: direction,
                octave_line_start: at_start,
                octave_line_end: at_end,
                ..x
            },
        ),
        Event::Rest(x) => new == Event::Rest(
            Rest {
                octave_line_number: number,
                octave_line_direction: direction,
                octave_line_start: at_start,
                octave_line_end: at_end,
                ..x
            },
        ),
        Event::Chord(x) => new == Event::Chord(
            Chord {
                octave_line_number: number,
                octave_line_direction: direction,
                octave_line_start: at_start,
                octave_line_end: at_end,
                ..x
            },
        ),
        _ => new == old,
    }
}

/// A note, rest or chord in a tuplet of `beats` in the time of `number`
/// over `count` events; the start and end flags are set where asked and
/// kept where already set.
pub open spec fn tuplet_marked(
    old: Event,
    new: Event,
    beats: i32,
    number: i32,
    count: i32,
    at_start: bool,
    at_end: bool,
) -> bool {
    match old {
        Event::Note(x) => new == Event::Note(
            Note {
                tuplet_beats: beats,
                tuplet_number: number,
                tuplet_count: count,
                tuplet_start: x.tuplet_start || at_start,
                tuplet_end: x.tuplet_end || at_end,
                ..x
            },
        ),
        Event::Rest(x) => new == Event::Rest(
            Rest {
                tuplet_beats: beats,
                tuplet_number: number,
                tuplet_count: count,
                tuplet_start: x.tuplet_start || at_start,
                tuplet_end: x.tuplet_end || at_end,
                ..x
            },
        ),
        Event::Chord(x) => new == Event::Chord(
            Chord {
                tuplet_beats: beats,
                tuplet_number: number,
                tuplet_count: count,
                tuplet_start: x.tuplet_start || at_start,
                tuplet_end: x.tuplet_end || at_end,
                ..x
            },
        ),
        _ => new == old,
    }
}

/// An event inside an ending labelled `label`, marked as its first and/or
/// last element (voice groups and line breaks carry no ending).
pub open spec fn ending_marked(old: Event, new: Event, label: Option<String>, first: bool, last: bool) -> bool {
    match old {
        Event::Note(x) => new == Event::Note(Note { ending: label, ending_start: first, ending_end: last, ..x }),
        Event::Rest(x) => new == Event::Rest(Rest { ending: label, ending_start: first, ending_end: last, ..x }),
        Event::Chord(x) => new == Event::Chord(Chord { ending: label, ending_start: first, ending_end: last, ..x }),
        Event::Barline(x) => new == Event::Barline(
            Barline { ending: label, ending_start: first, ending_end: last, ..x },
        ),
        Event::Clef(x) => new == Event::Clef(
            ClefChange { ending: label, ending_start: first, ending_end: last, ..x },
        ),
        Event::TimeSig(x) => new == Event::TimeSig(
            TimeSig { ending: label, ending_start: first, ending_end: last, ..x },
        ),
        Event::KeySig(x) => new == Event::KeySig(
            KeySig { ending: label, ending_start: first, ending_end: last, ..x },
        ),
        Event::Gap(x) => new == Event::Gap(Gap { ending: label, ending_start: first, ending_end: last, ..x }),
        Event::Spacer(x) => new == Event::Spacer(
            Spacer { ending: label, ending_start: first, ending_end: last, ..x },
        ),
        _ => new == old,
    }
}

/// Marking events for a span keeps them well formed, and line breaks line
/// breaks.
proof fn lemma_marks_keep_wf(
    old: Event,
    new: Event,
    kind: Option<String>,
    beats: i32,
    number: i32,
    count: i32,
    first: bool,
    last: bool,
)
    requires
        hairpin_marked(old, new, kind, first, last) || trill_marked(old, new, first, last) || grace_marked(
            old,
            new,
            first,
        ) || octline_marked(old, new, number, kind, first, last) || tuplet_marked(
            old,
            new,
            beats,
            number,
            count,
            first,
            last,
        ) || ending_marked(old, new, kind, first, last),
    ensures
        event_wf(old) ==> event_wf(new),
        (old is LineBreak) == (new is LineBreak),
{
}

/// One past the last note, rest or chord in `events[start..]`, or `start`
/// where there is none.
fn last_anchor_end(events: &Vec<Event>, start: usize) -> (r: usize)
    requires
        start <= events@.len(),
    ensures
        start <= r <= events@.len(),
        no_anchor(events@, r as int, events@.len() as int),
        r > start ==> anchor_event(events@[r - 1]),
{
    let mut r = events.len();
    while r > start && !events[r - 1].is_anchor()
        invariant
            start <= r <= events@.len(),
            no_anchor(events@, r as int, events@.len() as int),
        decreases r,
    {
        r = r - 1;
    }
    r
}

/// One past the last event in `events[start..]` that is no line break, or
/// `start` where there is none.
fn last_member_end(events: &Vec<Event>, start: usize) -> (r: usize)
    requires
        start <= events@.len(),
    ensures
        start <= r <= events@.len(),
        only_breaks(events@, r as int, events@.len() as int),
        r > start ==> !(events@[r - 1] is LineBreak),
{
    let mut r = events.len();
    while r > start && is_line_break(&events[r - 1])
        invariant
            start <= r <= events@.len(),
            only_breaks(events@, r as int, events@.len() as int),
        decreases r,
    {
        r = r - 1;
    }
    r
}

/// Marks a note with a hairpin (one variant of `hairpin_marked`).
fn mark_hairpin_note(x: &mut Note, kind: Option<String>, first: bool, last: bool)
    ensures
        *final(x) == (Note { hairpin: kind, hairpin_start: first, hairpin_end: last, ..*old(x) }),
{
    x.hairpin = kind;
    x.hairpin_start = first;
    x.hairpin_end = last;
}

/// Marks a rest with a hairpin (one variant of `hairpin_marked`).
fn mark_hairpin_rest(x: &mut Rest, kind: Option<String>, first: bool, last: bool)
    ensures
        *final(x) == (Rest { hairpin: kind, hairpin_start: first, hairpin_end: last, ..*old(x) }),
{
    x.hairpin = kind;
    x.hairpin_start = first;
    x.hairpin_end = last;
}

/// Marks a chord with a hairpin (one variant of `hairpin_marked`).
fn mark_hairpin_chord(x: &mut Chord, kind: Option<String>, first: bool, last: bool)
    ensures
        *final(x) == (Chord { hairpin: kind, hairpin_start: first, hairpin_end: last, ..*old(x) }),
{
    x.hairpin = kind;
    x.hairpin_start = first;
    x.hairpin_end = last;
}

/// Marks an event with a hairpin (see `hairpin_marked`).
fn mark_hairpin(e: &mut Event, kind: Option<String>, first: bool, last: bool)
    ensures
        hairpin_marked(*old(e), *final(e), kind, first, last),
{
    match e {
        Event::Note(x) => mark_hairpin_note(x, kind, first, last),
        Event::Rest(x) => mark_hairpin_rest(x, kind, first, last),
        Event::Chord(x) => mark_hairpin_chord(x, kind, first, last),
        _ => {},
    }
}

/// Puts a note under a trill line (one variant of `trill_marked`).
fn mark_trill_note(x: &mut Note, first: bool, last: bool)
    ensures
        *final(x) == (Note { trill: true, trill_line: true, trill_start: first, trill_end: last, ..*old(x) }),
{
    x.trill = true;
    x.trill_line = true;
    x.trill_start = first;
    x.trill_end = last;
}

/// Puts a rest under a trill line (one variant of `trill_marked`).
fn mark_trill_rest(x: &mut Rest, first: bool, last: bool)
    ensures
        *final(x) == (Rest { trill: true, trill_line: true, trill_start: first, trill_end: last, ..*old(x) }),
{
    x.trill = true;
    x.trill_line = true;
    x.trill_start = first;
    x.trill_end = last;
}

/// Puts a chord under a trill line (one variant of `trill_marked`).
fn mark_trill_chord(x: &mut Chord, first: bool, last: bool)
    ensures
        *final(x) == (Chord { trill: true, trill_line: true, trill_start: first, trill_end: last, ..*old(x) }),
{
    x.trill = true;
    x.trill_line = true;
    x.trill_start = first;
    x.trill_end = last;
}

/// Puts an event under a trill line (see `trill_marked`).
fn mark_trill(e: &mut Event, first: bool, last: bool)
    ensures
        trill_marked(*old(e), *final(e), first, last),
{
    match e {
        Event::Note(x) => mark_trill_note(x, first, last),
        Event::Rest(x) => mark_trill_rest(x, first, last),
        Event::Chord(x) => mark_trill_chord(x, first, last),
        _ => {},
    }
}

/// Makes a note a grace note (one variant of `grace_marked`).
fn mark_grace_note(x: &mut Note, slash: bool)
    ensures
        *final(x) == (Note { grace: true, grace_slash: slash, ..*old(x) }),
{
    x.grace = true;
    x.grace_slash = slash;
}

/// Makes a rest a grace note (one variant of `grace_marked`).
fn mark_grace_rest(x: &mut Rest, slash: bool)
    ensures
        *final(x) == (Rest { grace: true, grace_slash: slash, ..*old(x) }),
{
    x.grace = true;
    x.grace_slash = slash;
}

/// Makes a chord a grace note (one variant of `grace_marked`).
fn mark_grace_chord(x: &mut Chord, slash: bool)
    ensures
        *final(x) == (Chord { grace: true, grace_slash: slash, ..*old(x) }),
{
    x.grace = true;
    x.grace_slash = slash;
}

/// Makes an event a grace note (see `grace_marked`).
fn mark_grace(e: &mut Event, slash: bool)
    ensures
        grace_marked(*old(e), *final(e), slash),
{
    match e {
        Event::Note(x) => mark_grace_note(x, slash),
        Event::Rest(x) => mark_grace_rest(x, slash),
        Event::Chord(x) => mark_grace_chord(x, slash),
        _ => {},
    }
}

/// Puts a note under an octave line (one variant of `octline_marked`).
fn mark_octline_note(x: &mut Note, number: i32, direction: Option<String>, at_start: bool, at_end: bool)
    ensures
        *final(x) == (Note { octave_line_number: number, octave_line_direction: direction, octave_line_start: at_start, octave_line_end: at_end, ..*old(x) }),
{
    x.octave_line_number = number;
    x.octave_line_direction = direction;
    x.octave_line_start = at_start;
    x.octave_line_end = at_end;
}

/// Puts a rest under an octave line (one variant of `octline_marked`).
fn mark_octline_rest(x: &mut Rest, number: i32, direction: Option<String>, at_start: bool, at_end: bool)
    ensures
        *final(x) == (Rest { octave_line_number: number, octave_line_direction: direction, octave_line_start: at_start, octave_line_end: at_end, ..*old(x) }),
{
    x.octave_line_number = number;
    x.octave_line_direction = direction;
    x.octave_line_start = at_start;
    x.octave_line_end = at_end;
}

/// Puts a chord under an octave line (one variant of `octline_marked`).
fn mark_octline_chord(x: &mut Chord, number: i32, direction: Option<String>, at_start: bool, at_end: bool)
    ensures
        *final(x) == (Chord { octave_line_number: number, octave_line_direction: direction, octave_line_start: at_start, octave_line_end: at_end, ..*old(x) }),
{
    x.octave_line_number = number;
    x.octave_line_direction = direction;
    x.octave_line_start = at_start;
    x.octave_line_end = at_end;
}

/// Puts an event under an octave line (see `octline_marked`).
fn mark_octline(e: &mut Event, number: i32, direction: Option<String>, at_start: bool, at_end: bool)
    ensures
        octline_marked(*old(e), *final(e), number, direction, at_start, at_end),
{
    match e {
        Event::Note(x) => mark_octline_note(x, number, direction, at_start, at_end),
        Event::Rest(x) => mark_octline_rest(x, number, direction, at_start, at_end),
        Event::Chord(x) => mark_octline_chord(x, number, direction, at_start, at_end),
        _ => {},
    }
}

/// Marks a note as part of a tuplet (one variant of `tuplet_marked`).
fn mark_tuplet_note(x: &mut Note, beats: i32, number: i32, count: i32, at_start: bool, at_end: bool)
    ensures
        *final(x) == (Note { tuplet_beats: beats, tuplet_number: number, tuplet_count: count, tuplet_start: old(x).tuplet_start || at_start, tuplet_end: old(x).tuplet_end || at_end, ..*old(x) }),
{
    x.tuplet_beats = beats;
    x.tuplet_number = number;
    x.tuplet_count = count;
    x.tuplet_start = x.tuplet_start || at_start;
    x.tuplet_end = x.tuplet_end || at_end;
}

/// Marks a rest as part of a tuplet (one variant of `tuplet_marked`).
fn mark_tuplet_rest(x: &mut Rest, beats: i32, number: i32, count: i32, at_start: bool, at_end: bool)
    ensures
        *final(x) == (Rest { tuplet_beats: beats, tuplet_number: number, tuplet_count: count, tuplet_start: old(x).tuplet_start || at_start, tuplet_end: old(x).tuplet_end || at_end, ..*old(x) }),
{
    x.tuplet_beats = beats;
    x.tuplet_number = number;
    x.tuplet_count = count;
    x.tuplet_start = x.tuplet_start || at_start;
    x.tuplet_end = x.tuplet_end || at_end;
}

/// Marks a chord as part of a tuplet (one variant of `tuplet_marked`).
fn mark_tuplet_chord(x: &mut Chord, beats: i32, number: i32, count: i32, at_start: bool, at_end: bool)
    ensures
        *final(x) == (Chord { tuplet_beats: beats, tuplet_number: number, tuplet_count: count, tuplet_start: old(x).tuplet_start || at_start, tuplet_end: old(x).tuplet_end || at_end, ..*old(x) }),
{
    x.tuplet_beats = beats;
    x.tuplet_number = number;
    x.tuplet_count = count;
    x.tuplet_start = x.tuplet_start || at_start;
    x.tuplet_end = x.tuplet_end || at_end;
}

/// Marks an event as part of a tuplet (see `tuplet_marked`).
fn mark_tuplet(e: &mut Event, beats: i32, number: i32, count: i32, at_start: bool, at_end: bool)
    ensures
        tuplet_marked(*old(e), *final(e), beats, number, count, at_start, at_end),
{
    match e {
        Event::Note(x) => mark_tuplet_note(x, beats, number, count, at_start, at_end),
        Event::Rest(x) => mark_tuplet_rest(x, beats, number, count, at_start, at_end),
        Event::Chord(x) => mark_tuplet_chord(x, beats, number, count, at_start, at_end),
        _ => {},
    }
}

/// Marks a note as part of an ending (one variant of `ending_marked`).
fn mark_ending_note(x: &mut Note, label: Option<String>, first: bool, last: bool)
    ensures
        *final(x) == (Note { ending: label, ending_start: first, ending_end: last, ..*old(x) }),
{
    x.ending = label;
    x.ending_start = first;
    x.ending_end = last;
}

/// Marks a rest as part of an ending (one variant of `ending_marked`).
fn mark_ending_rest(x: &mut Rest, label: Option<String>, first: bool, last: bool)
    ensures
        *final(x) == (Rest { ending: label, ending_start: first, ending_end: last, ..*old(x) }),
{
    x.ending = label;
    x.ending_start = first;
    x.ending_end = last;
}

/// Marks a chord as part of an ending (one variant of `ending_marked`).
fn mark_ending_chord(x: &mut Chord, label: Option<String>, first: bool, last: bool)
    ensures
        *final(x) == (Chord { ending: label, ending_start: first, ending_end: last, ..*old(x) }),
{
    x.ending = label;
    x.ending_start = first;
    x.ending_end = last;
}

/// Marks a barline as part of an ending (one variant of `ending_marked`).
fn mark_ending_barline(x: &mut Barline, label: Option<String>, first: bool, last: bool)
    ensures
        *final(x) == (Barline { ending: label, ending_start: first, ending_end: last, ..*old(x) }),
{
    x.ending = label;
    x.ending_start = first;
    x.ending_end = last;
}

/// Marks a clef as part of an ending (one variant of `ending_marked`).
fn mark_ending_clef(x: &mut ClefChange, label: Option<String>, first: bool, last: bool)
    ensures
        *final(x) == (ClefChange { ending: label, ending_start: first, ending_end: last, ..*old(x) }),
{
    x.ending = label;
    x.ending_start = first;
    x.ending_end = last;
}

/// Marks a time sig as part of an ending (one variant of `ending_marked`).
fn mark_ending_time_sig(x: &mut TimeSig, label: Option<String>, first: bool, last: bool)
    ensures
        *final(x) == (TimeSig { ending: label, ending_start: first, ending_end: last, ..*old(x) }),
{
    x.ending = label;
    x.ending_start = first;
    x.ending_end = last;
}

/// Marks a key sig as part of an ending (one variant of `ending_marked`).
fn mark_ending_key_sig(x: &mut KeySig, label: Option<String>, first: bool, last: bool)
    ensures
        *final(x) == (KeySig { ending: label, ending_start: first, ending_end: last, ..*old(x) }),
{
    x.ending = label;
    x.ending_start = first;
    x.ending_end = last;
}

/// Marks a gap as part of an ending (one variant of `ending_marked`).
fn mark_ending_gap(x: &mut Gap, label: Option<String>, first: bool, last: bool)
    ensures
        *final(x) == (Gap { ending: label, ending_start: first, ending_end: last, ..*old(x) }),
{
    x.ending = label;
    x.ending_start = first;
    x.ending_end = last;
}

/// Marks a spacer as part of an ending (one variant of `ending_marked`).
fn mark_ending_spacer(x: &mut Spacer, label: Option<String>, first: bool, last: bool)
    ensures
        *final(x) == (Spacer { ending: label, ending_start: first, ending_end: last, ..*old(x) }),
{
    x.ending = label;
    x.ending_start = first;
    x.ending_end = last;
}

/// Marks an event as part of an ending (see `ending_marked`).
fn mark_ending(e: &mut Event, label: Option<String>, first: bool, last: bool)
    ensures
        ending_marked(*old(e), *final(e), label, first, last),
{
    match e {
        Event::Note(x) => mark_ending_note(x, label, first, last),
        Event::Rest(x) => mark_ending_rest(x, label, first, last),
        Event::Chord(x) => mark_ending_chord(x, label, first, last),
        Event::Barline(x) => mark_ending_barline(x, label, first, last),
        Event::Clef(x) => mark_ending_clef(x, label, first, last),
        Event::TimeSig(x) => mark_ending_time_sig(x, label, first, last),
        Event::KeySig(x) => mark_ending_key_sig(x, label, first, last),
        Event::Gap(x) => mark_ending_gap(x, label, first, last),
        Event::Spacer(x) => mark_ending_spacer(x, label, first, last),
        _ => {},
    }
}

impl<'a> Parser<'a> {
    /// Gives the notes, rests and chords since the octave line opened its
    /// number and direction; the start flag goes to the event where it
    /// opened and the end flag to the last event.
    fn close_octline(&mut self)
        requires
            old(self).inv(),
        ensures
            final(self).inv(),
            final(self).same_frame(old(self)),
            final(self).octline_start_idx is None,
            *final(self) == (Parser {
                events: final(self).events,
                octline_start_idx: None,
                octline_dir: None,
                octline_open_order: None,
                ..*old(self)
            }),
            old(self).spans_idle() ==> final(self).spans_idle(),
            octline_closed(old(self).octline_start_idx, old(self).octline_number, old(self).octline_dir, old(self).events@, final(self).events@),
    {
        if let Some(start) = self.octline_start_idx {
            let end = self.events.len();
            let mut i = start;
            while i < end
                invariant
                    self.inv(),
                    self.same_frame(old(self)),
                    *self == (Parser { events: self.events, ..*old(self) }),
                    self.events@.len() == end,
                    start <= i <= end,
                    self.octline_start_idx == old(self).octline_start_idx,
                    self.same_spans(old(self)),
                    self.octline_number == old(self).octline_number,
                    self.octline_dir == old(self).octline_dir,
                    forall|k: int|
                        0 <= k < end ==> if start <= k < i {
                            octline_marked(old(self).events@[k], #[trigger] self.events@[k], old(self).octline_number, old(self).octline_dir, k == start, k == end - 1)
                        } else {
                            self.events@[k] == old(self).events@[k]
                        },
                decreases end - i,
            {
                let ghost before = self.events@;
                let num = self.octline_number;
                let dir = clone_opt(&self.octline_dir);
                mark_octline(&mut self.events[i], num, dir, i == start, i == end - 1);
                proof {
                    lemma_marks_keep_wf(before[i as int], self.events@[i as int], old(self).octline_dir, 0, num, 0, i == start, i == end - 1);
                    assert forall|k: int| 0 <= k < end implies if start <= k < i + 1 {
                        octline_marked(old(self).events@[k], #[trigger] self.events@[k], old(self).octline_number, old(self).octline_dir, k == start, k == end - 1)
                    } else {
                        self.events@[k] == old(self).events@[k]
                    } by {
                        if k != i {
                            assert(self.events@[k] == before[k]);
                        } else {
                            assert(before[k] == old(self).events@[k]);
                        }
                    }
                    assert forall|k: int| 0 <= k < end implies event_wf(#[trigger] self.events@[k]) by {
                        if k != i {
                            assert(self.events@[k] == before[k]);
                        }
                    }
                }
                i = i + 1;
            }
        }
        self.octline_start_idx = None;
        self.octline_dir = None;
        self.octline_open_order = None;
    }

    /// Gives every event since the ending opened, line breaks and voice
    /// groups aside, the ending's label, and marks the first and last of
    /// them (line breaks aside) as its ends.
    fn close_ending(&mut self)
        requires
            old(self).inv(),
        ensures
            final(self).inv(),
            final(self).same_frame(old(self)),
            final(self).ending_start_idx is None,
            *final(self) == (Parser {
                events: final(self).events,
                ending_start_idx: None,
                ending_label: None,
                ending_open_order: None,
                ..*old(self)
            }),
            old(self).spans_idle() ==> final(self).events == old(self).events && final(self).spans_idle(),
            ending_closed(old(self).ending_start_idx, old(self).ending_label, old(self).events@, final(self).events@),
    {
        if let Some(start) = self.ending_start_idx {
            let end = self.events.len();
            let last = last_member_end(&self.events, start);
            let mut seen = false;
            let mut i = start;
            while i < end
                invariant
                    self.inv(),
                    self.same_frame(old(self)),
                    self.events@.len() == end,
                    start <= i <= end,
                    self.ending_start_idx == old(self).ending_start_idx,
                    self.same_spans(old(self)),
                    self.ending_label == old(self).ending_label,
                    *self == (Parser { events: self.events, ..*old(self) }),
                    start <= last <= end,
                    only_breaks(old(self).events@, last as int, end as int),
                    last > start ==> !(old(self).events@[last - 1] is LineBreak),
                    seen == !only_breaks(old(self).events@, start as int, i as int),
                    forall|k: int|
                        0 <= k < end ==> if start <= k < i {
                            ending_marked(old(self).events@[k], #[trigger] self.events@[k], old(self).ending_label, only_breaks(old(self).events@, start as int, k), only_breaks(old(self).events@, k + 1, end as int))
                        } else {
                            self.events@[k] == old(self).events@[k]
                        },
                decreases end - i,
            {
                let ghost before = self.events@;
                let label = clone_opt(&self.ending_label);
                let here = !is_line_break(&self.events[i]);
                let ghost first = !seen;
                let ghost is_last = i + 1 == last;
                mark_ending(&mut self.events[i], label, !seen, i + 1 == last);
                if here {
                    seen = true;
                }
                proof {
                    lemma_marks_keep_wf(before[i as int], self.events@[i as int], old(self).ending_label, 0, 0, 0, first, is_last);
                    assert(before[i as int] == old(self).events@[i as int]);
                    assert(only_breaks(old(self).events@, start as int, i + 1) == (only_breaks(
                        old(self).events@,
                        start as int,
                        i as int,
                    ) && old(self).events@[i as int] is LineBreak));
                    if !(old(self).events@[i as int] is LineBreak) {
                        if i + 1 < last {
                            assert(!only_breaks(old(self).events@, i + 1, end as int)) by {
                                assert(!(old(self).events@[last - 1] is LineBreak));
                            }
                        }
                    }
                    assert forall|k: int| 0 <= k < end implies if start <= k < i + 1 {
                        ending_marked(old(self).events@[k], #[trigger] self.events@[k], old(self).ending_label, only_breaks(old(self).events@, start as int, k), only_breaks(old(self).events@, k + 1, end as int))
                    } else {
                        self.events@[k] == old(self).events@[k]
                    } by {
                        if k != i {
                            assert(self.events@[k] == before[k]);
                        } else {
                            assert(before[k] == old(self).events@[k]);
                        }
                    }
                    assert forall|k: int| 0 <= k < end implies event_wf(#[trigger] self.events@[k]) by {
                        if k != i {
                            assert(self.events@[k] == before[k]);
                        }
                    }
                }
                i = i + 1;
            }
        }
        self.ending_start_idx = None;
        self.ending_label = None;
        self.ending_open_order = None;
    }

    /// Gives the notes, rests and chords since the hairpin opened its kind,
    /// and marks the first and last of them as its ends.
    fn close_hairpin(&mut self)
        requires
            old(self).inv(),
        ensures
            final(self).inv(),
            final(self).same_frame(old(self)),
            final(self).hairpin_start_idx is None,
            *final(self) == (Parser {
                events: final(self).events,
                hairpin_start_idx: None,
                hairpin_kind: None,
                hairpin_open_order: None,
                ..*old(self)
            }),
            old(self).spans_idle() ==> final(self).events == old(self).events && final(self).spans_idle(),
            hairpin_closed(old(self).hairpin_start_idx, old(self).hairpin_kind, old(self).events@, final(self).events@),
    {
        if let Some(start) = self.hairpin_start_idx {
            let end = self.events.len();
            let last = last_anchor_end(&self.events, start);
            let mut seen = false;
            let mut i = start;
            while i < end
                invariant
                    self.inv(),
                    self.same_frame(old(self)),
                    self.events@.len() == end,
                    start <= i <= end,
                    self.hairpin_start_idx == old(self).hairpin_start_idx,
                    self.same_spans(old(self)),
                    self.hairpin_kind == old(self).hairpin_kind,
                    *self == (Parser { events: self.events, ..*old(self) }),
                    start <= last <= end,
                    no_anchor(old(self).events@, last as int, end as int),
                    last > start ==> anchor_event(old(self).events@[last - 1]),
                    seen == !no_anchor(old(self).events@, start as int, i as int),
                    forall|k: int|
                        0 <= k < end ==> if start <= k < i {
                            hairpin_marked(old(self).events@[k], #[trigger] self.events@[k], old(self).hairpin_kind, no_anchor(old(self).events@, start as int, k), no_anchor(old(self).events@, k + 1, end as int))
                        } else {
                            self.events@[k] == old(self).events@[k]
                        },
                decreases end - i,
            {
                let ghost before = self.events@;
                let kind = clone_opt(&self.hairpin_kind);
                let here = self.events[i].is_anchor();
                let ghost first = !seen;
                let ghost is_last = i + 1 == last;
                mark_hairpin(&mut self.events[i], kind, !seen, i + 1 == last);
                if here {
                    seen = true;
                }
                proof {
                    lemma_marks_keep_wf(before[i as int], self.events@[i as int], old(self).hairpin_kind, 0, 0, 0, first, is_last);
                    assert(before[i as int] == old(self).events@[i as int]);
                    assert(no_anchor(old(self).events@, start as int, i + 1) == (no_anchor(
                        old(self).events@,
                        start as int,
                        i as int,
                    ) && !anchor_event(old(self).events@[i as int])));
                    if anchor_event(old(self).events@[i as int]) {
                        if i + 1 < last {
                            assert(!no_anchor(old(self).events@, i + 1, end as int)) by {
                                assert(anchor_event(old(self).events@[last - 1]));
                            }
                        }
                    }
                    assert forall|k: int| 0 <= k < end implies if start <= k < i + 1 {
                        hairpin_marked(old(self).events@[k], #[trigger] self.events@[k], old(self).hairpin_kind, no_anchor(old(self).events@, start as int, k), no_anchor(old(self).events@, k + 1, end as int))
                    } else {
                        self.events@[k] == old(self).events@[k]
                    } by {
                        if k != i {
                            assert(self.events@[k] == before[k]);
                        } else {
                            assert(before[k] == old(self).events@[k]);
                        }
                    }
                    assert forall|k: int| 0 <= k < end implies event_wf(#[trigger] self.events@[k]) by {
                        if k != i {
                            assert(self.events@[k] == before[k]);
                        }
                    }
                }
                i = i + 1;
            }
        }
        self.hairpin_start_idx = None;
        self.hairpin_kind = None;
        self.hairpin_open_order = None;
    }

    /// Puts a trill line over the notes, rests and chords since the trill
    /// opened, marking the first and last of them as its ends.
    fn close_trill(&mut self)
        requires
            old(self).inv(),
        ensures
            final(self).inv(),
            final(self).same_frame(old(self)),
            final(self).trill_start_idx is None,
            *final(self) == (Parser {
                events: final(self).events,
                trill_start_idx: None,
                trill_open_order: None,
                ..*old(self)
            }),
            old(self).spans_idle() ==> final(self).events == old(self).events && final(self).spans_idle(),
            trill_closed(old(self).trill_start_idx, old(self).events@, final(self).events@),
    {
        if let Some(start) = self.trill_start_idx {
            let end = self.events.len();
            let last = last_anchor_end(&self.events, start);
            let mut seen = false;
            let mut i = start;
            while i < end
                invariant
                    self.inv(),
                    self.same_frame(old(self)),
                    self.events@.len() == end,
                    start <= i <= end,
                    self.trill_start_idx == old(self).trill_start_idx,
                    self.same_spans(old(self)),
                    *self == (Parser { events: self.events, ..*old(self) }),
                    start <= last <= end,
                    no_anchor(old(self).events@, last as int, end as int),
                    last > start ==> anchor_event(old(self).events@[last - 1]),
                    seen == !no_anchor(old(self).events@, start as int, i as int),
                    forall|k: int|
                        0 <= k < end ==> if start <= k < i {
                            trill_marked(old(self).events@[k], #[trigger] self.events@[k], no_anchor(old(self).events@, start as int, k), no_anchor(old(self).events@, k + 1, end as int))
                        } else {
                            self.events@[k] == old(self).events@[k]
                        },
                decreases end - i,
            {
                let ghost before = self.events@;
                let here = self.events[i].is_anchor();
                let ghost first = !seen;
                let ghost is_last = i + 1 == last;
                mark_trill(&mut self.events[i], !seen, i + 1 == last);
                if here {
                    seen = true;
                }
                proof {
                    lemma_marks_keep_wf(before[i as int], self.events@[i as int], None, 0, 0, 0, first, is_last);
                    assert(before[i as int] == old(self).events@[i as int]);
                    assert(no_anchor(old(self).events@, start as int, i + 1) == (no_anchor(
                        old(self).events@,
                        start as int,
                        i as int,
                    ) && !anchor_event(old(self).events@[i as int])));
                    if anchor_event(old(self).events@[i as int]) {
                        if i + 1 < last {
                            assert(!no_anchor(old(self).events@, i + 1, end as int)) by {
                                assert(anchor_event(old(self).events@[last - 1]));
                            }
                        }
                    }
                    assert forall|k: int| 0 <= k < end implies if start <= k < i + 1 {
                        trill_marked(old(self).events@[k], #[trigger] self.events@[k], no_anchor(old(self).events@, start as int, k), no_anchor(old(self).events@, k + 1, end as int))
                    } else {
                        self.events@[k] == old(self).events@[k]
                    } by {
                        if k != i {
                            assert(self.events@[k] == before[k]);
                        } else {
                            assert(before[k] == old(self).events@[k]);
                        }
                    }
                    assert forall|k: int| 0 <= k < end implies event_wf(#[trigger] self.events@[k]) by {
                        if k != i {
                            assert(self.events@[k] == before[k]);
                        }
                    }
                }
                i = i + 1;
            }
        }
        self.trill_start_idx = None;
        self.trill_open_order = None;
    }

    /// Makes the notes, rests and chords since `grace{` grace notes, slashed
    /// when the group ended with `/}`.
    fn close_grace(&mut self)
        requires
            old(self).inv(),
        ensures
            final(self).inv(),
            final(self).same_frame(old(self)),
            final(self).grace_start_idx is None,
            *final(self) == (Parser {
                events: final(self).events,
                grace_start_idx: None,
                grace_slash: false,
                grace_open_order: None,
                ..*old(self)
            }),
            old(self).spans_idle() ==> final(self).spans_idle(),
            grace_closed(old(self).grace_start_idx, old(self).grace_slash, old(self).events@, final(self).events@),
    {
        if let Some(start) = self.grace_start_idx {
            let end = self.events.len();
            let slash = self.grace_slash;
            let mut i = start;
            while i < end
                invariant
                    self.inv(),
                    self.same_frame(old(self)),
                    *self == (Parser { events: self.events, ..*old(self) }),
                    self.events@.len() == end,
                    start <= i <= end,
                    self.grace_start_idx == old(self).grace_start_idx,
                    self.same_spans(old(self)),
                    slash == old(self).grace_slash,
                    forall|k: int|
                        0 <= k < end ==> if start <= k < i {
                            grace_marked(old(self).events@[k], #[trigger] self.events@[k], old(self).grace_slash)
                        } else {
                            self.events@[k] == old(self).events@[k]
                        },
                decreases end - i,
            {
                let ghost before = self.events@;
                mark_grace(&mut self.events[i], slash);
                proof {
                    lemma_marks_keep_wf(before[i as int], self.events@[i as int], None, 0, 0, 0, slash, false);
                    assert forall|k: int| 0 <= k < end implies if start <= k < i + 1 {
                        grace_marked(old(self).events@[k], #[trigger] self.events@[k], old(self).grace_slash)
                    } else {
                        self.events@[k] == old(self).events@[k]
                    } by {
                        if k != i {
                            assert(self.events@[k] == before[k]);
                        } else {
                            assert(before[k] == old(self).events@[k]);
                        }
                    }
                    assert forall|k: int| 0 <= k < end implies event_wf(#[trigger] self.events@[k]) by {
                        if k != i {
                            assert(self.events@[k] == before[k]);
                        }
                    }
                }
                i = i + 1;
            }
        }
        self.grace_start_idx = None;
        self.grace_slash = false;
        self.grace_open_order = None;
    }
}

} // verus!

verus! {

/// The colour slot of an element's colours that a target names.
pub open spec fn color_slot(c: ElementColors, t: EventColorTarget) -> Option<String> {
    match t {
        EventColorTarget::Overall => c.overall,
        EventColorTarget::Tie => c.tie,
        EventColorTarget::Slur => c.slur,
        EventColorTarget::Beam => c.beam,
        EventColorTarget::Articulations => c.articulations,
        EventColorTarget::Dynamic => c.dynamic,
        EventColorTarget::ChordSymbol => c.chord_symbol,
        EventColorTarget::StaffText => c.staff_text,
        EventColorTarget::ExpressionText => c.expression_text,
        EventColorTarget::Fingering => c.fingering,
        EventColorTarget::Lyrics => c.lyrics,
        EventColorTarget::Trill => c.trill,
        EventColorTarget::StaffMarkers => c.staff_markers,
    }
}

/// The colours with one slot replaced.
pub open spec fn with_color_slot(c: ElementColors, t: EventColorTarget, v: Option<String>) -> ElementColors {
    match t {
        EventColorTarget::Overall => ElementColors { overall: v, ..c },
        EventColorTarget::Tie => ElementColors { tie: v, ..c },
        EventColorTarget::Slur => ElementColors { slur: v, ..c },
        EventColorTarget::Beam => ElementColors { beam: v, ..c },
        EventColorTarget::Articulations => ElementColors { articulations: v, ..c },
        EventColorTarget::Dynamic => ElementColors { dynamic: v, ..c },
        EventColorTarget::ChordSymbol => ElementColors { chord_symbol: v, ..c },
        EventColorTarget::StaffText => ElementColors { staff_text: v, ..c },
        EventColorTarget::ExpressionText => ElementColors { expression_text: v, ..c },
        EventColorTarget::Fingering => ElementColors { fingering: v, ..c },
        EventColorTarget::Lyrics => ElementColors { lyrics: v, ..c },
        EventColorTarget::Trill => ElementColors { trill: v, ..c },
        EventColorTarget::StaffMarkers => ElementColors { staff_markers: v, ..c },
    }
}

/// Colours the targeted part unless it already has a colour.
pub fn apply_color_to_colors(colors: &mut ElementColors, target: EventColorTarget, color: &str)
    ensures
        *final(colors) == with_color_slot(*old(colors), target, color_slot(*final(colors), target)),
        color_slot(*old(colors), target) is None ==> opt_view(color_slot(*final(colors), target))
            == Some(color@),
        color_slot(*old(colors), target) is Some ==> color_slot(*final(colors), target)
            == color_slot(*old(colors), target),
{
    match target {
        EventColorTarget::Overall => set_if_missing(&mut colors.overall, color),
        EventColorTarget::Tie => set_if_missing(&mut colors.tie, color),
        EventColorTarget::Slur => set_if_missing(&mut colors.slur, color),
        EventColorTarget::Beam => set_if_missing(&mut colors.beam, color),
        EventColorTarget::Articulations => set_if_missing(&mut colors.articulations, color),
        EventColorTarget::Dynamic => set_if_missing(&mut colors.dynamic, color),
        EventColorTarget::ChordSymbol => set_if_missing(&mut colors.chord_symbol, color),
        EventColorTarget::StaffText => set_if_missing(&mut colors.staff_text, color),
        EventColorTarget::ExpressionText => set_if_missing(&mut colors.expression_text, color),
        EventColorTarget::Fingering => set_if_missing(&mut colors.fingering, color),
        EventColorTarget::Lyrics => set_if_missing(&mut colors.lyrics, color),
        EventColorTarget::Trill => set_if_missing(&mut colors.trill, color),
        EventColorTarget::StaffMarkers => set_if_missing(&mut colors.staff_markers, color),
    }
}

/// Which parts of an element are present, for a selection colour.
pub struct PresentParts {
    pub tie: bool,
    pub slur: bool,
    pub beam: bool,
    pub articulations: bool,
    pub dynamic: bool,
    pub chord_symbol: bool,
    pub staff_text: bool,
    pub expression_text: bool,
    pub fingering: bool,
    pub lyrics: bool,
    pub trill: bool,
    pub staff_markers: bool,
    pub octave_line: bool,
}

/// A slot offered a colour: an empty slot takes it, a filled one keeps its
/// own.
pub open spec fn slot_filled(old: Option<String>, new: Option<String>, color: Seq<char>) -> bool {
    if old is None {
        opt_view(new) == Some(color)
    } else {
        new == old
    }
}

/// A slot offered a colour only where its part is `present`.
pub open spec fn slot_offered(old: Option<String>, new: Option<String>, present: bool, color: Seq<char>) -> bool {
    if present {
        slot_filled(old, new, color)
    } else {
        new == old
    }
}

/// The colours of an element after a selection colour: the element itself
/// and each present part are offered the colour; noteheads keep theirs.
pub open spec fn parts_selected(old: ElementColors, new: ElementColors, p: PresentParts, color: Seq<char>) -> bool {
    &&& slot_filled(old.overall, new.overall, color)
    &&& slot_offered(old.tie, new.tie, p.tie, color)
    &&& slot_offered(old.slur, new.slur, p.slur, color)
    &&& slot_offered(old.beam, new.beam, p.beam, color)
    &&& slot_offered(old.articulations, new.articulations, p.articulations, color)
    &&& slot_offered(old.dynamic, new.dynamic, p.dynamic, color)
    &&& slot_offered(old.chord_symbol, new.chord_symbol, p.chord_symbol, color)
    &&& slot_offered(old.staff_text, new.staff_text, p.staff_text, color)
    &&& slot_offered(old.expression_text, new.expression_text, p.expression_text, color)
    &&& slot_offered(old.fingering, new.fingering, p.fingering, color)
    &&& slot_offered(old.lyrics, new.lyrics, p.lyrics, color)
    &&& slot_offered(old.trill, new.trill, p.trill, color)
    &&& slot_offered(old.staff_markers, new.staff_markers, p.staff_markers, color)
    &&& slot_offered(old.octave_line, new.octave_line, p.octave_line, color)
    &&& new.noteheads == old.noteheads
}

/// The parts of a note a selection colour reaches.
pub open spec fn spec_note_parts(n: Note) -> PresentParts {
    PresentParts {
        tie: n.tie,
        slur: n.slur_start || n.slur_end,
        beam: n.beam_start || n.beam_end,
        articulations: n.articulations@.len() > 0,
        dynamic: n.dynamic is Some,
        chord_symbol: n.chord_symbol is Some,
        staff_text: n.staff_text is Some,
        expression_text: n.expression_text is Some,
        fingering: n.fingering is Some,
        lyrics: n.lyrics@.len() > 0,
        trill: n.trill || n.trill_line,
        staff_markers: n.staff_markers@.len() > 0,
        octave_line: n.octave_line_number != 0,
    }
}

/// The parts of a rest a selection colour reaches (a rest has no tie,
/// slur, beam, articulations or fingering).
pub open spec fn spec_rest_parts(r: Rest) -> PresentParts {
    PresentParts {
        tie: false,
        slur: false,
        beam: false,
        articulations: false,
        dynamic: r.dynamic is Some,
        chord_symbol: r.chord_symbol is Some,
        staff_text: r.staff_text is Some,
        expression_text: r.expression_text is Some,
        fingering: false,
        lyrics: r.lyrics@.len() > 0,
        trill: r.trill || r.trill_line,
        staff_markers: r.staff_markers@.len() > 0,
        octave_line: r.octave_line_number != 0,
    }
}

/// The parts of a chord a selection colour reaches.
pub open spec fn spec_chord_parts(c: Chord) -> PresentParts {
    PresentParts {
        tie: c.tie,
        slur: c.slur_start || c.slur_end,
        beam: c.beam_start || c.beam_end,
        articulations: c.articulations@.len() > 0,
        dynamic: c.dynamic is Some,
        chord_symbol: c.chord_symbol is Some,
        staff_text: c.staff_text is Some,
        expression_text: c.expression_text is Some,
        fingering: c.fingering is Some,
        lyrics: c.lyrics@.len() > 0,
        trill: c.trill || c.trill_line,
        staff_markers: c.staff_markers@.len() > 0,
        octave_line: c.octave_line_number != 0,
    }
}

/// An event after a selection colour: notes, rests and chords as in
/// `parts_selected`; clef changes, time signatures and spacers are offered
/// the colour; barlines, gaps, line breaks and voice groups stay as they
/// are.
pub open spec fn selection_colored(old: Event, new: Event, color: Seq<char>) -> bool {
    match old {
        Event::Note(n) => new matches Event::Note(nn) && nn == Note { colors: nn.colors, ..n }
            && parts_selected(n.colors, nn.colors, spec_note_parts(n), color),
        Event::Rest(r) => new matches Event::Rest(nr) && nr == Rest { colors: nr.colors, ..r }
            && parts_selected(r.colors, nr.colors, spec_rest_parts(r), color),
        Event::Chord(c) => new matches Event::Chord(nc) && nc == Chord { colors: nc.colors, ..c }
            && parts_selected(c.colors, nc.colors, spec_chord_parts(c), color),
        Event::Clef(x) => new matches Event::Clef(nx) && nx == ClefChange { color: nx.color, ..x }
            && slot_filled(x.color, nx.color, color),
        Event::TimeSig(x) => new matches Event::TimeSig(nx) && nx == TimeSig { color: nx.color, ..x }
            && slot_filled(x.color, nx.color, color),
        Event::Spacer(x) => new matches Event::Spacer(nx) && nx == Spacer { color: nx.color, ..x }
            && slot_filled(x.color, nx.color, color),
        _ => new == old,
    }
}

/// Law: a selection colour does not recolour measure lines: a barline
/// comes out of it as it went in.
pub proof fn lemma_selection_keeps_barlines(old: Event, new: Event, color: Seq<char>)
    requires
        selection_colored(old, new, color),
        old is Barline,
    ensures
        new == old,
{
}

/// Offers `color` to a slot whose part is `present`.
fn offer_color(slot: &mut Option<String>, present: bool, color: &str)
    ensures
        slot_offered(*old(slot), *final(slot), present, color@),
{
    if present {
        set_if_missing(slot, color);
    }
}

/// Colours the element and each present part that has no colour yet.
#[verifier::rlimit(30)]
fn select_colors(c: &mut ElementColors, parts: &PresentParts, color: &str)
    ensures
        parts_selected(*old(c), *final(c), *parts, color@),
{
    offer_color(&mut c.overall, true, color);
    offer_color(&mut c.tie, parts.tie, color);
    offer_color(&mut c.slur, parts.slur, color);
    offer_color(&mut c.beam, parts.beam, color);
    offer_color(&mut c.articulations, parts.articulations, color);
    offer_color(&mut c.dynamic, parts.dynamic, color);
    offer_color(&mut c.chord_symbol, parts.chord_symbol, color);
    offer_color(&mut c.staff_text, parts.staff_text, color);
    offer_color(&mut c.expression_text, parts.expression_text, color);
    offer_color(&mut c.fingering, parts.fingering, color);
    offer_color(&mut c.lyrics, parts.lyrics, color);
    offer_color(&mut c.trill, parts.trill, color);
    offer_color(&mut c.staff_markers, parts.staff_markers, color);
    offer_color(&mut c.octave_line, parts.octave_line, color);
}

/// The parts of a note present for a selection colour.
fn note_parts(n: &Note) -> (p: PresentParts)
    ensures
        p == spec_note_parts(*n),
{
    PresentParts {
        tie: n.tie,
        slur: n.slur_start || n.slur_end,
        beam: n.beam_start || n.beam_end,
        articulations: n.articulations.len() > 0,
        dynamic: n.dynamic.is_some(),
        chord_symbol: n.chord_symbol.is_some(),
        staff_text: n.staff_text.is_some(),
        expression_text: n.expression_text.is_some(),
        fingering: n.fingering.is_some(),
        lyrics: n.lyrics.len() > 0,
        trill: n.trill || n.trill_line,
        staff_markers: n.staff_markers.len() > 0,
        octave_line: n.octave_line_number != 0,
    }
}

/// The parts of a rest present for a selection colour (a rest has no tie,
/// slur, beam, articulations or fingering).
fn rest_parts(r: &Rest) -> (p: PresentParts)
    ensures
        p == spec_rest_parts(*r),
{
    PresentParts {
        tie: false,
        slur: false,
        beam: false,
        articulations: false,
        dynamic: r.dynamic.is_some(),
        chord_symbol: r.chord_symbol.is_some(),
        staff_text: r.staff_text.is_some(),
        expression_text: r.expression_text.is_some(),
        fingering: false,
        lyrics: r.lyrics.len() > 0,
        trill: r.trill || r.trill_line,
        staff_markers: r.staff_markers.len() > 0,
        octave_line: r.octave_line_number != 0,
    }
}

/// The parts of a chord present for a selection colour.
fn chord_parts(c: &Chord) -> (p: PresentParts)
    ensures
        p == spec_chord_parts(*c),
{
    PresentParts {
        tie: c.tie,
        slur: c.slur_start || c.slur_end,
        beam: c.beam_start || c.beam_end,
        articulations: c.articulations.len() > 0,
        dynamic: c.dynamic.is_some(),
        chord_symbol: c.chord_symbol.is_some(),
        staff_text: c.staff_text.is_some(),
        expression_text: c.expression_text.is_some(),
        fingering: c.fingering.is_some(),
        lyrics: c.lyrics.len() > 0,
        trill: c.trill || c.trill_line,
        staff_markers: c.staff_markers.len() > 0,
        octave_line: c.octave_line_number != 0,
    }
}

/// A selection colour keeps an event well formed, and a line break a line
/// break.
proof fn lemma_selection_keeps_wf(old: Event, new: Event, color: Seq<char>)
    requires
        selection_colored(old, new, color),
    ensures
        event_wf(old) ==> event_wf(new),
        (old is LineBreak) == (new is LineBreak),
{
}

/// Applies a selection colour to a note.
fn select_note_colors(x: &mut Note, color: &str)
    ensures
        *final(x) == (Note { colors: final(x).colors, ..*old(x) }),
        parts_selected(old(x).colors, final(x).colors, spec_note_parts(*old(x)), color@),
{
    let parts = note_parts(x);
    select_colors(&mut x.colors, &parts, color);
}

/// Applies a selection colour to a rest.
fn select_rest_colors(x: &mut Rest, color: &str)
    ensures
        *final(x) == (Rest { colors: final(x).colors, ..*old(x) }),
        parts_selected(old(x).colors, final(x).colors, spec_rest_parts(*old(x)), color@),
{
    let parts = rest_parts(x);
    select_colors(&mut x.colors, &parts, color);
}

/// Applies a selection colour to a chord.
fn select_chord_colors(x: &mut Chord, color: &str)
    ensures
        *final(x) == (Chord { colors: final(x).colors, ..*old(x) }),
        parts_selected(old(x).colors, final(x).colors, spec_chord_parts(*old(x)), color@),
{
    let parts = chord_parts(x);
    select_colors(&mut x.colors, &parts, color);
}

/// Applies a selection colour to one event (see `selection_colored`).
fn select_event_colors(e: &mut Event, color: &str)
    ensures
        selection_colored(*old(e), *final(e), color@),
{
    match e {
        Event::Note(x) => select_note_colors(x, color),
        Event::Rest(x) => select_rest_colors(x, color),
        Event::Chord(x) => select_chord_colors(x, color),
        Event::Clef(x) => set_if_missing(&mut x.color, color),
        Event::TimeSig(x) => set_if_missing(&mut x.color, color),
        Event::Spacer(x) => set_if_missing(&mut x.color, color),
        _ => {},
    }
}

/// The colours of an element after `color{...}` on the part `kind`: that
/// part is offered the colour, everything else stays.
pub open spec fn part_colored(old: ElementColors, new: ElementColors, kind: EventColorTarget, color: Seq<char>) -> bool {
    &&& new == with_color_slot(old, kind, color_slot(new, kind))
    &&& slot_filled(color_slot(old, kind), color_slot(new, kind), color)
}

/// The last event after an element-local `color{...}`: the part written
/// last, if the event has it, is offered the colour; otherwise nothing
/// changes.
pub open spec fn last_target_colored(old: Event, new: Event, t: LastColorTarget, color: Seq<char>) -> bool {
    match (t, old) {
        (LastColorTarget::Event(kind), Event::Note(x)) => new matches Event::Note(nx) && nx == Note {
            colors: nx.colors,
            ..x
        } && part_colored(x.colors, nx.colors, kind, color),
        (LastColorTarget::Event(kind), Event::Rest(x)) => new matches Event::Rest(nx) && nx == Rest {
            colors: nx.colors,
            ..x
        } && part_colored(x.colors, nx.colors, kind, color),
        (LastColorTarget::Event(kind), Event::Chord(x)) => new matches Event::Chord(nx) && nx == Chord {
            colors: nx.colors,
            ..x
        } && part_colored(x.colors, nx.colors, kind, color),
        (LastColorTarget::Barline, Event::Barline(x)) => new matches Event::Barline(nx) && nx == Barline {
            color: nx.color,
            ..x
        } && slot_filled(x.color, nx.color, color),
        (LastColorTarget::Clef, Event::Clef(x)) => new matches Event::Clef(nx) && nx == ClefChange {
            color: nx.color,
            ..x
        } && slot_filled(x.color, nx.color, color),
        (LastColorTarget::TimeSig, Event::TimeSig(x)) => new matches Event::TimeSig(nx) && nx == TimeSig {
            color: nx.color,
            ..x
        } && slot_filled(x.color, nx.color, color),
        (LastColorTarget::Spacer, Event::Spacer(x)) => new matches Event::Spacer(nx) && nx == Spacer {
            color: nx.color,
            ..x
        } && slot_filled(x.color, nx.color, color),
        _ => new == old,
    }
}

/// Colours one part of a note.
fn color_note_part(x: &mut Note, kind: EventColorTarget, color: &str)
    ensures
        *final(x) == (Note { colors: final(x).colors, ..*old(x) }),
        part_colored(old(x).colors, final(x).colors, kind, color@),
{
    apply_color_to_colors(&mut x.colors, kind, color);
}

/// Colours one part of a rest.
fn color_rest_part(x: &mut Rest, kind: EventColorTarget, color: &str)
    ensures
        *final(x) == (Rest { colors: final(x).colors, ..*old(x) }),
        part_colored(old(x).colors, final(x).colors, kind, color@),
{
    apply_color_to_colors(&mut x.colors, kind, color);
}

/// Colours one part of a chord.
fn color_chord_part(x: &mut Chord, kind: EventColorTarget, color: &str)
    ensures
        *final(x) == (Chord { colors: final(x).colors, ..*old(x) }),
        part_colored(old(x).colors, final(x).colors, kind, color@),
{
    apply_color_to_colors(&mut x.colors, kind, color);
}

/// Applies an element-local colour to the part `t` of one event (see
/// `last_target_colored`).
fn color_last_event(e: &mut Event, t: LastColorTarget, color: &str)
    ensures
        last_target_colored(*old(e), *final(e), t, color@),
{
    match (t, e) {
        (LastColorTarget::Event(kind), Event::Note(x)) => color_note_part(x, kind, color),
        (LastColorTarget::Event(kind), Event::Rest(x)) => color_rest_part(x, kind, color),
        (LastColorTarget::Event(kind), Event::Chord(x)) => color_chord_part(x, kind, color),
        (LastColorTarget::Barline, Event::Barline(x)) => set_if_missing(&mut x.color, color),
        (LastColorTarget::Clef, Event::Clef(x)) => set_if_missing(&mut x.color, color),
        (LastColorTarget::TimeSig, Event::TimeSig(x)) => set_if_missing(&mut x.color, color),
        (LastColorTarget::Spacer, Event::Spacer(x)) => set_if_missing(&mut x.color, color),
        _ => {},
    }
}

/// An element-local colour keeps an event well formed, and a line break a
/// line break.
proof fn lemma_last_target_keeps_wf(old: Event, new: Event, t: LastColorTarget, color: Seq<char>)
    requires
        last_target_colored(old, new, t, color),
    ensures
        event_wf(old) ==> event_wf(new),
        (old is LineBreak) == (new is LineBreak),
{
}

/// An event after a staff marker is attached to it: a note, rest or chord
/// gains `marker` after its other staff markers; anything else stays.
pub open spec fn marker_added(old: Event, new: Event, marker: String) -> bool {
    match old {
        Event::Note(x) => new matches Event::Note(nx) && nx == Note { staff_markers: nx.staff_markers, ..x }
            && nx.staff_markers@ == x.staff_markers@.push(marker),
        Event::Rest(x) => new matches Event::Rest(nx) && nx == Rest { staff_markers: nx.staff_markers, ..x }
            && nx.staff_markers@ == x.staff_markers@.push(marker),
        Event::Chord(x) => new matches Event::Chord(nx) && nx == Chord { staff_markers: nx.staff_markers, ..x }
            && nx.staff_markers@ == x.staff_markers@.push(marker),
        _ => new == old,
    }
}

/// Adds a staff marker to a note.
fn add_staff_marker_note(x: &mut Note, marker: String)
    ensures
        *final(x) == (Note { staff_markers: final(x).staff_markers, ..*old(x) }),
        final(x).staff_markers@ == old(x).staff_markers@.push(marker),
{
    x.staff_markers.push(marker);
}

/// Adds a staff marker to a rest.
fn add_staff_marker_rest(x: &mut Rest, marker: String)
    ensures
        *final(x) == (Rest { staff_markers: final(x).staff_markers, ..*old(x) }),
        final(x).staff_markers@ == old(x).staff_markers@.push(marker),
{
    x.staff_markers.push(marker);
}

/// Adds a staff marker to a chord.
fn add_staff_marker_chord(x: &mut Chord, marker: String)
    ensures
        *final(x) == (Chord { staff_markers: final(x).staff_markers, ..*old(x) }),
        final(x).staff_markers@ == old(x).staff_markers@.push(marker),
{
    x.staff_markers.push(marker);
}

/// Adds a staff marker to a note, rest or chord (see `marker_added`); tells
/// whether the event could take it.
fn add_staff_marker(e: &mut Event, marker: String) -> (attached: bool)
    ensures
        marker_added(*old(e), *final(e), marker),
        attached == anchor_event(*old(e)),
        event_wf(*old(e)) ==> event_wf(*final(e)),
        (*old(e) is LineBreak) == (*final(e) is LineBreak),
{
    match e {
        Event::Note(x) => {
            add_staff_marker_note(x, marker);
            true
        },
        Event::Rest(x) => {
            add_staff_marker_rest(x, marker);
            true
        },
        Event::Chord(x) => {
            add_staff_marker_chord(x, marker);
            true
        },
        _ => false,
    }
}

impl<'a> Parser<'a> {
    /// Applies an element-local `color{...}` to what was written last.
    fn apply_color_to_last_target(&mut self, color: &str)
        requires
            old(self).inv(),
        ensures
            final(self).inv(),
            final(self).same_frame(old(self)),
            final(self).color_spans == old(self).color_spans,
            *final(self) == (Parser { events: final(self).events, ..*old(self) }),
            old(self).last_color_target is None || old(self).events@.len() == 0 ==> final(self).events
                == old(self).events,
            old(self).last_color_target is Some && old(self).events@.len() > 0 ==> {
                &&& final(self).events@.drop_last() == old(self).events@.drop_last()
                &&& last_target_colored(
                    old(self).events@.last(),
                    final(self).events@.last(),
                    old(self).last_color_target->0,
                    color@,
                )
            },
    {
        let target = match self.last_color_target {
            Some(t) => t,
            None => {
                return;
            },
        };
        let n = self.events.len();
        if n == 0 {
            return;
        }
        let ghost before = self.events@;
        color_last_event(&mut self.events[n - 1], target, color);
        proof {
            lemma_last_target_keeps_wf(before[n - 1], self.events@[n - 1], target, color@);
            assert(self.events@.drop_last() =~= before.drop_last());
            assert forall|k: int| 0 <= k < n implies event_wf(#[trigger] self.events@[k]) by {
                if k != n - 1 {
                    assert(self.events@[k] == before[k]);
                }
            }
        }
    }

    /// Colours everything written from `start` on that has no colour yet
    /// (staff lines and barlines excepted).
    fn apply_selection_color(&mut self, color: &str, start: usize)
        requires
            old(self).inv(),
        ensures
            final(self).inv(),
            final(self).same_frame(old(self)),
            final(self).color_spans == old(self).color_spans,
            *final(self) == (Parser { events: final(self).events, ..*old(self) }),
            forall|k: int|
                0 <= k < old(self).events@.len() ==> if start <= k {
                    selection_colored(old(self).events@[k], #[trigger] final(self).events@[k], color@)
                } else {
                    final(self).events@[k] == old(self).events@[k]
                },
    {
        let end = self.events.len();
        let mut i = start;
        while i < end
            invariant
                self.inv(),
                self.same_frame(old(self)),
                self.color_spans == old(self).color_spans,
                *self == (Parser { events: self.events, ..*old(self) }),
                self.events@.len() == end,
                start <= i,
                forall|k: int|
                    0 <= k < end ==> if start <= k < i {
                        selection_colored(old(self).events@[k], #[trigger] self.events@[k], color@)
                    } else {
                        self.events@[k] == old(self).events@[k]
                    },
            decreases end - i,
        {
            let ghost before = self.events@;
            select_event_colors(&mut self.events[i], color);
            proof {
                assert forall|k: int| 0 <= k < end implies if start <= k < i + 1 {
                    selection_colored(old(self).events@[k], #[trigger] self.events@[k], color@)
                } else {
                    self.events@[k] == old(self).events@[k]
                } by {
                    if k != i {
                        assert(self.events@[k] == before[k]);
                    } else {
                        assert(before[k] == old(self).events@[k]);
                    }
                }
                lemma_selection_keeps_wf(before[i as int], self.events@[i as int], color@);
                assert forall|k: int| 0 <= k < end implies event_wf(#[trigger] self.events@[k]) by {
                    if k != i {
                        assert(self.events@[k] == before[k]);
                    }
                }
            }
            i = i + 1;
        }
    }

    /// Ends the innermost colour span, colouring what it enclosed.
    fn close_color_span(&mut self)
        requires
            old(self).inv(),
        ensures
            final(self).inv(),
            final(self).same_frame(old(self)),
            final(self).color_spans@.len() == if old(self).color_spans@.len() > 0 {
                old(self).color_spans@.len() - 1
            } else {
                0
            },
            old(self).color_spans@.len() == 0 ==> final(self).events == old(self).events,
            *final(self) == (Parser {
                events: final(self).events,
                color_spans: final(self).color_spans,
                ..*old(self)
            }),
            old(self).color_spans@.len() > 0 ==> final(self).color_spans@ == old(self).color_spans@.drop_last()
                && span_colored(old(self).color_spans@.last(), old(self).events@, final(self).events@),
            old(self).color_spans@.len() > 0 ==> forall|k: int|
                0 <= k < old(self).events@.len() ==> if old(self).color_spans@.last().start_idx <= k {
                    selection_colored(
                        old(self).events@[k],
                        #[trigger] final(self).events@[k],
                        old(self).color_spans@.last().color@,
                    )
                } else {
                    final(self).events@[k] == old(self).events@[k]
                },
    {
        if let Some(span) = self.color_spans.pop() {
            self.apply_selection_color(span.color.as_str(), span.start_idx);
        }
    }

    /// `fin` is what this parser's events become once its open hairpin,
    /// trill line, ending and colour spans are closed, in that order.
    pub open spec fn closes_to(&self, fin: Seq<Event>) -> bool {
        exists|e1: Seq<Event>, e2: Seq<Event>, e3: Seq<Event>|
            #![trigger trill_closed(self.trill_start_idx, e1, e2), ending_closed(self.ending_start_idx, self.ending_label, e2, e3)]
            {
                &&& hairpin_closed(self.hairpin_start_idx, self.hairpin_kind, self.events@, e1)
                &&& trill_closed(self.trill_start_idx, e1, e2)
                &&& ending_closed(self.ending_start_idx, self.ending_label, e2, e3)
                &&& colors_closed(self.color_spans@, e3, fin)
            }
    }

    /// Closes the hairpin, trill line and ending left open, then the colour
    /// spans from the innermost out.
    fn close_open_spans(&mut self)
        requires
            old(self).inv(),
        ensures
            final(self).inv(),
            final(self).same_frame(old(self)),
            final(self).spans_idle(),
            old(self).closes_to(final(self).events@),
    {
        let ghost ev0 = self.events@;
        self.close_hairpin();
        let ghost e1 = self.events@;
        self.close_trill();
        let ghost e2 = self.events@;
        self.close_ending();
        let ghost e3 = self.events@;
        let ghost spans0 = self.color_spans@;
        assert(spans0 == old(self).color_spans@);
        while self.color_spans.len() > 0
            invariant
                self.inv(),
                self.same_frame(old(self)),
                self.hairpin_start_idx is None,
                self.trill_start_idx is None,
                self.ending_start_idx is None,
                forall|fin: Seq<Event>|
                    colors_closed(self.color_spans@, self.events@, fin) ==> #[trigger] colors_closed(
                        spans0,
                        e3,
                        fin,
                    ),
            decreases self.color_spans@.len(),
        {
            let ghost s0 = self.color_spans@;
            let ghost v0 = self.events@;
            self.close_color_span();
            proof {
                assert forall|fin: Seq<Event>|
                    colors_closed(self.color_spans@, self.events@, fin) implies #[trigger] colors_closed(
                        spans0,
                        e3,
                        fin,
                    ) by {
                    assert(span_colored(s0.last(), v0, self.events@));
                    assert(colors_closed(s0, v0, fin));
                }
            }
        }
        proof {
            assert(colors_closed(self.color_spans@, self.events@, self.events@));
            assert(colors_closed(spans0, e3, self.events@));
            assert(trill_closed(old(self).trill_start_idx, e1, e2));
            assert(ending_closed(old(self).ending_start_idx, old(self).ending_label, e2, e3));
        }
    }
}

} // verus!

verus! {

/// The one-character name of a note.
fn letter_string(ch: u8) -> (s: String)
    ensures
        s@ == seq![ch as char],
{
    let mut s = String::new();
    push_char(&mut s, ch as char);
    s
}

/// Whether `b[p..end]` is exactly `word`.
fn token_is(b: &[u8], p: usize, end: usize, word: &[u8]) -> (r: bool)
    requires
        p <= end <= b@.len(),
    ensures
        r == (b@.subrange(p as int, end as int) == word@),
{
    if end - p != word.len() {
        return false;
    }
    let r = matches_at(b, p, word);
    proof {
        assert(p + word@.len() == end);
    }
    r
}

/// The end of the run of spaces, tabs and carriage returns from `p`.
pub open spec fn blank_run_end(b: Seq<u8>, p: int) -> int
    decreases b.len() - p,
{
    if 0 <= p < b.len() && crate::text::spec_is_whitespace_char(b[p]) {
        blank_run_end(b, p + 1)
    } else {
        p
    }
}

/// The end of the run of white space and newlines from `p`.
pub open spec fn newline_run_end(b: Seq<u8>, p: int) -> int
    decreases b.len() - p,
{
    if 0 <= p < b.len() && (b[p] == 32 || b[p] == 9 || b[p] == 13 || b[p] == 10) {
        newline_run_end(b, p + 1)
    } else {
        p
    }
}

/// Whether `run` blanks after `events`, followed by `next`, mark a gap: two
/// or more of them, after a note-like event (not a barline or line break),
/// and before more music on the same line (not a newline, a barline or the
/// end).
pub open spec fn blank_run_gap(events: Seq<Event>, run: int, next: Option<u8>) -> bool {
    &&& run > 1
    &&& events.len() > 0
    &&& !(events.last() is Barline)
    &&& !(events.last() is LineBreak)
    &&& next is Some
    &&& next != Some(10u8)
    &&& next != Some(124u8)
}

/// A gap of `amount` extra spacing units.
pub open spec fn gap_event(amount: int) -> Event {
    Event::Gap(Gap { amount: amount as i32, ending: None, ending_start: false, ending_end: false })
}

/// A freshly made barline of the given style.
pub open spec fn is_new_barline(e: Event, style: Seq<char>) -> bool {
    e matches Event::Barline(b) && b.style@ == style && b.ending is None && !b.ending_start && !b.ending_end
        && b.color is None
}

/// The barline that starts with `|` at `p`, and how many bytes it takes.
pub open spec fn pipe_barline(b: Seq<u8>, p: int) -> (Seq<char>, int) {
    let next = crate::lexer::spec_peek(b, p + 1);
    if next == Some(124u8) {
        if crate::lexer::spec_peek(b, p + 2) == Some(58u8) {
            ("repeat-start"@, 3)
        } else {
            ("double"@, 2)
        }
    } else if next == Some(58u8) {
        ("repeat-start"@, 2)
    } else if next == Some(46u8) {
        ("final"@, 2)
    } else {
        ("single"@, 1)
    }
}

/// The barline that starts with `:` at `p`, and how many bytes it takes; a
/// `:` without a following `|` is none.
pub open spec fn colon_barline(b: Seq<u8>, p: int) -> Option<(Seq<char>, int)> {
    let peek = |k: int| crate::lexer::spec_peek(b, p + k);
    if peek(1) == Some(124u8) {
        if peek(2) == Some(124u8) && peek(3) == Some(58u8) {
            Some(("repeat-both"@, 4))
        } else if peek(2) == Some(58u8) {
            Some(("repeat-both"@, 3))
        } else if peek(2) == Some(124u8) {
            Some(("repeat-end"@, 3))
        } else {
            Some(("repeat-end"@, 2))
        }
    } else {
        None
    }
}

/// The head of a note whose letter stands at `p`: its accidental, octave,
/// duration (the sticky one when none is written), dots, and where the head
/// ends.
pub open spec fn note_head(b: Seq<u8>, p: int, base_octave: int, sticky: int) -> (Option<Seq<char>>, int, int, int, int) {
    let (accidental, p2) = crate::note_colors::spec_accidental_at(b, p + 1);
    let (octave, p3) = crate::lexer::spec_octave_markers(b, p2, base_octave);
    let (duration, dots, p4) = crate::lexer::spec_duration_dots(b, p3, sticky);
    (accidental, octave, duration, dots, p4)
}

/// A note event with the given letter and head.
pub open spec fn is_note_with_head(e: Event, letter: u8, head: (Option<Seq<char>>, int, int, int, int)) -> bool {
    e matches Event::Note(n) && n.name@ == seq![letter as char] && opt_view(n.accidental) == head.0
        && n.octave == head.1 && n.duration == head.2 && n.dots == head.3
}

/// What may follow a plain token's head: a digit, a dot, a space, a
/// newline, the start of a mark that is no word byte (`~` `>` `*` `_` `(`
/// `)` `[` `]` `/`), or nothing.
pub open spec fn plain_follower(b: Seq<u8>, p: int) -> bool {
    ||| p >= b.len()
    ||| crate::text::spec_is_digit(b[p])
    ||| b[p] == 46 || b[p] == 32 || b[p] == 10
    ||| b[p] == 126 || b[p] == 62 || b[p] == 42 || b[p] == 95
    ||| b[p] == 40 || b[p] == 41 || b[p] == 91 || b[p] == 93 || b[p] == 47
}

/// A duration may start at `x`: digits, dots, a separator or the end
/// follow, or a duration name followed by something that cannot continue a
/// word.
pub open spec fn duration_start_ok(b: Seq<u8>, x: int) -> bool {
    ||| plain_follower(b, x)
    ||| (duration_name_len(b, x) > 0 && (x + duration_name_len(b, x) >= b.len()
        || !crate::text::spec_is_word_char(b[x + duration_name_len(b, x)])))
}

/// Where the head of a plain token at `p` ends and its duration starts:
/// after a note's accidental and octave marks, after a chord's `>`, or
/// right after the first byte.
pub open spec fn plain_head_end(b: Seq<u8>, p: int, base: int) -> int {
    if 97 <= b[p] <= 103 {
        head_marks_end(b, p)
    } else if b[p] == 60 {
        chord_close(b, p + 1, base) + 1
    } else {
        p + 1
    }
}

/// Where the accidental and octave marks after a note letter at `p` end.
pub open spec fn head_marks_end(b: Seq<u8>, p: int) -> int {
    crate::lexer::spec_octave_markers(b, crate::note_colors::spec_accidental_at(b, p + 1).1, 0).1
}

/// The bytes a voice of a voice group is read from: `b[from..to]` read as
/// UTF-8 and trimmed of white space.
pub open spec fn voice_text(b: Seq<u8>, from: int, to: int) -> Seq<u8> {
    vstd::utf8::encode_utf8(crate::text::trim_ws(vstd::utf8::decode_utf8(b.subrange(from, to))))
}

/// A voice group `v{upper;lower}` at `p` (white space may stand between
/// `v` and `{`): where its `{`, `;` and `}` are.
pub open spec fn voice_group_at(b: Seq<u8>, p: int) -> Option<(int, int, int)> {
    if 0 <= p < b.len() && b[p] == 118 && word_end(b, p) == p + 1 {
        let g = blank_run_end(b, p + 1);
        match crate::lexer::spec_voice_group(b, g) {
            Some((s, c)) => Some((g, s, c)),
            None => None,
        }
    } else {
        None
    }
}

/// The end of the run of word bytes (lower-case letters, digits and `-`)
/// from `p`.
pub open spec fn word_end(b: Seq<u8>, p: int) -> int
    decreases b.len() - p,
{
    if 0 <= p < b.len() && crate::text::spec_is_word_char(b[p]) {
        word_end(b, p + 1)
    } else {
        p
    }
}

/// The word that starts at `p`.
pub open spec fn word_at(b: Seq<u8>, p: int) -> Seq<u8> {
    b.subrange(p, word_end(b, p))
}

/// The word at `p` is a time-signature word (`common`, `cut`) or a clef
/// name (see `spec_is_supported_clef`).
pub open spec fn melody_word(b: Seq<u8>, p: int) -> bool {
    &&& 0 <= p < b.len()
    &&& {
        ||| word_at(b, p) == ascii("common"@)
        ||| word_at(b, p) == ascii("cut"@)
        ||| crate::pitch::spec_is_supported_clef(crate::text::latin1(word_at(b, p)))
    }
}

/// What may follow a time signature written with digits or `C`: the end,
/// white space, a barline or a newline.
pub open spec fn time_follower(b: Seq<u8>, e: int) -> bool {
    let n = crate::lexer::spec_peek(b, e);
    n is None || n == Some(32u8) || n == Some(9u8) || n == Some(124u8) || n == Some(10u8) || n == Some(13u8)
}

/// Where the lower number of a time signature `upper/lower` at `p` ends.
pub open spec fn digit_time_end(b: Seq<u8>, p: int) -> int {
    let n = crate::lexer::spec_digit_run(b, p);
    p + n + 1 + crate::lexer::spec_digit_run(b, p + n + 1)
}

/// A time signature `upper/lower` starts at `p`: digits, `/`, digits, then
/// a `time_follower`.
pub open spec fn digit_time_at(b: Seq<u8>, p: int) -> bool {
    let n = crate::lexer::spec_digit_run(b, p);
    &&& 0 <= p
    &&& n > 0
    &&& p + n < b.len()
    &&& b[p + n] == 47
    &&& crate::lexer::spec_digit_run(b, p + n + 1) > 0
    &&& time_follower(b, digit_time_end(b, p))
}

/// The number written with the digits `b[s..e]`, or 0 where it does not
/// fit in an `i32`.
pub open spec fn digits_or_zero(b: Seq<u8>, s: int, e: int) -> int {
    match crate::lexer::spec_digits_i32(b, s, e) {
        Some(v) => v,
        None => 0,
    }
}

/// Where the time signature `C` (common) or `C|` (cut) at `p` ends.
pub open spec fn upper_time_end(b: Seq<u8>, p: int) -> int {
    if crate::lexer::spec_peek(b, p + 1) == Some(124u8) {
        p + 2
    } else {
        p + 1
    }
}

/// A time signature `C` or `C|` starts at `p`, followed by a
/// `time_follower`.
pub open spec fn upper_time_at(b: Seq<u8>, p: int) -> bool {
    &&& 0 <= p < b.len()
    &&& b[p] == 67
    &&& time_follower(b, upper_time_end(b, p))
}

/// One plain token as read: its first byte, accidental, octave, duration,
/// dots, chord heads and where its marks start (no accidental, octave 0
/// and no heads but for notes and chords, and no duration for a barline;
/// marks follow notes, rests and chords, see `carries_marks`). A time signature reads as
/// `T` with its symbol, upper and lower numbers; a clef name as `K` with the
/// name and the octave that unmarked notes take after it.
pub open spec fn melody_item(b: Seq<u8>, p: int, sticky: int, base: int) -> (u8, Option<Seq<char>>, int, int, int, Seq<(u8, Option<Seq<char>>, int)>, int) {
    let c = b[p];
    let h = note_head(b, p, base, sticky);
    let dd = crate::lexer::spec_duration_dots(b, p + 1, sticky);
    let cd = crate::lexer::spec_duration_dots(b, chord_close(b, p + 1, base) + 1, sticky);
    let w = word_at(b, p);
    if voice_group_at(b, p) is Some {
        (118u8, None, base, sticky, 0, Seq::empty(), p)
    } else if melody_word(b, p) {
        match spec_time_token(w) {
            Some(t) => (84u8, t.2, t.0, t.1, 0, Seq::empty(), 0),
            None => (
                75u8,
                Some(crate::text::latin1(w)),
                crate::pitch::spec_clef_default_base_octave(crate::text::latin1(w)),
                0,
                0,
                Seq::empty(),
                0,
            ),
        }
    } else if digit_time_at(b, p) {
        let n = crate::lexer::spec_digit_run(b, p);
        (
            84u8,
            None,
            digits_or_zero(b, p, p + n),
            digits_or_zero(b, p + n + 1, digit_time_end(b, p)),
            0,
            Seq::empty(),
            0,
        )
    } else if upper_time_at(b, p) {
        if upper_time_end(b, p) == p + 2 {
            (84u8, Some("cut"@), 2, 2, 0, Seq::empty(), 0)
        } else {
            (84u8, Some("common"@), 4, 4, 0, Seq::empty(), 0)
        }
    } else if c == 124 {
        (124u8, Some(pipe_barline(b, p).0), 0, 0, 0, Seq::empty(), 0)
    } else if c == 58 {
        match colon_barline(b, p) {
            Some(bar) => (124u8, Some(bar.0), 0, 0, 0, Seq::empty(), 0),
            None => (124u8, None, 0, 0, 0, Seq::empty(), 0),
        }
    } else if 97 <= c <= 103 {
        (c, h.0, h.1, h.2, h.3, Seq::empty(), h.4)
    } else if c == 60 {
        (c, None, 0, cd.0, cd.1, chord_heads(b, p + 1, base), cd.2)
    } else {
        (c, None, 0, dd.0, dd.1, Seq::empty(), dd.2)
    }
}

/// Where a plain token at `p` ends.
pub open spec fn melody_item_end(b: Seq<u8>, p: int, sticky: int, base: int) -> int {
    let c = b[p];
    if voice_group_at(b, p) is Some {
        (voice_group_at(b, p)->0).2 + 1
    } else if melody_word(b, p) {
        word_end(b, p)
    } else if digit_time_at(b, p) {
        digit_time_end(b, p)
    } else if upper_time_at(b, p) {
        upper_time_end(b, p)
    } else if c == 124 {
        p + pipe_barline(b, p).1
    } else if c == 58 {
        match colon_barline(b, p) {
            Some(bar) => p + bar.1,
            None => p,
        }
    } else if 97 <= c <= 103 {
        attachments_end(b, note_head(b, p, base, sticky).4)
    } else if c == 60 {
        attachments_end(b, crate::lexer::spec_duration_dots(b, chord_close(b, p + 1, base) + 1, sticky).2)
    } else if c == 114 {
        attachments_end(b, crate::lexer::spec_duration_dots(b, p + 1, sticky).2)
    } else {
        crate::lexer::spec_duration_dots(b, p + 1, sticky).2
    }
}

/// The duration in force after a plain token.
pub open spec fn melody_item_sticky(b: Seq<u8>, p: int, sticky: int, base: int) -> int {
    if voice_group_at(b, p) is Some || melody_word(b, p) || digit_time_at(b, p) || upper_time_at(b, p)
        || b[p] == 124 || b[p] == 58 {
        sticky
    } else {
        melody_item(b, p, sticky, base).3
    }
}

/// The octave unmarked notes take after a plain token: a clef name's, or
/// the one before it.
pub open spec fn melody_item_base(b: Seq<u8>, p: int, sticky: int, base: int) -> int {
    if melody_word(b, p) && melody_item(b, p, sticky, base).0 == 75 {
        melody_item(b, p, sticky, base).2
    } else {
        base
    }
}

/// A gap of `amount` units, as a melody item.
pub open spec fn gap_item(amount: int) -> (u8, Option<Seq<char>>, int, int, int, Seq<(u8, Option<Seq<char>>, int)>, int) {
    (32u8, None, 0, amount, 0, Seq::empty(), 0)
}

/// A line break, as a melody item.
pub open spec fn line_break_item() -> (u8, Option<Seq<char>>, int, int, int, Seq<(u8, Option<Seq<char>>, int)>, int) {
    (10u8, None, 0, 0, 0, Seq::empty(), 0)
}

/// A plain melody from `p` on: notes `a`-`g` with an optional accidental
/// (`#` `##` `&` `&&` `=`) and octave marks (`'` then `,`), chords `<...>`
/// of such note heads separated by spaces, rests `r` and spacers `s`, each
/// with an optional duration (digits, or `maxima`, `breve`, `longa`) and
/// dots, notes, rests and chords followed by their marks (ties,
/// articulations, dynamics, trills, staff markers, slurs, beams; see
/// `marks_read`) and text attachments (lyrics, staff and expression texts,
/// fingerings, chord symbols; see `text_tail`), voice groups
/// `v{upper;lower}` (see `melody_event`), barlines (`|`, `||`, `|.`, `|:`, `||:`, `:|`, `:||`, `:|:`,
/// `:||:`), time signatures (`upper/lower`, `C`, `C|`,
/// `common`, `cut`) and clef names, separated by spaces or newlines (see
/// `melody_after`).
/// Gives each token as `melody_item` reads it; a note, rest or spacer
/// without a written duration takes the one before it, `sticky` at the
/// start, and notes are read relative to `base` until a clef name sets
/// another (see `melody_item_base`).
pub open spec fn melody_from(b: Seq<u8>, p: int, sticky: int, base: int) -> Option<Seq<(u8, Option<Seq<char>>, int, int, int, Seq<(u8, Option<Seq<char>>, int)>, int)>>
    decreases b.len() - p, 1int,
{
    if 0 <= p < b.len() && plain_token_start(b[p]) && crate::lexer::spec_staff_marker(b, p).0 is None
        && (voice_group_at(b, p) is Some || melody_word(b, p) || digit_time_at(b, p) || upper_time_at(b, p)
        || b[p] == 124 || (b[p] == 58 && colon_barline(b, p) is Some) || (b[p] != 116 && b[p] != 112
        && b[p] != 118 && !crate::text::spec_is_digit(b[p])
        && b[p] != 67 && b[p] != 124 && b[p] != 58 && (b[p] == 60 ==> chord_body(b, p + 1, base) is Some
        && chord_heads(b, p + 1, base).len() > 0) && duration_start_ok(b, plain_head_end(b, p, base)))) && p
        < melody_item_end(b, p, sticky, base) <= b.len() {
        match melody_after(
            b,
            melody_item_end(b, p, sticky, base),
            melody_item_sticky(b, p, sticky, base),
            melody_item_base(b, p, sticky, base),
            b[p] == 124 || b[p] == 58,
        ) {
            Some(rest) => Some(seq![melody_item(b, p, sticky, base)] + rest),
            None => None,
        }
    } else {
        None
    }
}

/// What follows a plain token ending at `q` (`bar` when it was a
/// barline): the end; a run of spaces and the next token, two or more
/// spaces after a note, rest or spacer and before anything but a barline
/// giving a gap of one unit per extra space; a newline, any white space
/// and newlines, and the next token, giving a line break; or a newline and
/// white space and newlines up to the end, giving nothing.
pub open spec fn melody_after(b: Seq<u8>, q: int, sticky: int, base: int, bar: bool) -> Option<Seq<(u8, Option<Seq<char>>, int, int, int, Seq<(u8, Option<Seq<char>>, int)>, int)>>
    decreases b.len() - q, 0int,
{
    if q == b.len() {
        Some(Seq::empty())
    } else if 0 <= q < b.len() && b[q] == 32 {
        let k = crate::lexer::spec_run_of(b, q, 32);
        let r = q + k;
        if q < r < b.len() && plain_token_start(b[r]) {
            match melody_from(b, r, sticky, base) {
                Some(rest) => Some(
                    if k > 1 && !bar && b[r] != 124 {
                        seq![gap_item(k - 1)] + rest
                    } else {
                        rest
                    },
                ),
                None => None,
            }
        } else {
            None
        }
    } else if 0 <= q < b.len() && b[q] == 10 {
        let r = newline_run_end(b, q + 1);
        if r == b.len() {
            Some(Seq::empty())
        } else if q < r < b.len() && plain_token_start(b[r]) {
            match melody_from(b, r, sticky, base) {
                Some(rest) => Some(seq![line_break_item()] + rest),
                None => None,
            }
        } else {
            None
        }
    } else {
        None
    }
}

/// The melody still to be read at `pos`, which is at a token or at the
/// separator after one (`bar` when that was a barline).
pub open spec fn melody_rest(b: Seq<u8>, pos: int, sticky: int, base: int, bar: bool) -> Option<Seq<(u8, Option<Seq<char>>, int, int, int, Seq<(u8, Option<Seq<char>>, int)>, int)>> {
    if pos < b.len() && plain_token_start(b[pos]) {
        melody_from(b, pos, sticky, base)
    } else {
        melody_after(b, pos, sticky, base, bar)
    }
}

/// A note, rest, chord or spacer as it is written, before any span or
/// colour reaches it: no hairpin, trill line, grace, ending, tuplet or
/// octave line, and no colour.
pub open spec fn unspanned(e: Event) -> bool {
    match e {
        Event::Note(n) => {
            &&& n.hairpin is None && !n.hairpin_start && !n.hairpin_end
            &&& !n.trill_line && !n.trill_start && !n.trill_end
            &&& !n.grace && !n.grace_slash
            &&& n.ending is None && !n.ending_start && !n.ending_end
            &&& n.tuplet_beats == 0 && n.tuplet_number == 0 && n.tuplet_count == 0
            &&& !n.tuplet_start && !n.tuplet_end
            &&& n.octave_line_number == 0 && n.octave_line_direction is None
            &&& !n.octave_line_start && !n.octave_line_end
            &&& crate::types::colors_are_default(n.colors)
        },
        Event::Rest(r) => {
            &&& r.hairpin is None && !r.hairpin_start && !r.hairpin_end
            &&& !r.trill && !r.trill_line && !r.trill_start && !r.trill_end
            &&& !r.grace && !r.grace_slash
            &&& r.ending is None && !r.ending_start && !r.ending_end
            &&& r.tuplet_beats == 0 && r.tuplet_number == 0 && r.tuplet_count == 0
            &&& !r.tuplet_start && !r.tuplet_end
            &&& r.octave_line_number == 0 && r.octave_line_direction is None
            &&& !r.octave_line_start && !r.octave_line_end
            &&& crate::types::colors_are_default(r.colors)
        },
        Event::Chord(c) => {
            &&& c.hairpin is None && !c.hairpin_start && !c.hairpin_end
            &&& !c.trill_line && !c.trill_start && !c.trill_end
            &&& !c.grace && !c.grace_slash
            &&& c.ending is None && !c.ending_start && !c.ending_end
            &&& c.tuplet_beats == 0 && c.tuplet_number == 0 && c.tuplet_count == 0
            &&& !c.tuplet_start && !c.tuplet_end
            &&& c.octave_line_number == 0 && c.octave_line_direction is None
            &&& !c.octave_line_start && !c.octave_line_end
            &&& crate::types::colors_are_default(c.colors)
        },
        Event::Spacer(sp) => sp.ending is None && !sp.ending_start && !sp.ending_end && sp.color is None,
        _ => true,
    }
}

/// A note, rest or chord carries the marks read at `x` (see `marks_read`)
/// and the text attachments after them (see `text_tail`); a rest keeps
/// only its dynamic, staff markers, lyrics, texts and chord symbol.
pub open spec fn carries_marks(e: Event, b: Seq<u8>, x: int) -> bool {
    match e {
        Event::Note(n) => {
            &&& n.tie == (marks_tie1(b, x) || marks_tie2(b, x))
            &&& string_views(n.articulations@) == marks_articulations(b, x)
            &&& opt_view(n.dynamic) == marks_dynamic(b, x)
            &&& n.trill == marks_trill(b, x)
            &&& string_views(n.staff_markers@) == marks_markers(b, x)
            &&& n.slur_start == marks_slur_start(b, x)
            &&& n.slur_end == marks_slur_end(b, x)
            &&& n.beam_start == marks_beam_start(b, x)
            &&& n.beam_end == marks_beam_end(b, x)
            &&& n.lyrics@.map_values(|e: LyricEntry| lyric_view(e)) == text_read(b, x).0
            &&& opt_view(n.staff_text) == text_read(b, x).1
            &&& opt_view(n.expression_text) == text_read(b, x).2
            &&& crate::lexer::fingering_matches(n.fingering, text_read(b, x).3)
            &&& n.fingering_position@ == if text_read(b, x).4 {
                "below"@
            } else {
                "above"@
            }
            &&& opt_view(n.chord_symbol) == text_read(b, x).5
        },
        Event::Chord(c) => {
            &&& c.tie == (marks_tie1(b, x) || marks_tie2(b, x))
            &&& string_views(c.articulations@) == marks_articulations(b, x)
            &&& opt_view(c.dynamic) == marks_dynamic(b, x)
            &&& c.trill == marks_trill(b, x)
            &&& string_views(c.staff_markers@) == marks_markers(b, x)
            &&& c.slur_start == marks_slur_start(b, x)
            &&& c.slur_end == marks_slur_end(b, x)
            &&& c.beam_start == marks_beam_start(b, x)
            &&& c.beam_end == marks_beam_end(b, x)
            &&& c.lyrics@.map_values(|e: LyricEntry| lyric_view(e)) == text_read(b, x).0
            &&& opt_view(c.staff_text) == text_read(b, x).1
            &&& opt_view(c.expression_text) == text_read(b, x).2
            &&& crate::lexer::fingering_matches(c.fingering, text_read(b, x).3)
            &&& c.fingering_position@ == if text_read(b, x).4 {
                "below"@
            } else {
                "above"@
            }
            &&& opt_view(c.chord_symbol) == text_read(b, x).5
        },
        Event::Rest(r) => {
            &&& opt_view(r.dynamic) == marks_dynamic(b, x)
            &&& string_views(r.staff_markers@) == marks_markers(b, x)
            &&& r.lyrics@.map_values(|e: LyricEntry| lyric_view(e)) == text_read(b, x).0
            &&& opt_view(r.staff_text) == text_read(b, x).1
            &&& opt_view(r.expression_text) == text_read(b, x).2
            &&& opt_view(r.chord_symbol) == text_read(b, x).5
        },
        _ => true,
    }
}

/// The event a plain melody item gives: a barline, a rest, a spacer, a
/// chord with its notes, a gap, a line break, a time signature, a clef
/// change, a voice group whose voices, where they are plain melodies
/// themselves, are read as such (with the duration and octave in force),
/// or a note with its accidental and octave.
pub open spec fn melody_event(b: Seq<u8>, e: Event, item: (u8, Option<Seq<char>>, int, int, int, Seq<(u8, Option<Seq<char>>, int)>, int)) -> bool
    decreases b.len(), 0int,
{
    if item.0 == 118 {
        e matches Event::VoiceGroup(g) && match voice_group_at(b, item.6) {
            Some((gp, s, c)) => {
                let up = voice_text(b, gp + 1, s);
                let lo = voice_text(b, s + 1, c);
                if up.len() < b.len() && lo.len() < b.len() {
                    &&& (melody_input(up, item.3, item.2) is Some ==> melody_parsed(
                        up,
                        g.upper@,
                        melody_input(up, item.3, item.2)->0,
                    ))
                    &&& (melody_input(lo, item.3, item.2) is Some ==> melody_parsed(
                        lo,
                        g.lower@,
                        melody_input(lo, item.3, item.2)->0,
                    ))
                } else {
                    false
                }
            },
            None => false,
        }
    } else if item.0 == 84 {
        e matches Event::TimeSig(ts) && time_sig_is(ts, (item.2, item.3, item.1))
    } else if item.0 == 75 {
        e matches Event::Clef(c) && item.1 == Some(c.clef@) && c.ending is None && !c.ending_start
            && !c.ending_end && c.color is None
    } else if item.0 == 124 {
        item.1 matches Some(style) && is_new_barline(e, style)
    } else if item.0 == 114 {
        e matches Event::Rest(r) && r.duration == item.3 && r.dots == item.4 && carries_marks(e, b, item.6)
            && unspanned(e)
    } else if item.0 == 115 {
        e matches Event::Spacer(sp) && sp.duration == item.3 && sp.dots == item.4 && unspanned(e)
    } else if item.0 == 60 {
        e matches Event::Chord(c) && c.duration == item.3 && c.dots == item.4 && c.notes@.len() == item.5.len()
            && (forall|k: int| 0 <= k < item.5.len() ==> chord_note_is(#[trigger] c.notes@[k], item.5[k]))
            && carries_marks(e, b, item.6) && unspanned(e)
    } else if item.0 == 32 {
        e == gap_event(item.3)
    } else if item.0 == 10 {
        e is LineBreak
    } else {
        e matches Event::Note(n) && n.name@ == seq![item.0 as char] && opt_view(n.accidental) == item.1
            && n.octave == item.2 && n.duration == item.3 && n.dots == item.4 && carries_marks(e, b, item.6)
            && unspanned(e)
    }
}

proof fn lemma_blank_run(b: Seq<u8>, q: int)
    requires
        0 <= q <= b.len(),
        q + crate::lexer::spec_run_of(b, q, 32) < b.len() ==> !crate::text::spec_is_whitespace_char(
            b[q + crate::lexer::spec_run_of(b, q, 32)],
        ),
    ensures
        blank_run_end(b, q) == q + crate::lexer::spec_run_of(b, q, 32),
    decreases b.len() - q,
{
    if q < b.len() && b[q] == 32 {
        lemma_blank_run(b, q + 1);
    }
}

/// Where the word at `p` ends, and that it is made of word bytes.
proof fn lemma_word_end(b: Seq<u8>, p: int)
    requires
        0 <= p <= b.len(),
    ensures
        p <= word_end(b, p) <= b.len(),
        forall|k: int| p <= k < word_end(b, p) ==> crate::text::spec_is_word_char(#[trigger] b[k]),
        word_end(b, p) < b.len() ==> !crate::text::spec_is_word_char(b[word_end(b, p)]),
    decreases b.len() - p,
{
    if p < b.len() && crate::text::spec_is_word_char(b[p]) {
        lemma_word_end(b, p + 1);
    }
}

/// A run of word bytes from `p` to `e` that cannot go on is the word at `p`.
proof fn lemma_word_end_is(b: Seq<u8>, p: int, e: int)
    requires
        0 <= p <= e <= b.len(),
        forall|k: int| p <= k < e ==> crate::text::spec_is_word_char(#[trigger] b[k]),
        e == b.len() || !crate::text::spec_is_word_char(b[e]),
    ensures
        word_end(b, p) == e,
    decreases e - p,
{
    if p < e {
        lemma_word_end_is(b, p + 1, e);
    }
}

/// What a time-signature word or clef name at `p` looks like: it starts
/// with `a`, `b`, `c`, `p` or `t` (`te` only in `tenor`), its length tells
/// it from the structural keywords, and it reads as a time signature
/// exactly when it is `common` or `cut`.
#[verifier::rlimit(40)]
proof fn lemma_melody_word(b: Seq<u8>, p: int)
    requires
        melody_word(b, p),
    ensures
        p < word_end(b, p) <= b.len(),
        word_at(b, p).len() >= 3,
        forall|k: int| p <= k < word_end(b, p) ==> crate::text::spec_is_word_char(#[trigger] b[k]),
        word_end(b, p) < b.len() ==> !crate::text::spec_is_word_char(b[word_end(b, p)]),
        b[p] == 97 || b[p] == 98 || b[p] == 99 || b[p] == 112 || b[p] == 116,
        b[p] == 116 && b[p + 1] == 101 ==> b[p + 2] == 110,
        word_at(b, p).len() == 3 ==> b[p] == 99,
        word_at(b, p).len() == 5 ==> b[p] == 116,
        word_at(b, p).len() == 7 ==> b[p] == 98,
        (spec_time_token(word_at(b, p)) is Some) == (word_at(b, p) == ascii("common"@) || word_at(b, p)
            == ascii("cut"@)),
        spec_time_token(word_at(b, p)) is None ==> crate::pitch::spec_is_supported_clef(
            crate::text::latin1(word_at(b, p)),
        ),
{
    reveal_strlit("common");
    reveal_strlit("cut");
    reveal_strlit("treble");
    reveal_strlit("bass");
    reveal_strlit("alto");
    reveal_strlit("tenor");
    reveal_strlit("treble-8a");
    reveal_strlit("treble-8b");
    reveal_strlit("treble-15a");
    reveal_strlit("treble-15b");
    reveal_strlit("bass-8a");
    reveal_strlit("bass-8b");
    reveal_strlit("bass-15a");
    reveal_strlit("bass-15b");
    reveal_strlit("percussion");
    lemma_word_end(b, p);
    let w = word_at(b, p);
    let cw = crate::text::latin1(w);
    assert(cw.len() == w.len());
    if w == ascii("common"@) || w == ascii("cut"@) {
        assert(w[0] == 99);
        assert(w[0] == b[p]);
    } else {
        assert(w.len() >= 4);
        assert(cw[0] == w[0] as char);
        assert(cw[1] == w[1] as char);
        assert(cw[2] == w[2] as char);
        assert(w[0] == b[p]);
        assert(w[1] == b[p + 1]);
        assert(w[2] == b[p + 2]);
        let c0 = cw[0];
        assert(c0 == 't' || c0 == 'b' || c0 == 'a' || c0 == 'p');
        assert(w[0] != 99 && w[0] != 67);
        assert(ascii("common"@)[0] == 99);
        assert(ascii("cut"@)[0] == 99);
        crate::lexer::lemma_find_bounds(w, 0, 47);
        if spec_find(w, 0, 47) < w.len() {
            let k = spec_find(w, 0, 47);
            assert(w[k] == b[p + k]);
        }
        assert(spec_find(w, 0, 47) >= w.len());
    }
}

/// No token of a plain melody spells `ex` or `tex`, so no `exp[` or
/// `text[` starts there.
proof fn lemma_no_ex_token(b: Seq<u8>, x: int, sticky: int, base: int)
    requires
        melody_from(b, x, sticky, base) is Some,
    ensures
        x + 1 < b.len() && b[x] == 101 ==> b[x + 1] != 120,
        x + 2 < b.len() && b[x] == 116 && b[x + 1] == 101 ==> b[x + 2] != 120,
{
    if x + 1 < b.len() && b[x] == 101 && b[x + 1] == 120 {
        if melody_word(b, x) {
            lemma_melody_word(b, x);
        }
        let h = head_marks_end(b, x);
        assert(crate::note_colors::spec_accidental_at(b, x + 1).1 == x + 1);
        assert(crate::lexer::spec_run_of(b, x + 1, 39) == 0);
        assert(crate::lexer::spec_run_of(b, x + 1, 44) == 0);
        assert(h == x + 1);
        if duration_name_len(b, h) > 0 {
            lemma_named_duration(b, h, 4);
        }
        assert(false);
    }
    if x + 2 < b.len() && b[x] == 116 && b[x + 1] == 101 {
        lemma_melody_word(b, x);
    }
}

/// The facts one step of the parser needs about the plain token at `p`.
#[verifier::spinoff_prover]
#[verifier::rlimit(60)]
proof fn lemma_melody_token(b: Seq<u8>, p: int, sticky: int, base: int)
    requires
        melody_from(b, p, sticky, base) is Some,
    ensures
        0 <= p < b.len(),
        plain_token_start(b[p]),
        !crate::text::spec_is_whitespace_char(b[p]),
        b[p] != 10,
        crate::lexer::spec_staff_marker(b, p).0 is None,
        b[p] == 58 ==> colon_barline(b, p) is Some,
        (97 <= b[p] <= 103 || b[p] == 114 || b[p] == 115) && !melody_word(b, p) ==> plain_word(b, p),
        melody_word(b, p) ==> crate::text::spec_is_lower(b[p]),
        b[p] == 116 || b[p] == 112 ==> melody_word(b, p),
        b[p] == 118 ==> voice_group_at(b, p) is Some && !melody_word(b, p),
        crate::text::spec_is_digit(b[p]) ==> digit_time_at(b, p) && !melody_word(b, p),
        b[p] == 67 ==> upper_time_at(b, p) && !melody_word(b, p),
        b[p] == 60 ==> !melody_word(b, p) && chord_body(b, p + 1, base) is Some && chord_heads(b, p + 1, base).len() > 0,
        b[p] == 124 || b[p] == 58 ==> !melody_word(b, p),
        quiet_follow(b, melody_item_end(b, p, sticky, base)),
        melody_from(b, p, sticky, base)->0 == seq![melody_item(b, p, sticky, base)] + melody_after(
            b,
            melody_item_end(b, p, sticky, base),
            melody_item_sticky(b, p, sticky, base),
            melody_item_base(b, p, sticky, base),
            b[p] == 124 || b[p] == 58,
        )->0,
        melody_after(
            b,
            melody_item_end(b, p, sticky, base),
            melody_item_sticky(b, p, sticky, base),
            melody_item_base(b, p, sticky, base),
            b[p] == 124 || b[p] == 58,
        ) is Some,
        melody_item_end(b, p, sticky, base) < b.len() ==> !plain_token_start(b[melody_item_end(b, p, sticky, base)]),
{
    let c = b[p];
    let q = melody_item_end(b, p, sticky, base);
    let rest = melody_after(
        b,
        q,
        melody_item_sticky(b, p, sticky, base),
        melody_item_base(b, p, sticky, base),
        c == 124 || c == 58,
    );
    assert(rest is Some);
    if voice_group_at(b, p) is Some {
        if melody_word(b, p) {
            lemma_melody_word(b, p);
        }
    } else if melody_word(b, p) {
        lemma_melody_word(b, p);
    } else if digit_time_at(b, p) || upper_time_at(b, p) {
        crate::lexer::lemma_digit_run_bounds(b, p);
    } else if c == 124 || c == 58 {
    } else {
        lemma_plain_token(b, p, sticky, base);
    }
    if q < b.len() && b[q] == 32 {
        crate::lexer::lemma_run_bounds(b, q, 32);
        let k = crate::lexer::spec_run_of(b, q, 32);
        if k == 1 {
            lemma_no_ex_token(b, q + 1, melody_item_sticky(b, p, sticky, base), melody_item_base(b, p, sticky, base));
        } else {
            assert(b[q + 1] == 32);
        }
    }
}

/// The facts about a plain token that is no time signature, clef name or
/// barline: a note, rest, spacer or chord.
#[verifier::spinoff_prover]
#[verifier::rlimit(40)]
proof fn lemma_plain_token(b: Seq<u8>, p: int, sticky: int, base: int)
    requires
        melody_from(b, p, sticky, base) is Some,
        !melody_word(b, p),
        !digit_time_at(b, p),
        !upper_time_at(b, p),
        b[p] != 124,
        b[p] != 58,
    ensures
        !crate::text::spec_is_whitespace_char(b[p]),
        b[p] != 10,
        (97 <= b[p] <= 103 || b[p] == 114 || b[p] == 115) ==> plain_word(b, p),
        b[p] == 60 ==> chord_body(b, p + 1, base) is Some && chord_heads(b, p + 1, base).len() > 0,
{
    let c = b[p];
    let start = plain_head_end(b, p, base);
    if c == 60 {
        lemma_chord_body_bounds(b, p + 1, base);
    }
    let acc = crate::note_colors::spec_accidental_at(b, p + 1);
    crate::lexer::lemma_run_bounds(b, acc.1, 39);
    crate::lexer::lemma_run_bounds(b, acc.1 + crate::lexer::spec_run_of(b, acc.1, 39), 44);
    if 97 <= c <= 103 {
        assert(crate::lexer::spec_octave_markers(b, acc.1, base).1 == start);
    }
    if c != 60 && start > p + 1 {
        assert(!crate::text::spec_is_word_char(b[p + 1]));
    }
}

/// The facts one step of the parser needs about the separator at `q`.
proof fn lemma_melody_separator(b: Seq<u8>, q: int, sticky: int, base: int, bar: bool)
    requires
        0 <= q < b.len(),
        !plain_token_start(b[q]),
        melody_after(b, q, sticky, base, bar) is Some,
    ensures
        b[q] == 32 || b[q] == 10,
        b[q] == 32 ==> {
            let k = crate::lexer::spec_run_of(b, q, 32);
            &&& blank_run_end(b, q) == q + k
            &&& q + k < b.len()
            &&& plain_token_start(b[q + k])
            &&& melody_from(b, q + k, sticky, base) is Some
            &&& melody_after(b, q, sticky, base, bar)->0 == if k > 1 && !bar && b[q + k] != 124 {
                seq![gap_item(k - 1)] + melody_from(b, q + k, sticky, base)->0
            } else {
                melody_from(b, q + k, sticky, base)->0
            }
        },
        b[q] == 10 ==> newline_run_end(b, q + 1) <= b.len(),
        b[q] == 10 && newline_run_end(b, q + 1) == b.len() ==> melody_after(b, q, sticky, base, bar)->0 == Seq::<(u8, Option<Seq<char>>, int, int, int, Seq<(u8, Option<Seq<char>>, int)>, int)>::empty(),
        b[q] == 10 && newline_run_end(b, q + 1) < b.len() ==> {
            let r = newline_run_end(b, q + 1);
            &&& plain_token_start(b[r])
            &&& melody_from(b, r, sticky, base) is Some
            &&& melody_after(b, q, sticky, base, bar)->0 == seq![line_break_item()] + melody_from(
                b,
                r,
                sticky,
                base,
            )->0
        },
{
    if b[q] == 32 {
        crate::lexer::lemma_run_bounds(b, q, 32);
        let k = crate::lexer::spec_run_of(b, q, 32);
        lemma_melody_token(b, q + k, sticky, base);
        lemma_blank_run(b, q);
    }
    if b[q] == 10 {
        lemma_newline_run_bounds(b, q + 1);
    }
}

/// Where a run of white space and newlines ends.
proof fn lemma_newline_run_bounds(b: Seq<u8>, p: int)
    requires
        0 <= p <= b.len(),
    ensures
        p <= newline_run_end(b, p) <= b.len(),
        newline_run_end(b, p) < b.len() ==> !(b[newline_run_end(b, p)] == 32 || b[newline_run_end(b, p)] == 9
            || b[newline_run_end(b, p)] == 13 || b[newline_run_end(b, p)] == 10),
    decreases b.len() - p,
{
    if p < b.len() && (b[p] == 32 || b[p] == 9 || b[p] == 13 || b[p] == 10) {
        lemma_newline_run_bounds(b, p + 1);
    }
}

/// A blank run ends inside the run of white space and newlines that starts
/// with it, and the latter ends where it did.
proof fn lemma_blank_within_newline_run(b: Seq<u8>, p: int)
    requires
        0 <= p <= b.len(),
    ensures
        p <= blank_run_end(b, p) <= newline_run_end(b, p),
        newline_run_end(b, blank_run_end(b, p)) == newline_run_end(b, p),
    decreases b.len() - p,
{
    lemma_newline_run_bounds(b, p);
    if p < b.len() && crate::text::spec_is_whitespace_char(b[p]) {
        lemma_blank_within_newline_run(b, p + 1);
    }
}

/// The items of the melody that starts after any white space and newlines
/// at the start of `b`; none when only those are there.
pub open spec fn melody_input(b: Seq<u8>, sticky: int, base: int) -> Option<Seq<(u8, Option<Seq<char>>, int, int, int, Seq<(u8, Option<Seq<char>>, int)>, int)>> {
    if newline_run_end(b, 0) == b.len() {
        Some(Seq::empty())
    } else {
        melody_from(b, newline_run_end(b, 0), sticky, base)
    }
}

/// The parser stands at `pos` in a plain melody: the events so far match
/// the first items, and what is left of the input gives the other items.
#[verifier::opaque]
pub open spec fn melody_state(b: Seq<u8>, pos: int, ld: int, base: int, events: Seq<Event>, items: Seq<(u8, Option<Seq<char>>, int, int, int, Seq<(u8, Option<Seq<char>>, int)>, int)>) -> bool {
    &&& 0 <= pos <= b.len()
    &&& events.len() <= items.len()
    &&& melody_rest(b, pos, ld, base, events.len() > 0 && events.last() is Barline) == Some(
        items.skip(events.len() as int),
    )
    &&& (pos < b.len() && !plain_token_start(b[pos])) ==> events.len() > 0 && !(events.last() is LineBreak)
    &&& forall|i: int| 0 <= i < events.len() ==> melody_event(b, #[trigger] events[i], items[i])
}

proof fn lemma_melody_state_facts(b: Seq<u8>, pos: int, ld: int, base: int, events: Seq<Event>, items: Seq<(u8, Option<Seq<char>>, int, int, int, Seq<(u8, Option<Seq<char>>, int)>, int)>)
    requires
        melody_state(b, pos, ld, base, events, items),
        pos < b.len(),
    ensures
        0 <= pos,
        plain_token_start(b[pos]) ==> melody_from(b, pos, ld, base) is Some,
        !plain_token_start(b[pos]) ==> melody_after(b, pos, ld, base, events.len() > 0 && events.last() is Barline) is Some,
        !plain_token_start(b[pos]) ==> events.len() > 0 && !(events.last() is LineBreak),
{
    reveal(melody_state);
}

proof fn lemma_melody_state_token(
    b: Seq<u8>,
    pos: int,
    ld: int,
    base: int,
    ev0: Seq<Event>,
    ev1: Seq<Event>,
    items: Seq<(u8, Option<Seq<char>>, int, int, int, Seq<(u8, Option<Seq<char>>, int)>, int)>,
)
    requires
        melody_state(b, pos, ld, base, ev0, items),
        0 <= pos < b.len(),
        plain_token_start(b[pos]),
        ev1.len() == ev0.len() + 1,
        ev1.drop_last() == ev0,
        melody_event(b, ev1.last(), melody_item(b, pos, ld, base)),
    ensures
        melody_state(
            b,
            melody_item_end(b, pos, ld, base),
            melody_item_sticky(b, pos, ld, base),
            melody_item_base(b, pos, ld, base),
            ev1,
            items,
        ),
{
    reveal(melody_state);
    lemma_melody_token(b, pos, ld, base);
    let q = melody_item_end(b, pos, ld, base);
    let after = melody_after(
        b,
        q,
        melody_item_sticky(b, pos, ld, base),
        melody_item_base(b, pos, ld, base),
        b[pos] == 124 || b[pos] == 58,
    );
    lemma_items_advance(items, ev0.len() as int, melody_item(b, pos, ld, base), after->0);
    lemma_events_extend(b, ev0, ev1, items);
    assert((ev1.last() is Barline) == (b[pos] == 124 || b[pos] == 58));
}

proof fn lemma_melody_state_spaces(
    b: Seq<u8>,
    pos: int,
    ld: int,
    base: int,
    ev0: Seq<Event>,
    ev1: Seq<Event>,
    items: Seq<(u8, Option<Seq<char>>, int, int, int, Seq<(u8, Option<Seq<char>>, int)>, int)>,
)
    requires
        melody_state(b, pos, ld, base, ev0, items),
        0 <= pos < b.len(),
        b[pos] == 32,
        ev1 == if blank_run_gap(ev0, blank_run_end(b, pos) - pos, crate::lexer::spec_peek(b, blank_run_end(b, pos))) {
            ev0.push(gap_event(blank_run_end(b, pos) - pos - 1))
        } else {
            ev0
        },
    ensures
        melody_state(b, blank_run_end(b, pos), ld, base, ev1, items),
{
    reveal(melody_state);
    let bar = ev0.len() > 0 && ev0.last() is Barline;
    lemma_melody_separator(b, pos, ld, base, bar);
    let k = crate::lexer::spec_run_of(b, pos, 32);
    let tail = melody_from(b, pos + k, ld, base)->0;
    if k > 1 && !bar && b[pos + k] != 124 {
        lemma_items_advance(items, ev0.len() as int, gap_item(k - 1), tail);
        assert(ev0.push(gap_event(k - 1)).drop_last() =~= ev0);
        lemma_events_extend(b, ev0, ev1, items);
    }
}

proof fn lemma_melody_state_newline(
    b: Seq<u8>,
    pos: int,
    ld: int,
    base: int,
    ev0: Seq<Event>,
    ev1: Seq<Event>,
    items: Seq<(u8, Option<Seq<char>>, int, int, int, Seq<(u8, Option<Seq<char>>, int)>, int)>,
)
    requires
        melody_state(b, pos, ld, base, ev0, items),
        0 <= pos < b.len(),
        b[pos] == 10,
        ev1 == if newline_run_end(b, pos + 1) < b.len() && ev0.len() > 0 {
            ev0.push(Event::LineBreak)
        } else {
            ev0
        },
    ensures
        melody_state(b, newline_run_end(b, pos + 1), ld, base, ev1, items),
{
    reveal(melody_state);
    let bar = ev0.len() > 0 && ev0.last() is Barline;
    lemma_melody_separator(b, pos, ld, base, bar);
    let r = newline_run_end(b, pos + 1);
    if r < b.len() {
        lemma_items_advance(items, ev0.len() as int, line_break_item(), melody_from(b, r, ld, base)->0);
        assert(ev0.push(Event::LineBreak).drop_last() =~= ev0);
        lemma_events_extend(b, ev0, ev1, items);
    }
}

/// At the first token after the white space and newlines that open the
/// input, nothing has been read yet.
proof fn lemma_melody_state_begin(b: Seq<u8>, ld: int, base: int)
    requires
        melody_input(b, ld, base) is Some,
    ensures
        melody_state(b, newline_run_end(b, 0), ld, base, Seq::empty(), melody_input(b, ld, base)->0),
{
    reveal(melody_state);
    lemma_newline_run_bounds(b, 0);
    let s = newline_run_end(b, 0);
    let items = melody_input(b, ld, base)->0;
    if s < b.len() {
        lemma_melody_token(b, s, ld, base);
    }
    assert(items.skip(0) =~= items);
}

proof fn lemma_melody_state_end(b: Seq<u8>, ld: int, base: int, events: Seq<Event>, items: Seq<(u8, Option<Seq<char>>, int, int, int, Seq<(u8, Option<Seq<char>>, int)>, int)>)
    requires
        melody_state(b, b.len() as int, ld, base, events, items),
    ensures
        melody_parsed(b, events, items),
{
    reveal(melody_state);
    assert(items.skip(events.len() as int).len() == 0);
}

/// The events read from a plain melody: one per token, as `melody_event`
/// says.
pub open spec fn melody_parsed(b: Seq<u8>, events: Seq<Event>, items: Seq<(u8, Option<Seq<char>>, int, int, int, Seq<(u8, Option<Seq<char>>, int)>, int)>) -> bool
    decreases b.len(), 1int,
{
    &&& events.len() == items.len()
    &&& forall|i: int| 0 <= i < items.len() ==> melody_event(b, #[trigger] events[i], items[i])
}

proof fn lemma_events_extend(
    b: Seq<u8>,
    ev0: Seq<Event>,
    ev1: Seq<Event>,
    items: Seq<(u8, Option<Seq<char>>, int, int, int, Seq<(u8, Option<Seq<char>>, int)>, int)>,
)
    requires
        ev1.len() == ev0.len() + 1,
        ev1.drop_last() == ev0,
        ev0.len() < items.len(),
        forall|i: int| 0 <= i < ev0.len() ==> melody_event(b, #[trigger] ev0[i], items[i]),
        melody_event(b, ev1.last(), items[ev0.len() as int]),
    ensures
        forall|i: int| 0 <= i < ev1.len() ==> melody_event(b, #[trigger] ev1[i], items[i]),
{
    assert forall|i: int| 0 <= i < ev1.len() implies melody_event(b, #[trigger] ev1[i], items[i]) by {
        if i < ev0.len() {
            assert(ev1[i] == ev1.drop_last()[i]);
        }
    }
}

proof fn lemma_items_advance(items: Seq<(u8, Option<Seq<char>>, int, int, int, Seq<(u8, Option<Seq<char>>, int)>, int)>, n: int, item: (u8, Option<Seq<char>>, int, int, int, Seq<(u8, Option<Seq<char>>, int)>, int), rest: Seq<(u8, Option<Seq<char>>, int, int, int, Seq<(u8, Option<Seq<char>>, int)>, int)>)
    requires
        0 <= n <= items.len(),
        items.skip(n) == seq![item] + rest,
    ensures
        n < items.len(),
        items[n] == item,
        items.skip(n + 1) == rest,
{
    assert(items.skip(n).len() >= 1);
    assert(items.skip(n)[0] == items[n]);
    assert(items.skip(n + 1) =~= items.skip(n).drop_first());
    assert((seq![item] + rest).drop_first() =~= rest);
}

/// The plain body of a chord from `p`: note heads (a letter `a`-`g`, an
/// accidental and octave marks, read relative to `base`) separated by
/// spaces, up to the closing `>`. Gives the heads as (letter, accidental,
/// octave) and the place of the `>`.
pub open spec fn chord_body(b: Seq<u8>, p: int, base: int) -> Option<(Seq<(u8, Option<Seq<char>>, int)>, int)>
    decreases b.len() - p,
{
    if !(0 <= p < b.len()) {
        None
    } else if b[p] == 62 {
        Some((Seq::empty(), p))
    } else if b[p] == 32 {
        chord_body(b, p + 1, base)
    } else if 97 <= b[p] <= 103 {
        let acc = crate::note_colors::spec_accidental_at(b, p + 1);
        let oct = crate::lexer::spec_octave_markers(b, acc.1, base);
        if p < oct.1 < b.len() && (b[oct.1] == 32 || b[oct.1] == 62) {
            match chord_body(b, oct.1, base) {
                Some((heads, close)) => Some((seq![(b[p], acc.0, oct.0)] + heads, close)),
                None => None,
            }
        } else {
            None
        }
    } else {
        None
    }
}

/// The heads of a plain chord body (none where the body is not plain).
pub open spec fn chord_heads(b: Seq<u8>, p: int, base: int) -> Seq<(u8, Option<Seq<char>>, int)> {
    match chord_body(b, p, base) {
        Some((heads, _)) => heads,
        None => Seq::empty(),
    }
}

/// Where a plain chord body closes.
pub open spec fn chord_close(b: Seq<u8>, p: int, base: int) -> int {
    match chord_body(b, p, base) {
        Some((_, close)) => close,
        None => b.len() as int,
    }
}

/// A chord note as read from a plain chord body: its letter, accidental and
/// octave, and no colour of its own.
pub open spec fn chord_note_is(n: ChordNote, head: (u8, Option<Seq<char>>, int)) -> bool {
    &&& n.name@ == seq![head.0 as char]
    &&& opt_view(n.accidental) == head.1
    &&& n.octave == head.2
    &&& n.color is None
}

proof fn lemma_chord_body_bounds(b: Seq<u8>, p: int, base: int)
    requires
        chord_body(b, p, base) is Some,
    ensures
        p <= chord_close(b, p, base) < b.len(),
        b[chord_close(b, p, base)] == 62,
    decreases b.len() - p,
{
    if b[p] == 32 {
        lemma_chord_body_bounds(b, p + 1, base);
    } else if 97 <= b[p] <= 103 {
        let acc = crate::note_colors::spec_accidental_at(b, p + 1);
        let oct = crate::lexer::spec_octave_markers(b, acc.1, base);
        lemma_chord_body_bounds(b, oct.1, base);
    }
}

/// Sets the slur start (or end) of a note.
fn set_note_slur(x: &mut Note, start: bool)
    ensures
        *final(x) == if start {
            Note { slur_start: true, ..*old(x) }
        } else {
            Note { slur_end: true, ..*old(x) }
        },
{
    if start {
        x.slur_start = true;
    } else {
        x.slur_end = true;
    }
}

/// Sets the slur start (or end) of a note; anything else stays.
#[verifier::spinoff_prover]
fn set_slur_flag(e: &mut Event, start: bool) -> (r: bool)
    ensures
        r == (*old(e) is Note),
        r ==> *final(e) == Event::Note(
            if start {
                Note { slur_start: true, ..old(e)->Note_0 }
            } else {
                Note { slur_end: true, ..old(e)->Note_0 }
            },
        ),
        !r ==> *final(e) == *old(e),
{
    match e {
        Event::Note(x) => {
            set_note_slur(x, start);
            true
        },
        _ => false,
    }
}

proof fn lemma_slur_keeps_wf(a: Event, b: Event)
    requires
        event_wf(a),
        a is Note,
        b is Note,
        b->Note_0 == (Note { slur_start: b->Note_0.slur_start, slur_end: b->Note_0.slur_end, ..a->Note_0 }),
    ensures
        event_wf(b),
{
}

/// `trace` is a run of `parse` steps from `start` to `end` (see `step`).
#[verifier::opaque]
pub open spec fn parse_trace<'a>(trace: Seq<Parser<'a>>, start: Parser<'a>, end: Parser<'a>) -> bool {
    &&& trace.len() > 0
    &&& trace[0] == start
    &&& trace.last() == end
    &&& forall|i: int| 0 <= i < trace.len() - 1 ==> (#[trigger] trace[i]).step(trace[i + 1])
}

proof fn lemma_trace_ends<'a>(trace: Seq<Parser<'a>>, start: Parser<'a>, end: Parser<'a>)
    requires
        parse_trace(trace, start, end),
    ensures
        trace.len() > 0,
        trace[0] == start,
        trace.last() == end,
{
    reveal(parse_trace);
}

proof fn lemma_trace_start<'a>(start: Parser<'a>)
    ensures
        parse_trace(seq![start], start, start),
{
    reveal(parse_trace);
}

proof fn lemma_trace_extend<'a>(trace: Seq<Parser<'a>>, start: Parser<'a>, end: Parser<'a>, next: Parser<'a>)
    requires
        parse_trace(trace, start, end),
        end.step(next),
    ensures
        parse_trace(trace.push(next), start, next),
{
    reveal(parse_trace);
    let t = trace.push(next);
    assert forall|i: int| 0 <= i < t.len() - 1 implies (#[trigger] t[i]).step(t[i + 1]) by {
        if i < trace.len() - 1 {
            assert(t[i] == trace[i] && t[i + 1] == trace[i + 1]);
        } else {
            assert(t[i] == end);
        }
    }
}

/// Parses a voice's music on its own: positions and spans start afresh, the
/// sticky duration is carried in.
pub(crate) fn parse_events(input: &[u8], base_octave: i32, last_duration: i32) -> (events: Vec<Event>)
    requires
        input_len_ok(input@.len() as int),
        vstd::utf8::valid_utf8(input@),
        base_octave_ok(base_octave as int, input@.len() as int),
        duration_ok(last_duration as int),
    ensures
        events_wf(events@),
        melody_input(input@, last_duration as int, base_octave as int) is Some ==> melody_parsed(
            input@,
            events@,
            melody_input(input@, last_duration as int, base_octave as int)->0,
        ),
        exists|trace: Seq<Parser>|
            {
                &&& #[trigger] parse_trace(trace, trace[0], trace.last())
                &&& trace[0].fresh(input@, base_octave as int, last_duration as int)
                &&& trace.last().pos == input@.len()
                &&& trace.last().closes_to(events@)
            },
    decreases input@.len(), 3int,
{
    let mut parser = Parser::new(input, base_octave);
    parser.last_duration = last_duration;
    let ghost start = parser;
    parser.parse();
    proof {
        let trace = choose|trace: Seq<Parser>|
            {
                &&& #[trigger] parse_trace(trace, start, trace.last())
                &&& trace.last().inv()
                &&& trace.last().pos == start.input@.len()
                &&& trace.last().closes_to(parser.events@)
            };
        lemma_trace_ends(trace, start, trace.last());
    }
    parser.events
}

impl<'a> Parser<'a> {
    /// `next` differs from this parser at most in what reading a token
    /// changes: the position, the events, the duration and octave in force
    /// and the colour target; no span is opened or closed.
    pub open spec fn only_reads(&self, next: Parser<'a>) -> bool {
        next == (Parser {
            pos: next.pos,
            events: next.events,
            last_duration: next.last_duration,
            current_base_octave: next.current_base_octave,
            last_color_target: next.last_color_target,
            ..*self
        })
    }

    /// The step consumed input and kept the invariant.
    pub open spec fn advanced(&self, old: &Parser<'a>) -> bool {
        &&& self.inv()
        &&& self.input == old.input
        &&& self.pos > old.pos
    }

    /// What `handle_whitespace` guarantees, `next` being the parser after it.
    pub open spec fn whitespace_post(&self, next: Parser<'a>) -> bool {
        &&& (next.advanced(self))
        &&& (next.pos == blank_run_end(self.input@, self.pos as int))
        &&& (next.events@ == if blank_run_gap(
            self.events@,
            next.pos - self.pos,
            crate::lexer::spec_peek(self.input@, next.pos as int),
        ) {
            self.events@.push(gap_event(next.pos - self.pos - 1))
        } else {
            self.events@
        })
        &&& (next.last_duration == self.last_duration)
        &&& (next.current_base_octave == self.current_base_octave)
        &&& (next.same_spans(self))
        &&& (self.only_reads(next))
        &&& (next.last_color_target == self.last_color_target)
    }

    /// White space: a run of two or more spaces between events (not after a
    /// barline or line break, not before a newline, a barline or the end)
    /// becomes a gap of one unit per extra space.
    fn handle_whitespace(&mut self)
        requires
            old(self).inv(),
            old(self).pos < old(self).input@.len(),
            crate::text::spec_is_whitespace_char(old(self).input@[old(self).pos as int]),
        ensures
            final(self).last_color_target == old(self).last_color_target,
            old(self).only_reads(*final(self)),
            final(self).advanced(old(self)),
            final(self).pos == blank_run_end(old(self).input@, old(self).pos as int),
            final(self).events@ == if blank_run_gap(
                old(self).events@,
                final(self).pos - old(self).pos,
                crate::lexer::spec_peek(old(self).input@, final(self).pos as int),
            ) {
                old(self).events@.push(gap_event(final(self).pos - old(self).pos - 1))
            } else {
                old(self).events@
            },
            final(self).last_duration == old(self).last_duration,
            final(self).current_base_octave == old(self).current_base_octave,
            final(self).same_spans(old(self)),
    {
        let start = self.pos;
        while self.pos < self.input.len() && is_whitespace_char(self.input[self.pos])
            invariant
                *self == (Parser { pos: self.pos, ..*old(self) }),
                self.inv(),
                self.input == old(self).input,
                start <= self.pos,
                self.events == old(self).events,
                start == old(self).pos,
                self.last_duration == old(self).last_duration,
                self.current_base_octave == old(self).current_base_octave,
                blank_run_end(self.input@, start as int) == blank_run_end(self.input@, self.pos as int),
                self.same_spans(old(self)),
            decreases self.input.len() - self.pos,
        {
            self.pos = self.pos + 1;
        }
        let run_len = self.pos - start;
        let next = peek(self.input, self.pos);
        let n = self.events.len();
        if run_len > 1 && n > 0 {
            let prev_is_barline = match &self.events[n - 1] {
                Event::Barline(_) => true,
                _ => false,
            };
            let prev_is_linebreak = is_line_break(&self.events[n - 1]);
            if !prev_is_barline && !prev_is_linebreak && next.is_some() && next != Some(10u8) && next
                != Some(124u8) {
                self.events.push(Event::Gap(Gap::new((run_len - 1) as i32)));
            }
        }
    }

    /// What `handle_newline` guarantees, `next` being the parser after it.
    pub open spec fn newline_post(&self, next: Parser<'a>) -> bool {
        &&& (next.advanced(self))
        &&& (next.pos == newline_run_end(self.input@, self.pos + 1))
        &&& (next.events@ == if next.pos < self.input@.len() && self.events@.len() > 0 {
            self.events@.push(Event::LineBreak)
        } else {
            self.events@
        })
        &&& (next.last_duration == self.last_duration)
        &&& (next.current_base_octave == self.current_base_octave)
        &&& (next.same_spans(self))
        &&& (self.only_reads(next))
        &&& (next.last_color_target == self.last_color_target)
    }

    /// A newline, with the white space and newlines after it, becomes a line
    /// break between events (none at the start or the end).
    fn handle_newline(&mut self)
        requires
            old(self).inv(),
            old(self).pos < old(self).input@.len(),
            old(self).input@[old(self).pos as int] == 10,
        ensures
            final(self).last_color_target == old(self).last_color_target,
            old(self).only_reads(*final(self)),
            final(self).advanced(old(self)),
            final(self).pos == newline_run_end(old(self).input@, old(self).pos + 1),
            final(self).events@ == if final(self).pos < old(self).input@.len() && old(self).events@.len() > 0 {
                old(self).events@.push(Event::LineBreak)
            } else {
                old(self).events@
            },
            final(self).last_duration == old(self).last_duration,
            final(self).current_base_octave == old(self).current_base_octave,
            final(self).same_spans(old(self)),
    {
        self.pos = self.pos + 1;
        while self.pos < self.input.len() && (self.input[self.pos] == 32 || self.input[self.pos] == 9
            || self.input[self.pos] == 13 || self.input[self.pos] == 10)
            invariant
                *self == (Parser { pos: self.pos, ..*old(self) }),
                self.inv(),
                self.input == old(self).input,
                old(self).pos < self.pos,
                self.events == old(self).events,
                self.last_duration == old(self).last_duration,
                self.current_base_octave == old(self).current_base_octave,
                newline_run_end(self.input@, old(self).pos + 1) == newline_run_end(self.input@, self.pos as int),
                self.same_spans(old(self)),
            decreases self.input.len() - self.pos,
        {
            self.pos = self.pos + 1;
        }
        if self.pos < self.input.len() && self.events.len() > 0 {
            self.events.push(Event::LineBreak);
        }
    }

    /// Adds a staff marker to the last note, rest or chord, which then takes
    /// a following `color{...}` on its staff markers; elsewhere it is
    /// dropped and nothing changes.
    fn attach_staff_marker_to_previous(&mut self, marker: String)
        requires
            old(self).inv(),
        ensures
            final(self).inv(),
            final(self).same_frame(old(self)),
            *final(self) == (Parser {
                events: final(self).events,
                last_color_target: final(self).last_color_target,
                ..*old(self)
            }),
            old(self).events@.len() > 0 ==> {
                &&& final(self).events@.drop_last() == old(self).events@.drop_last()
                &&& marker_added(old(self).events@.last(), final(self).events@.last(), marker)
            },
            old(self).events@.len() == 0 ==> final(self).events == old(self).events,
            final(self).last_color_target == if old(self).events@.len() > 0 && anchor_event(
                old(self).events@.last(),
            ) {
                Some(LastColorTarget::Event(EventColorTarget::StaffMarkers))
            } else {
                old(self).last_color_target
            },
    {
        let n = self.events.len();
        if n == 0 {
            return;
        }
        let ghost before = self.events@;
        let attached = add_staff_marker(&mut self.events[n - 1], marker);
        proof {
            assert(self.events@.drop_last() =~= before.drop_last());
            assert forall|k: int| 0 <= k < n implies event_wf(#[trigger] self.events@[k]) by {
                if k != n - 1 {
                    assert(self.events@[k] == before[k]);
                }
            }
        }
        if attached {
            self.last_color_target = Some(LastColorTarget::Event(EventColorTarget::StaffMarkers));
        }
    }

    /// What `try_standalone_marker` guarantees, `next` being the parser after it.
    pub open spec fn marker_post(&self, next: Parser<'a>, r: bool) -> bool {
        &&& (r ==> next.advanced(self))
        &&& (!r ==> next == *self)
        &&& (r == (crate::lexer::spec_staff_marker(self.input@, self.pos as int).0 is Some))
        &&& (r ==> self.marker_attached(next))
    }

    /// A staff marker standing on its own belongs to the preceding event.
    /// `next` is this parser after the staff marker at its position (see
    /// `spec_staff_marker`): moved past it, with the marker added to the last
    /// event (see `marker_added`), which becomes the colour target when it
    /// is a note, rest or chord.
    pub open spec fn marker_attached(&self, next: Parser<'a>) -> bool {
        let r = crate::lexer::spec_staff_marker(self.input@, self.pos as int);
        &&& next.pos == r.1
        &&& next == (Parser {
            events: next.events,
            last_color_target: next.last_color_target,
            pos: next.pos,
            ..*self
        })
        &&& self.events@.len() > 0 ==> {
            &&& next.events@.drop_last() == self.events@.drop_last()
            &&& exists|m: String| m@ == r.0->0 && #[trigger] marker_added(self.events@.last(), next.events@.last(), m)
        }
        &&& self.events@.len() == 0 ==> next.events == self.events
        &&& next.last_color_target == if self.events@.len() > 0 && anchor_event(self.events@.last()) {
            Some(LastColorTarget::Event(EventColorTarget::StaffMarkers))
        } else {
            self.last_color_target
        }
    }

    /// `next` is this parser after a slur mark (`(` when `start`, else `)`):
    /// one position on; a note just before it gets the slur's start or end
    /// and becomes the colour target; anything else stays as it was.
    pub open spec fn slur_marked(&self, next: Parser<'a>, start: bool) -> bool {
        let n = self.events@.len();
        if n > 0 && self.events@.last() is Note {
            let x = self.events@.last()->Note_0;
            &&& next == (Parser {
                events: next.events,
                pos: (self.pos + 1) as usize,
                last_color_target: Some(LastColorTarget::Event(EventColorTarget::Slur)),
                ..*self
            })
            &&& next.events@ == self.events@.drop_last().push(
                Event::Note(
                    if start {
                        Note { slur_start: true, ..x }
                    } else {
                        Note { slur_end: true, ..x }
                    },
                ),
            )
        } else {
            next == (Parser { pos: (self.pos + 1) as usize, ..*self })
        }
    }

    fn try_standalone_marker(&mut self) -> (r: bool)
        requires
            old(self).inv(),
            old(self).pos < old(self).input@.len(),
        ensures
            r ==> final(self).advanced(old(self)),
            !r ==> *final(self) == *old(self),
            r == (crate::lexer::spec_staff_marker(old(self).input@, old(self).pos as int).0 is Some),
            r ==> old(self).marker_attached(*final(self)),
    {
        let (marker, end) = parse_staff_marker(self.input, self.pos);
        match marker {
            Some(m) => {
                self.attach_staff_marker_to_previous(m);
                self.pos = end;
                true
            },
            None => false,
        }
    }

    fn push_barline(&mut self, style: &str, width: usize)
        requires
            old(self).inv(),
            1 <= width,
            old(self).pos + width <= old(self).input@.len(),
        ensures
            final(self).last_color_target == Some(LastColorTarget::Barline),
            old(self).only_reads(*final(self)),
            final(self).advanced(old(self)),
            final(self).pos == old(self).pos + width,
            final(self).events@.len() == old(self).events@.len() + 1,
            final(self).events@.drop_last() == old(self).events@,
            is_new_barline(final(self).events@.last(), style@),
            final(self).last_duration == old(self).last_duration,
            final(self).current_base_octave == old(self).current_base_octave,
            final(self).same_spans(old(self)),
    {
        self.events.push(Event::Barline(Barline::new(style)));
        self.last_color_target = Some(LastColorTarget::Barline);
        self.pos = self.pos + width;
    }

    /// What `handle_barline` guarantees, `next` being the parser after it.
    pub open spec fn barline_post(&self, next: Parser<'a>) -> bool {
        &&& (next.advanced(self))
        &&& (next.pos == self.pos + pipe_barline(self.input@, self.pos as int).1)
        &&& (next.events@.len() == self.events@.len() + 1)
        &&& (next.events@.drop_last() == self.events@)
        &&& (is_new_barline(next.events@.last(), pipe_barline(self.input@, self.pos as int).0))
        &&& (next.last_duration == self.last_duration)
        &&& (next.current_base_octave == self.current_base_octave)
        &&& (next.same_spans(self))
        &&& (self.only_reads(next))
        &&& (next.last_color_target == Some(LastColorTarget::Barline))
    }

    /// Barlines starting with `|`: `||:` and `|:` repeat-start, `||`
    /// double, `|.` final, `|` single.
    fn handle_barline(&mut self)
        requires
            old(self).inv(),
            old(self).pos < old(self).input@.len(),
            old(self).input@[old(self).pos as int] == 124,
        ensures
            final(self).last_color_target == Some(LastColorTarget::Barline),
            old(self).only_reads(*final(self)),
            final(self).advanced(old(self)),
            final(self).pos == old(self).pos + pipe_barline(old(self).input@, old(self).pos as int).1,
            final(self).events@.len() == old(self).events@.len() + 1,
            final(self).events@.drop_last() == old(self).events@,
            is_new_barline(final(self).events@.last(), pipe_barline(old(self).input@, old(self).pos as int).0),
            final(self).last_duration == old(self).last_duration,
            final(self).current_base_octave == old(self).current_base_octave,
            final(self).same_spans(old(self)),
    {
        let next = peek(self.input, self.pos + 1);
        if next == Some(124u8) {
            if peek(self.input, self.pos + 2) == Some(58u8) {
                self.push_barline("repeat-start", 3);
            } else {
                self.push_barline("double", 2);
            }
        } else if next == Some(58u8) {
            self.push_barline("repeat-start", 2);
        } else if next == Some(46u8) {
            self.push_barline("final", 2);
        } else {
            self.push_barline("single", 1);
        }
    }

    /// What `handle_colon` guarantees, `next` being the parser after it.
    pub open spec fn colon_post(&self, next: Parser<'a>) -> bool {
        &&& (next.advanced(self))
        &&& (next.last_duration == self.last_duration)
        &&& (next.current_base_octave == self.current_base_octave)
        &&& (next.same_spans(self))
        &&& (match colon_barline(self.input@, self.pos as int) {
            Some((style, width)) => {
                &&& next.pos == self.pos + width
                &&& next.events@.len() == self.events@.len() + 1
                &&& next.events@.drop_last() == self.events@
                &&& is_new_barline(next.events@.last(), style)
            },
            None => next.pos == self.pos + 1 && next.events@ == self.events@,
        })
        &&& (self.only_reads(next))
        &&& (next.last_color_target == if colon_barline(self.input@, self.pos as int) is Some { Some(LastColorTarget::Barline) } else { self.last_color_target })
    }

    /// Barlines starting with `:`: `:||:` and `:|:` repeat both ways, `:||`
    /// and `:|` repeat-end; a lone `:` is skipped.
    fn handle_colon(&mut self)
        requires
            old(self).inv(),
            old(self).pos < old(self).input@.len(),
            old(self).input@[old(self).pos as int] == 58,
        ensures
            final(self).last_color_target == if colon_barline(old(self).input@, old(self).pos as int) is Some { Some(LastColorTarget::Barline) } else { old(self).last_color_target },
            old(self).only_reads(*final(self)),
            final(self).advanced(old(self)),
            final(self).last_duration == old(self).last_duration,
            final(self).current_base_octave == old(self).current_base_octave,
            final(self).same_spans(old(self)),
            match colon_barline(old(self).input@, old(self).pos as int) {
                Some((style, width)) => {
                    &&& final(self).pos == old(self).pos + width
                    &&& final(self).events@.len() == old(self).events@.len() + 1
                    &&& final(self).events@.drop_last() == old(self).events@
                    &&& is_new_barline(final(self).events@.last(), style)
                },
                None => final(self).pos == old(self).pos + 1 && final(self).events@ == old(self).events@,
            },
    {
        let next = peek(self.input, self.pos + 1);
        if next == Some(124u8) {
            if peek(self.input, self.pos + 2) == Some(124u8) && peek(self.input, self.pos + 3)
                == Some(58u8) {
                self.push_barline("repeat-both", 4);
            } else if peek(self.input, self.pos + 2) == Some(58u8) {
                self.push_barline("repeat-both", 3);
            } else if peek(self.input, self.pos + 2) == Some(124u8) {
                self.push_barline("repeat-end", 3);
            } else {
                self.push_barline("repeat-end", 2);
            }
        } else {
            self.pos = self.pos + 1;
        }
    }

    /// An accidental and octave marks at `p`, relative to the current clef's
    /// base octave.
    fn parse_note_pitch(&self, p: usize) -> (r: (Option<String>, i32, usize))
        requires
            self.inv(),
            p <= self.input@.len(),
        ensures
            p <= r.2 <= self.input@.len(),
            opt_view(r.0) == crate::note_colors::spec_accidental_at(self.input@, p as int).0,
            (r.1 as int, r.2 as int) == crate::lexer::spec_octave_markers(
                self.input@,
                crate::note_colors::spec_accidental_at(self.input@, p as int).1,
                self.current_base_octave as int,
            ),
    {
        let (accidental, p2) = accidental_at(self.input, p);
        let (octave, p3) = parse_octave_markers(self.input, p2, self.current_base_octave);
        (accidental, octave, p3)
    }
}

} // verus!

verus! {

/// A chord note without a colour, or with the colour given right after it.
fn chord_note(name: String, accidental: Option<String>, octave: i32, color: Option<String>) -> (n: ChordNote)
    ensures
        n.name == name,
        n.accidental == accidental,
        n.octave == octave,
        n.color == color,
{
    ChordNote { name, accidental, octave, color }
}

impl<'a> Parser<'a> {
    /// What `handle_chord` guarantees, `next` being the parser after it.
    pub open spec fn chord_post(&self, next: Parser<'a>) -> bool {
        &&& (next.advanced(self))
        &&& (next.same_spans(self))
        &&& (next.current_base_octave == self.current_base_octave)
        &&& (chord_body(self.input@, self.pos + 1, self.current_base_octave as int) is Some
            && chord_heads(self.input@, self.pos + 1, self.current_base_octave as int).len() > 0
            ==> {
            let heads = chord_heads(self.input@, self.pos + 1, self.current_base_octave as int);
            let close = chord_close(self.input@, self.pos + 1, self.current_base_octave as int);
            let dd = crate::lexer::spec_duration_dots(self.input@, close + 1, self.last_duration as int);
            &&& next.events@.len() == self.events@.len() + 1
            &&& next.events@.drop_last() == self.events@
            &&& next.events@.last() matches Event::Chord(c) && c.duration == dd.0 && c.dots == dd.1
                && c.notes@.len() == heads.len() && forall|k: int|
                0 <= k < heads.len() ==> chord_note_is(#[trigger] c.notes@[k], heads[k])
            &&& next.last_duration == dd.0
            &&& quiet_follow(self.input@, dd.2) ==> next.pos == dd.2
            &&& next.pos == attachments_end(self.input@, dd.2)
            &&& carries_marks(next.events@.last(), self.input@, dd.2)
            &&& unspanned(next.events@.last())
            &&& next.last_color_target == Some(LastColorTarget::Event(attachments_target(self.input@, dd.2)))
        })
        &&& (self.only_reads(next))
    }

    /// A chord `<c e g>`: its notes (each optionally followed by
    /// `color{...}`), then a duration, dots and attachments as for a note.
    /// A chord without notes is dropped, though its duration still sticks.
    #[verifier::spinoff_prover]
    #[verifier::rlimit(30)]
    fn handle_chord(&mut self)
        requires
            old(self).inv(),
            old(self).pos < old(self).input@.len(),
            old(self).input@[old(self).pos as int] == 60,
        ensures
            old(self).only_reads(*final(self)),
            final(self).advanced(old(self)),
            final(self).same_spans(old(self)),
            final(self).current_base_octave == old(self).current_base_octave,
            chord_body(old(self).input@, old(self).pos + 1, old(self).current_base_octave as int) is Some
                && chord_heads(old(self).input@, old(self).pos + 1, old(self).current_base_octave as int).len() > 0
                ==> {
                let heads = chord_heads(old(self).input@, old(self).pos + 1, old(self).current_base_octave as int);
                let close = chord_close(old(self).input@, old(self).pos + 1, old(self).current_base_octave as int);
                let dd = crate::lexer::spec_duration_dots(old(self).input@, close + 1, old(self).last_duration as int);
                &&& final(self).events@.len() == old(self).events@.len() + 1
                &&& final(self).events@.drop_last() == old(self).events@
                &&& final(self).events@.last() matches Event::Chord(c) && c.duration == dd.0 && c.dots == dd.1
                    && c.notes@.len() == heads.len() && forall|k: int|
                    0 <= k < heads.len() ==> chord_note_is(#[trigger] c.notes@[k], heads[k])
                &&& final(self).last_duration == dd.0
                &&& quiet_follow(old(self).input@, dd.2) ==> final(self).pos == dd.2
                &&& final(self).pos == attachments_end(old(self).input@, dd.2)
                &&& carries_marks(final(self).events@.last(), old(self).input@, dd.2)
                &&& unspanned(final(self).events@.last())
                &&& final(self).last_color_target == Some(LastColorTarget::Event(attachments_target(old(self).input@, dd.2)))
            },
    {
        let ghost b = self.input@;
        let ghost base = self.current_base_octave as int;
        let ghost plain = chord_body(b, self.pos + 1, base) is Some;
        let ghost heads = chord_heads(b, self.pos + 1, base);
        let ghost close = chord_close(b, self.pos + 1, base);
        self.pos = self.pos + 1;
        let mut chord_notes: Vec<ChordNote> = Vec::new();
        let color_word: [u8; 5] = [99, 111, 108, 111, 114];
        proof {
            if plain {
                assert(heads.skip(0) =~= heads);
            }
        }
        while self.pos < self.input.len() && self.input[self.pos] != 62
            invariant
                self.inv(),
                self.input == old(self).input,
                old(self).pos < self.pos,
                self.events == old(self).events,
                *self == (Parser { pos: self.pos, ..*old(self) }),
                self.same_spans(old(self)),
                self.current_base_octave == old(self).current_base_octave,
                self.last_duration == old(self).last_duration,
                b == self.input@,
                base == self.current_base_octave,
                color_word@ == seq![99u8, 111u8, 108u8, 111u8, 114u8],
                forall|k: int| 0 <= k < chord_notes@.len() ==> note_name_ok(#[trigger] chord_notes@[k].name@),
                plain ==> chord_body(b, self.pos as int, base) is Some,
                plain ==> chord_close(b, self.pos as int, base) == close,
                plain ==> chord_notes@.len() <= heads.len(),
                plain ==> chord_heads(b, self.pos as int, base) == heads.skip(chord_notes@.len() as int),
                plain ==> forall|k: int|
                    0 <= k < chord_notes@.len() ==> chord_note_is(#[trigger] chord_notes@[k], heads[k]),
            decreases self.input.len() - self.pos,
        {
            let ghost pos0 = self.pos as int;
            let ghost n0 = chord_notes@.len() as int;
            let c = self.input[self.pos];
            if is_whitespace_char(c) {
                self.pos = self.pos + 1;
            } else if 97 <= c && c <= 103 {
                let name = letter_string(c);
                self.pos = self.pos + 1;
                let (accidental, octave, p2) = self.parse_note_pitch(self.pos);
                self.pos = p2;
                let mut color: Option<String> = None;
                if self.pos + 5 < self.input.len() && matches_at(self.input, self.pos, &color_word) {
                    match parse_color_call(self.input, self.pos + 5) {
                        Some((value, None, next)) => {
                            if value.unicode_len() != 0 {
                                color = Some(value);
                            }
                            self.pos = next;
                        },
                        _ => {},
                    }
                }
                let ghost before = chord_notes@;
                assert(note_name_ok(name@)) by {
                    assert(name@[0] == c as char);
                    assert(97 <= c as u32 <= 103);
                }
                chord_notes.push(chord_note(name, accidental, octave, color));
                proof {
                    assert forall|k: int| 0 <= k < chord_notes@.len() implies note_name_ok(
                        #[trigger] chord_notes@[k].name@,
                    ) by {
                        if k < n0 {
                            assert(chord_notes@[k] == before[k]);
                            assert(note_name_ok(before[k].name@));
                        } else {
                            assert(chord_notes@[k].name == name);
                        }
                    }
                    if plain {
                        let rest = chord_heads(b, p2 as int, base);
                        assert(heads.skip(n0) == seq![chord_heads(b, pos0, base)[0]] + rest);
                        assert(heads[n0] == heads.skip(n0)[0]);
                        assert(heads.skip(n0 + 1) =~= heads.skip(n0).drop_first());
                        assert((seq![chord_heads(b, pos0, base)[0]] + rest).drop_first() =~= rest);
                        assert forall|k: int| 0 <= k < chord_notes@.len() implies chord_note_is(
                            #[trigger] chord_notes@[k],
                            heads[k],
                        ) by {
                            if k < n0 {
                                assert(chord_notes@[k] == before[k]);
                            }
                        }
                    }
                }
            } else {
                self.pos = self.pos + 1;
            }
        }
        proof {
            if plain {
                lemma_chord_body_bounds(b, self.pos as int, base);
                assert(self.pos == close);
                assert(heads.skip(chord_notes@.len() as int).len() == 0);
            }
        }
        if self.pos < self.input.len() && self.input[self.pos] == 62 {
            self.pos = self.pos + 1;
        }
        let (duration, dots, p3) = parse_duration_dots(self.input, self.pos, self.last_duration);
        let (att, p4) = parse_note_attachments(self.input, p3);
        self.pos = p4;
        self.last_duration = duration;
        if chord_notes.len() > 0 {
            let target = att.last_color_target;
            self.events.push(
                Event::Chord(
                    Chord {
                        notes: chord_notes,
                        duration,
                        dots,
                        tie: att.tie,
                        slur_start: att.slur_start,
                        slur_end: att.slur_end,
                        beam_start: att.beam_start,
                        beam_end: att.beam_end,
                        articulations: att.articulations,
                        dynamic: att.dynamic,
                        hairpin: None,
                        hairpin_start: false,
                        hairpin_end: false,
                        trill: att.trill,
                        trill_line: false,
                        trill_start: false,
                        trill_end: false,
                        grace: false,
                        grace_slash: false,
                        ending: None,
                        ending_start: false,
                        ending_end: false,
                        fingering: att.fingering,
                        fingering_position: att.fingering_position,
                        chord_symbol: att.chord_symbol,
                        staff_markers: att.staff_markers,
                        staff_text: att.staff_text,
                        expression_text: att.expression_text,
                        lyrics: att.lyrics,
                        tuplet_beats: 0,
                        tuplet_number: 0,
                        tuplet_count: 0,
                        tuplet_start: false,
                        tuplet_end: false,
                        octave_line_number: 0,
                        octave_line_direction: None,
                        octave_line_start: false,
                        octave_line_end: false,
                        colors: ElementColors::new(),
                    },
                ),
            );
            self.last_color_target = Some(LastColorTarget::Event(target));
        }
    }

    /// What `handle_note` guarantees, `next` being the parser after it.
    pub open spec fn note_post(&self, next: Parser<'a>) -> bool {
        &&& (next.advanced(self))
        &&& (next.events@.len() == self.events@.len() + 1)
        &&& (next.events@.drop_last() == self.events@)
        &&& (is_note_with_head(
            next.events@.last(),
            self.input@[self.pos as int],
            note_head(
                self.input@,
                self.pos as int,
                self.current_base_octave as int,
                self.last_duration as int,
            ),
        ))
        &&& (next.last_duration as int == note_head(
            self.input@,
            self.pos as int,
            self.current_base_octave as int,
            self.last_duration as int,
        ).2)
        &&& (next.pos >= note_head(
            self.input@,
            self.pos as int,
            self.current_base_octave as int,
            self.last_duration as int,
        ).4)
        &&& (next.current_base_octave == self.current_base_octave)
        &&& (next.same_spans(self))
        &&& (quiet_follow(
            self.input@,
            note_head(
                self.input@,
                self.pos as int,
                self.current_base_octave as int,
                self.last_duration as int,
            ).4,
        ) ==> next.pos == note_head(
            self.input@,
            self.pos as int,
            self.current_base_octave as int,
            self.last_duration as int,
        ).4)
        &&& (({
            let x = note_head(
                self.input@,
                self.pos as int,
                self.current_base_octave as int,
                self.last_duration as int,
            ).4;
            next.pos == attachments_end(self.input@, x) && carries_marks(
                next.events@.last(),
                self.input@,
                x,
            ) && next.last_color_target == Some(LastColorTarget::Event(attachments_target(self.input@, x)))
        }))
        &&& (unspanned(next.events@.last()))
        &&& (self.only_reads(next))
    }

    /// A note `a`-`g`: accidental, octave marks, duration, dots, attachments.
    fn handle_note(&mut self)
        requires
            old(self).inv(),
            old(self).pos < old(self).input@.len(),
            97 <= old(self).input@[old(self).pos as int] <= 103,
        ensures
            old(self).only_reads(*final(self)),
            final(self).advanced(old(self)),
            final(self).events@.len() == old(self).events@.len() + 1,
            final(self).events@.drop_last() == old(self).events@,
            is_note_with_head(
                final(self).events@.last(),
                old(self).input@[old(self).pos as int],
                note_head(
                    old(self).input@,
                    old(self).pos as int,
                    old(self).current_base_octave as int,
                    old(self).last_duration as int,
                ),
            ),
            final(self).last_duration as int == note_head(
                old(self).input@,
                old(self).pos as int,
                old(self).current_base_octave as int,
                old(self).last_duration as int,
            ).2,
            final(self).pos >= note_head(
                old(self).input@,
                old(self).pos as int,
                old(self).current_base_octave as int,
                old(self).last_duration as int,
            ).4,
            final(self).current_base_octave == old(self).current_base_octave,
            final(self).same_spans(old(self)),
            quiet_follow(
                old(self).input@,
                note_head(
                    old(self).input@,
                    old(self).pos as int,
                    old(self).current_base_octave as int,
                    old(self).last_duration as int,
                ).4,
            ) ==> final(self).pos == note_head(
                old(self).input@,
                old(self).pos as int,
                old(self).current_base_octave as int,
                old(self).last_duration as int,
            ).4,
            ({
                let x = note_head(
                    old(self).input@,
                    old(self).pos as int,
                    old(self).current_base_octave as int,
                    old(self).last_duration as int,
                ).4;
                final(self).pos == attachments_end(old(self).input@, x) && carries_marks(
                    final(self).events@.last(),
                    old(self).input@,
                    x,
                ) && final(self).last_color_target == Some(
                    LastColorTarget::Event(attachments_target(old(self).input@, x)),
                )
            }),
            unspanned(final(self).events@.last()),
    {
        let name = letter_string(self.input[self.pos]);
        self.pos = self.pos + 1;
        let (accidental, octave, p2) = self.parse_note_pitch(self.pos);
        let (duration, dots, p3) = parse_duration_dots(self.input, p2, self.last_duration);
        let (att, p4) = parse_note_attachments(self.input, p3);
        self.pos = p4;
        self.last_duration = duration;
        let mut note = Note::new(name.as_str(), octave);
        note.accidental = accidental;
        note.duration = duration;
        note.dots = dots;
        note.tie = att.tie;
        note.slur_start = att.slur_start;
        note.slur_end = att.slur_end;
        note.beam_start = att.beam_start;
        note.beam_end = att.beam_end;
        note.articulations = att.articulations;
        note.dynamic = att.dynamic;
        note.trill = att.trill;
        note.fingering = att.fingering;
        note.fingering_position = att.fingering_position;
        note.chord_symbol = att.chord_symbol;
        note.staff_markers = att.staff_markers;
        note.staff_text = att.staff_text;
        note.expression_text = att.expression_text;
        note.lyrics = att.lyrics;
        self.events.push(Event::Note(note));
        self.last_color_target = Some(LastColorTarget::Event(att.last_color_target));
    }

    /// What `handle_rest` guarantees, `next` being the parser after it.
    pub open spec fn rest_post(&self, next: Parser<'a>) -> bool {
        &&& (next.advanced(self))
        &&& (next.events@.len() == self.events@.len() + 1)
        &&& (next.events@.drop_last() == self.events@)
        &&& (next.events@.last() matches Event::Rest(r) && (r.duration as int, r.dots as int)
            == (crate::lexer::spec_duration_dots(self.input@, self.pos + 1, self.last_duration as int).0,
            crate::lexer::spec_duration_dots(self.input@, self.pos + 1, self.last_duration as int).1))
        &&& (next.last_duration as int == crate::lexer::spec_duration_dots(
            self.input@,
            self.pos + 1,
            self.last_duration as int,
        ).0)
        &&& (next.current_base_octave == self.current_base_octave)
        &&& (next.same_spans(self))
        &&& (quiet_follow(
            self.input@,
            crate::lexer::spec_duration_dots(self.input@, self.pos + 1, self.last_duration as int).2,
        ) ==> next.pos == crate::lexer::spec_duration_dots(
            self.input@,
            self.pos + 1,
            self.last_duration as int,
        ).2)
        &&& (({
            let x = crate::lexer::spec_duration_dots(self.input@, self.pos + 1, self.last_duration as int).2;
            next.pos == attachments_end(self.input@, x) && carries_marks(
                next.events@.last(),
                self.input@,
                x,
            ) && next.last_color_target == Some(LastColorTarget::Event(attachments_target(self.input@, x)))
        }))
        &&& (unspanned(next.events@.last()))
        &&& (self.only_reads(next))
    }

    /// A rest `r`: duration, dots, then the attachments a rest can carry.
    fn handle_rest(&mut self)
        requires
            old(self).inv(),
            old(self).pos < old(self).input@.len(),
        ensures
            old(self).only_reads(*final(self)),
            final(self).advanced(old(self)),
            final(self).events@.len() == old(self).events@.len() + 1,
            final(self).events@.drop_last() == old(self).events@,
            final(self).events@.last() matches Event::Rest(r) && (r.duration as int, r.dots as int)
                == (crate::lexer::spec_duration_dots(old(self).input@, old(self).pos + 1, old(self).last_duration as int).0,
                crate::lexer::spec_duration_dots(old(self).input@, old(self).pos + 1, old(self).last_duration as int).1),
            final(self).last_duration as int == crate::lexer::spec_duration_dots(
                old(self).input@,
                old(self).pos + 1,
                old(self).last_duration as int,
            ).0,
            final(self).current_base_octave == old(self).current_base_octave,
            final(self).same_spans(old(self)),
            quiet_follow(
                old(self).input@,
                crate::lexer::spec_duration_dots(old(self).input@, old(self).pos + 1, old(self).last_duration as int).2,
            ) ==> final(self).pos == crate::lexer::spec_duration_dots(
                old(self).input@,
                old(self).pos + 1,
                old(self).last_duration as int,
            ).2,
            ({
                let x = crate::lexer::spec_duration_dots(old(self).input@, old(self).pos + 1, old(self).last_duration as int).2;
                final(self).pos == attachments_end(old(self).input@, x) && carries_marks(
                    final(self).events@.last(),
                    old(self).input@,
                    x,
                ) && final(self).last_color_target == Some(
                    LastColorTarget::Event(attachments_target(old(self).input@, x)),
                )
            }),
            unspanned(final(self).events@.last()),
    {
        self.pos = self.pos + 1;
        let (duration, dots, p) = parse_duration_dots(self.input, self.pos, self.last_duration);
        let (att, p) = parse_note_attachments(self.input, p);
        self.pos = p;
        self.last_duration = duration;
        let mut rest = Rest::new(duration);
        rest.dots = dots;
        rest.dynamic = att.dynamic;
        rest.chord_symbol = att.chord_symbol;
        rest.staff_markers = att.staff_markers;
        rest.staff_text = att.staff_text;
        rest.expression_text = att.expression_text;
        rest.lyrics = att.lyrics;
        self.events.push(Event::Rest(rest));
        self.last_color_target = Some(LastColorTarget::Event(att.last_color_target));
    }

    /// What `handle_spacer` guarantees, `next` being the parser after it.
    pub open spec fn spacer_post(&self, next: Parser<'a>) -> bool {
        &&& (next.advanced(self))
        &&& (next.pos == crate::lexer::spec_duration_dots(self.input@, self.pos + 1, self.last_duration as int).2)
        &&& (next.events@.len() == self.events@.len() + 1)
        &&& (next.events@.drop_last() == self.events@)
        &&& (unspanned(next.events@.last()))
        &&& (next.events@.last() matches Event::Spacer(sp) && (sp.duration as int, sp.dots as int)
            == (crate::lexer::spec_duration_dots(self.input@, self.pos + 1, self.last_duration as int).0,
            crate::lexer::spec_duration_dots(self.input@, self.pos + 1, self.last_duration as int).1))
        &&& (next.last_duration as int == crate::lexer::spec_duration_dots(
            self.input@,
            self.pos + 1,
            self.last_duration as int,
        ).0)
        &&& (next.current_base_octave == self.current_base_octave)
        &&& (next.same_spans(self))
        &&& (self.only_reads(next))
        &&& (next.last_color_target == Some(LastColorTarget::Spacer))
    }

    /// A spacer `s`: duration and dots only.
    fn handle_spacer(&mut self)
        requires
            old(self).inv(),
            old(self).pos < old(self).input@.len(),
        ensures
            final(self).last_color_target == Some(LastColorTarget::Spacer),
            old(self).only_reads(*final(self)),
            final(self).advanced(old(self)),
            final(self).pos == crate::lexer::spec_duration_dots(old(self).input@, old(self).pos + 1, old(self).last_duration as int).2,
            final(self).events@.len() == old(self).events@.len() + 1,
            final(self).events@.drop_last() == old(self).events@,
            unspanned(final(self).events@.last()),
            final(self).events@.last() matches Event::Spacer(sp) && (sp.duration as int, sp.dots as int)
                == (crate::lexer::spec_duration_dots(old(self).input@, old(self).pos + 1, old(self).last_duration as int).0,
                crate::lexer::spec_duration_dots(old(self).input@, old(self).pos + 1, old(self).last_duration as int).1),
            final(self).last_duration as int == crate::lexer::spec_duration_dots(
                old(self).input@,
                old(self).pos + 1,
                old(self).last_duration as int,
            ).0,
            final(self).current_base_octave == old(self).current_base_octave,
            final(self).same_spans(old(self)),
    {
        self.pos = self.pos + 1;
        let (duration, dots, p) = parse_duration_dots(self.input, self.pos, self.last_duration);
        self.pos = p;
        self.last_duration = duration;
        self.events.push(
            Event::Spacer(
                Spacer {
                    duration,
                    dots,
                    ending: None,
                    ending_start: false,
                    ending_end: false,
                    color: None,
                },
            ),
        );
        self.last_color_target = Some(LastColorTarget::Spacer);
    }

    /// What `handle_slur_mark` guarantees, `next` being the parser after it.
    pub open spec fn slur_post(&self, next: Parser<'a>, start: bool) -> bool {
        &&& (next.advanced(self))
        &&& (self.slur_marked(next, start))
    }

    /// A `(` or `)` apart from a note starts or ends a slur on the last
    /// event if that is a note.
    fn handle_slur_mark(&mut self, start: bool)
        requires
            old(self).inv(),
            old(self).pos < old(self).input@.len(),
        ensures
            final(self).advanced(old(self)),
            old(self).slur_marked(*final(self), start),
    {
        let n = self.events.len();
        if n > 0 && matches!(self.events[n - 1], Event::Note(_)) {
            let ghost before = self.events@;
            let _ = set_slur_flag(&mut self.events[n - 1], start);
            proof {
                assert(self.events@ =~= before.drop_last().push(self.events@[n - 1]));
                lemma_slur_keeps_wf(before[n - 1], self.events@[n - 1]);
                assert forall|k: int| 0 <= k < n implies event_wf(#[trigger] self.events@[k]) by {
                    if k != n - 1 {
                        assert(self.events@[k] == before[k]);
                    }
                }
            }
            self.last_color_target = Some(LastColorTarget::Event(EventColorTarget::Slur));
        }
        self.pos = self.pos + 1;
    }

    /// What `handle_tuplet_open` guarantees, `next` being the parser after it.
    pub open spec fn tuplet_open_post(&self, next: Parser<'a>) -> bool {
        &&& (next.advanced(self))
        &&& (self.tuplet_opened(next))
    }

    /// `{n,m:` opens a tuplet of `n` notes in the time of `m` (`{n:` being
    /// `n` in the time of `n`); a `{` without a number is skipped.
    fn handle_tuplet_open(&mut self)
        requires
            old(self).inv(),
            old(self).pos < old(self).input@.len(),
        ensures
            final(self).advanced(old(self)),
            old(self).tuplet_opened(*final(self)),
    {
        let ghost b = self.input@;
        let ghost p0 = self.pos as int;
        self.pos = self.pos + 1;
        while self.pos < self.input.len() && is_whitespace_char(self.input[self.pos])
            invariant
                self.inv(),
                self.input == old(self).input,
                old(self).pos < self.pos,
                *self == (Parser { pos: self.pos, ..*old(self) }),
                b == old(self).input@,
                p0 == old(self).pos,
                forall|k: int| p0 + 1 <= k < self.pos ==> crate::text::spec_is_whitespace_char(#[trigger] b[k]),
            decreases self.input.len() - self.pos,
        {
            self.pos = self.pos + 1;
        }
        proof {
            lemma_blank_run_end_is(b, p0 + 1, self.pos as int);
        }
        let n_start = self.pos;
        let n_len = read_digit_run(self.input, self.pos);
        proof {
            crate::lexer::lemma_digit_run_bounds(self.input@, n_start as int);
        }
        self.pos = self.pos + n_len;
        if n_len > 0 {
            let tb = match digits_to_i32(self.input, n_start, n_start + n_len) {
                Some(v) => v,
                None => 0,
            };
            let mut tn = tb;
            if self.pos < self.input.len() && self.input[self.pos] == 44 {
                self.pos = self.pos + 1;
                let m_start = self.pos;
                let m_len = read_digit_run(self.input, self.pos);
                proof {
                    crate::lexer::lemma_digit_run_bounds(self.input@, m_start as int);
                }
                self.pos = self.pos + m_len;
                if m_len > 0 {
                    tn = match digits_to_i32(self.input, m_start, m_start + m_len) {
                        Some(v) => v,
                        None => tn,
                    };
                }
            }
            if self.pos < self.input.len() && self.input[self.pos] == 58 {
                self.pos = self.pos + 1;
            }
            let ws_start = self.pos;
            while self.pos < self.input.len() && is_whitespace_char(self.input[self.pos])
                invariant
                    self.inv(),
                    self.input == old(self).input,
                    old(self).pos + 1 < self.pos,
                    ws_start <= self.pos,
                    *self == (Parser { pos: self.pos, ..*old(self) }),
                    b == old(self).input@,
                    forall|k: int| ws_start <= k < self.pos ==> crate::text::spec_is_whitespace_char(#[trigger] b[k]),
                decreases self.input.len() - self.pos,
            {
                self.pos = self.pos + 1;
            }
            proof {
                lemma_blank_run_end_is(b, ws_start as int, self.pos as int);
            }
            self.tuplet_start_idx = Some(self.events.len());
            self.tuplet_n = tn;
            self.tuplet_m = tb;
            self.curly_open_serial = self.curly_open_serial + 1;
            self.tuplet_open_order = Some(self.curly_open_serial);
        }
    }

    /// What `try_digit_token` guarantees, `next` being the parser after it.
    pub open spec fn digit_post(&self, next: Parser<'a>, r: bool) -> bool {
        &&& (r ==> next.advanced(self))
        &&& (!r ==> next == *self)
        &&& (digit_time_at(self.input@, self.pos as int) ==> {
            let b = self.input@;
            let p = self.pos as int;
            let n = crate::lexer::spec_digit_run(b, p);
            &&& r
            &&& next.pos == digit_time_end(b, p)
            &&& next.events@.len() == self.events@.len() + 1
            &&& next.events@.drop_last() == self.events@
            &&& next.events@.last() matches Event::TimeSig(ts) && time_sig_is(
                ts,
                (digits_or_zero(b, p, p + n), digits_or_zero(b, p + n + 1, digit_time_end(b, p)), None),
            )
            &&& next.last_duration == self.last_duration
            &&& next.current_base_octave == self.current_base_octave
            &&& next.same_spans(self)
            &&& self.only_reads(next)
        })
        &&& (self.digit_opens(next, r))
        &&& (r ==> digit_time_at(self.input@, self.pos as int) || self.octline_at())
        &&& (digit_time_at(self.input@, self.pos as int) ==> next.last_color_target == Some(LastColorTarget::TimeSig))
    }

    /// A number at `p`: `upper/lower` followed by white space, a barline,
    /// a newline or the end is a time signature; `na{` / `nb{` opens an octave
    /// line above or below.
    fn try_digit_token(&mut self) -> (r: bool)
        requires
            old(self).inv(),
            old(self).pos < old(self).input@.len(),
        ensures
            digit_time_at(old(self).input@, old(self).pos as int) ==> final(self).last_color_target == Some(LastColorTarget::TimeSig),
            r ==> final(self).advanced(old(self)),
            !r ==> *final(self) == *old(self),
            r ==> digit_time_at(old(self).input@, old(self).pos as int) || old(self).octline_at(),
            digit_time_at(old(self).input@, old(self).pos as int) ==> {
                let b = old(self).input@;
                let p = old(self).pos as int;
                let n = crate::lexer::spec_digit_run(b, p);
                &&& r
                &&& final(self).pos == digit_time_end(b, p)
                &&& final(self).events@.len() == old(self).events@.len() + 1
                &&& final(self).events@.drop_last() == old(self).events@
                &&& final(self).events@.last() matches Event::TimeSig(ts) && time_sig_is(
                    ts,
                    (digits_or_zero(b, p, p + n), digits_or_zero(b, p + n + 1, digit_time_end(b, p)), None),
                )
                &&& final(self).last_duration == old(self).last_duration
                &&& final(self).current_base_octave == old(self).current_base_octave
                &&& final(self).same_spans(old(self))
                &&& old(self).only_reads(*final(self))
            },
            old(self).digit_opens(*final(self), r),
    {
        let start = self.pos;
        let n_len = read_digit_run(self.input, start);
        proof {
            crate::lexer::lemma_digit_run_bounds(self.input@, start as int);
        }
        if n_len == 0 {
            return false;
        }
        let p = start + n_len;
        if p < self.input.len() && self.input[p] == 47 {
            let d_len = read_digit_run(self.input, p + 1);
            proof {
                crate::lexer::lemma_digit_run_bounds(self.input@, p + 1);
            }
            let q = p + 1 + d_len;
            if d_len > 0 {
                let next = peek(self.input, q);
                if next.is_none() || next == Some(32u8) || next == Some(9u8) || next == Some(124u8)
                    || next == Some(10u8) || next == Some(13u8) {
                    let upper = match digits_to_i32(self.input, start, p) {
                        Some(v) => v,
                        None => 0,
                    };
                    let lower = match digits_to_i32(self.input, p + 1, q) {
                        Some(v) => v,
                        None => 0,
                    };
                    self.events.push(Event::TimeSig(time_sig(upper, lower, None)));
                    self.last_color_target = Some(LastColorTarget::TimeSig);
                    self.pos = q;
                    return true;
                }
            }
        }
        if p < self.input.len() {
            let suf = self.input[p];
            if suf == 97 || suf == 98 {
                let mut q = p + 1;
                while q < self.input.len() && is_whitespace_char(self.input[q])
                    invariant
                        p + 1 <= q <= self.input@.len(),
                        forall|k: int| p + 1 <= k < q ==> crate::text::spec_is_whitespace_char(#[trigger] self.input@[k]),
                    decreases self.input.len() - q,
                {
                    q = q + 1;
                }
                proof {
                    lemma_blank_run_end_is(self.input@, p + 1, q as int);
                }
                if q < self.input.len() && self.input[q] == 123 {
                    let number = match digits_to_i32(self.input, start, p) {
                        Some(v) => v,
                        None => 0,
                    };
                    let dir = if suf == 97 {
                        owned("above")
                    } else {
                        owned("below")
                    };
                    proof {
                        reveal_strlit("above");
                        reveal_strlit("below");
                    }
                    self.open_octline(number, dir, q + 1);
                    return true;
                }
            }
        }
        false
    }

    /// What `handle_close_brace` guarantees, `next` being the parser after it.
    pub open spec fn close_brace_post(&self, next: Parser<'a>) -> bool {
        &&& (next.advanced(self))
        &&& (self.brace_closed(next))
    }

    /// `}` closes the most recently opened span. A grace group closes when it
    /// opened after the other spans; a colour span closes when it opened
    /// after all of them but a grace group, whose order it is not weighed
    /// against.
    fn handle_close_brace(&mut self)
        requires
            old(self).inv(),
            old(self).pos < old(self).input@.len(),
        ensures
            final(self).advanced(old(self)),
            old(self).brace_closed(*final(self)),
    {
        let mut latest_order: i32 = -1;
        let mut close_kind: u8 = 0;
        if let Some(o) = self.tuplet_open_order {
            if o > latest_order {
                latest_order = o;
                close_kind = 1;
            }
        }
        if let Some(o) = self.octline_open_order {
            if o > latest_order {
                latest_order = o;
                close_kind = 2;
            }
        }
        if let Some(o) = self.ending_open_order {
            if o > latest_order {
                latest_order = o;
                close_kind = 3;
            }
        }
        if let Some(o) = self.hairpin_open_order {
            if o > latest_order {
                latest_order = o;
                close_kind = 4;
            }
        }
        if let Some(o) = self.trill_open_order {
            if o > latest_order {
                latest_order = o;
                close_kind = 5;
            }
        }
        if let Some(o) = self.grace_open_order {
            if o > latest_order {
                close_kind = 6;
            }
        }
        let spans = self.color_spans.len();
        if spans > 0 {
            if self.color_spans[spans - 1].open_order > latest_order {
                close_kind = 7;
            }
        }
        if close_kind == 1 {
            self.close_tuplet();
        } else if close_kind == 2 {
            self.close_octline();
        } else if close_kind == 3 {
            self.close_ending();
        } else if close_kind == 4 {
            self.close_hairpin();
        } else if close_kind == 5 {
            self.close_trill();
        } else if close_kind == 6 {
            self.close_grace();
        } else if close_kind == 7 {
            self.close_color_span();
        }
        self.pos = self.pos + 1;
    }

    /// `next` is this parser after the `{` at its position (see
    /// `tuplet_open_read`): moved on, with the tuplet, when one opens,
    /// starting at the next event and opened after all that are open.
    pub open spec fn tuplet_opened(&self, next: Parser<'a>) -> bool {
        let t = tuplet_open_read(self.input@, self.pos as int);
        if t.1 {
            next == (Parser {
                pos: t.0 as usize,
                tuplet_start_idx: Some(self.events.len()),
                tuplet_n: t.2 as i32,
                tuplet_m: t.3 as i32,
                curly_open_serial: (self.curly_open_serial + 1) as i32,
                tuplet_open_order: Some((self.curly_open_serial + 1) as i32),
                ..*self
            })
        } else {
            next == (Parser { pos: t.0 as usize, ..*self })
        }
    }

    /// The span a `}` closes, as the parser picks it: going through the open
    /// tuplet (1), octave line (2), ending (3), hairpin (4) and trill (5),
    /// the one opened last so far; then the grace group (6) when it opened
    /// after that one; then the innermost colour span (7) when it opened
    /// after the last of the first five. 0 when none applies.
    pub open spec fn brace_kind(&self) -> int {
        let c1 = pick_latest((-1, 0), self.tuplet_open_order, 1);
        let c2 = pick_latest(c1, self.octline_open_order, 2);
        let c3 = pick_latest(c2, self.ending_open_order, 3);
        let c4 = pick_latest(c3, self.hairpin_open_order, 4);
        let c5 = pick_latest(c4, self.trill_open_order, 5);
        let c6 = match self.grace_open_order {
            Some(x) => if x > c5.0 {
                (c5.0, 6)
            } else {
                c5
            },
            None => c5,
        };
        if self.color_spans@.len() > 0 && self.color_spans@.last().open_order > c6.0 {
            7
        } else {
            c6.1
        }
    }

    /// `next` is this parser after a `}`: one position on, with the span
    /// that `brace_kind` picks closed and nothing else changed.
    pub open spec fn brace_closed(&self, next: Parser<'a>) -> bool {
        let kind = self.brace_kind();
        &&& next.pos == self.pos + 1
        &&& if kind == 1 {
            &&& next == (Parser { events: next.events, pos: next.pos, tuplet_start_idx: None, tuplet_open_order: None, ..*self })
            &&& tuplet_closed(self.tuplet_start_idx, self.tuplet_m, self.tuplet_n, self.events@, next.events@)
        } else if kind == 2 {
            &&& next == (Parser {
                events: next.events,
                pos: next.pos,
                octline_start_idx: None,
                octline_dir: None,
                octline_open_order: None,
                ..*self
            })
            &&& octline_closed(self.octline_start_idx, self.octline_number, self.octline_dir, self.events@, next.events@)
        } else if kind == 3 {
            &&& next == (Parser {
                events: next.events,
                pos: next.pos,
                ending_start_idx: None,
                ending_label: None,
                ending_open_order: None,
                ..*self
            })
            &&& ending_closed(self.ending_start_idx, self.ending_label, self.events@, next.events@)
        } else if kind == 4 {
            &&& next == (Parser {
                events: next.events,
                pos: next.pos,
                hairpin_start_idx: None,
                hairpin_kind: None,
                hairpin_open_order: None,
                ..*self
            })
            &&& hairpin_closed(self.hairpin_start_idx, self.hairpin_kind, self.events@, next.events@)
        } else if kind == 5 {
            &&& next == (Parser { events: next.events, pos: next.pos, trill_start_idx: None, trill_open_order: None, ..*self })
            &&& trill_closed(self.trill_start_idx, self.events@, next.events@)
        } else if kind == 6 {
            &&& next == (Parser {
                events: next.events,
                pos: next.pos,
                grace_start_idx: None,
                grace_slash: false,
                grace_open_order: None,
                ..*self
            })
            &&& grace_closed(self.grace_start_idx, self.grace_slash, self.events@, next.events@)
        } else if kind == 7 {
            &&& next == (Parser { events: next.events, pos: next.pos, color_spans: next.color_spans, ..*self })
            &&& next.color_spans@ == self.color_spans@.drop_last()
            &&& span_colored(self.color_spans@.last(), self.events@, next.events@)
        } else {
            next == (Parser { pos: next.pos, ..*self })
        }
    }

    /// What `try_upper_time` guarantees, `next` being the parser after it.
    pub open spec fn upper_time_post(&self, next: Parser<'a>, r: bool) -> bool {
        &&& (r ==> next.advanced(self))
        &&& (!r ==> next == *self)
        &&& (upper_time_at(self.input@, self.pos as int) ==> {
            let b = self.input@;
            let p = self.pos as int;
            &&& r
            &&& next.pos == upper_time_end(b, p)
            &&& next.events@.len() == self.events@.len() + 1
            &&& next.events@.drop_last() == self.events@
            &&& next.events@.last() matches Event::TimeSig(ts) && time_sig_is(
                ts,
                if upper_time_end(b, p) == p + 2 {
                    (2, 2, Some("cut"@))
                } else {
                    (4, 4, Some("common"@))
                },
            )
            &&& next.last_duration == self.last_duration
            &&& next.current_base_octave == self.current_base_octave
            &&& next.same_spans(self)
            &&& self.only_reads(next)
        })
        &&& (r ==> upper_time_at(self.input@, self.pos as int))
        &&& (r ==> next.last_color_target == Some(LastColorTarget::TimeSig))
    }

    /// `C` or `C|` followed by white space, a barline, a newline or the end
    /// is a common- or cut-time signature.
    fn try_upper_time(&mut self) -> (r: bool)
        requires
            old(self).inv(),
            old(self).pos < old(self).input@.len(),
            old(self).input@[old(self).pos as int] == 67,
        ensures
            r ==> final(self).last_color_target == Some(LastColorTarget::TimeSig),
            r ==> final(self).advanced(old(self)),
            !r ==> *final(self) == *old(self),
            r ==> upper_time_at(old(self).input@, old(self).pos as int),
            upper_time_at(old(self).input@, old(self).pos as int) ==> {
                let b = old(self).input@;
                let p = old(self).pos as int;
                &&& r
                &&& final(self).pos == upper_time_end(b, p)
                &&& final(self).events@.len() == old(self).events@.len() + 1
                &&& final(self).events@.drop_last() == old(self).events@
                &&& final(self).events@.last() matches Event::TimeSig(ts) && time_sig_is(
                    ts,
                    if upper_time_end(b, p) == p + 2 {
                        (2, 2, Some("cut"@))
                    } else {
                        (4, 4, Some("common"@))
                    },
                )
                &&& final(self).last_duration == old(self).last_duration
                &&& final(self).current_base_octave == old(self).current_base_octave
                &&& final(self).same_spans(old(self))
                &&& old(self).only_reads(*final(self))
            },
    {
        let cut = peek(self.input, self.pos + 1) == Some(124u8);
        let end_pos = if cut {
            self.pos + 2
        } else {
            self.pos + 1
        };
        let next = peek(self.input, end_pos);
        if next.is_none() || next == Some(32u8) || next == Some(9u8) || next == Some(124u8) || next
            == Some(10u8) || next == Some(13u8) {
            let ts = if cut {
                time_sig(2, 2, Some(owned("cut")))
            } else {
                time_sig(4, 4, Some(owned("common")))
            };
            self.events.push(Event::TimeSig(ts));
            self.last_color_target = Some(LastColorTarget::TimeSig);
            self.pos = end_pos;
            return true;
        }
        false
    }
}

} // verus!

verus! {

/// The bytes a voice of a voice group is parsed from: `input[from..to]`,
/// read as UTF-8 and trimmed of white space.
fn voice_source<'b>(input: &'b [u8], from: usize, to: usize, holder: &'b mut String) -> (r: &'b [u8])
    requires
        vstd::utf8::valid_utf8(input@),
        0 < from <= to <= input@.len(),
        input@[from - 1] < 0x80,
        to < input@.len() ==> input@[to as int] < 0x80,
    ensures
        r@ == voice_text(input@, from as int, to as int),
        r@.len() <= to - from,
        vstd::utf8::valid_utf8(r@),
{
    proof {
        crate::text::lemma_ascii_delimited_valid(input@, from - 1, to as int);
    }
    let slice = &input[from..to];
    *holder = utf8_lossy(slice);
    let trimmed = str_trim(holder.as_str());
    let bytes = trimmed.as_bytes();
    proof {
        let s = vstd::utf8::decode_utf8(slice@);
        vstd::utf8::decode_utf8_encode_utf8(slice@);
        crate::text::lemma_trim_encoding_len(s);
        vstd::utf8::encode_utf8_valid_utf8(trim_ws(s));
    }
    bytes
}

impl<'a> Parser<'a> {
    /// A voice group `v{upper;lower}` at the current position: each voice is
    /// parsed on its own from its trimmed text, with the duration and octave
    /// in force, and the two make one event.
    fn try_voice_group(&mut self) -> (r: bool)
        requires
            old(self).inv(),
            old(self).pos < old(self).input@.len(),
            old(self).input@[old(self).pos as int] == 118,
            word_end(old(self).input@, old(self).pos as int) == old(self).pos + 1,
        ensures
            r ==> final(self).advanced(old(self)),
            !r ==> *final(self) == *old(self),
            r == (voice_group_at(old(self).input@, old(self).pos as int) is Some),
            r ==> {
                &&& final(self).pos == (voice_group_at(old(self).input@, old(self).pos as int)->0).2 + 1
                &&& final(self).events@.len() == old(self).events@.len() + 1
                &&& final(self).events@.drop_last() == old(self).events@
                &&& melody_event(
                    old(self).input@,
                    final(self).events@.last(),
                    (118u8, None, old(self).current_base_octave as int, old(self).last_duration as int, 0, Seq::empty(), old(self).pos as int),
                )
                &&& final(self).last_duration == old(self).last_duration
                &&& final(self).current_base_octave == old(self).current_base_octave
                &&& final(self).same_spans(old(self))
                &&& old(self).only_reads(*final(self))
                &&& final(self).last_color_target == old(self).last_color_target
            },
        decreases old(self).input@.len(), 0int,
    {
        let input = self.input;
        let word_end = self.pos + 1;
        let mut group_pos = word_end;
        while group_pos < input.len() && is_whitespace_char(input[group_pos])
            invariant
                word_end <= group_pos <= input@.len(),
                forall|k: int|
                    word_end <= k < group_pos ==> crate::text::spec_is_whitespace_char(#[trigger] input@[k]),
            decreases input.len() - group_pos,
        {
            group_pos = group_pos + 1;
        }
        proof {
            lemma_blank_run_end_is(input@, word_end as int, group_pos as int);
        }
        if let Some((split, close)) = read_voice_group(input, group_pos) {
            let mut upper_holder = String::new();
            let upper_src = voice_source(input, group_pos + 1, split, &mut upper_holder);
            let upper = parse_events(upper_src, self.current_base_octave, self.last_duration);
            let mut lower_holder = String::new();
            let lower_src = voice_source(input, split + 1, close, &mut lower_holder);
            let lower = parse_events(lower_src, self.current_base_octave, self.last_duration);
            let ghost before = self.events@;
            self.events.push(Event::VoiceGroup(VoiceGroup { upper, lower }));
            self.pos = close + 1;
            proof {
                assert(self.events@.drop_last() =~= before);
                assert forall|k: int| 0 <= k < self.events@.len() implies event_wf(#[trigger] self.events@[k]) by {
                    if k < before.len() {
                        assert(self.events@[k] == before[k]);
                    }
                }
            }
            return true;
        }
        false
    }

    /// `next` is this parser with the hairpin left open closed and a hairpin
    /// of `kind` opened at the next event, after every span open so far; the
    /// position moves to `to`.
    pub open spec fn hairpin_reopened(&self, next: Parser<'a>, kind: Seq<char>, to: int) -> bool {
        &&& hairpin_closed(self.hairpin_start_idx, self.hairpin_kind, self.events@, next.events@)
        &&& opt_view(next.hairpin_kind) == Some(kind)
        &&& next == (Parser {
            events: next.events,
            pos: to as usize,
            hairpin_start_idx: Some(self.events.len()),
            hairpin_kind: next.hairpin_kind,
            curly_open_serial: (self.curly_open_serial + 1) as i32,
            hairpin_open_order: Some((self.curly_open_serial + 1) as i32),
            ..*self
        })
    }

    /// `next` is this parser with the trill line left open closed and a
    /// trill line opened at the next event, after every span open so far;
    /// the position moves to `to`.
    pub open spec fn trill_reopened(&self, next: Parser<'a>, to: int) -> bool {
        &&& trill_closed(self.trill_start_idx, self.events@, next.events@)
        &&& next == (Parser {
            events: next.events,
            pos: to as usize,
            trill_start_idx: Some(self.events.len()),
            curly_open_serial: (self.curly_open_serial + 1) as i32,
            trill_open_order: Some((self.curly_open_serial + 1) as i32),
            ..*self
        })
    }

    /// `next` is this parser with the ending left open closed and an ending
    /// labelled `label` opened at the next event, after every span open so
    /// far; the position moves to `to`.
    pub open spec fn ending_reopened(&self, next: Parser<'a>, label: Seq<char>, to: int) -> bool {
        &&& ending_closed(self.ending_start_idx, self.ending_label, self.events@, next.events@)
        &&& opt_view(next.ending_label) == Some(label)
        &&& next == (Parser {
            events: next.events,
            pos: to as usize,
            ending_start_idx: Some(self.events.len()),
            ending_label: next.ending_label,
            curly_open_serial: (self.curly_open_serial + 1) as i32,
            ending_open_order: Some((self.curly_open_serial + 1) as i32),
            ..*self
        })
    }

    /// `next` is this parser with a grace group, not slashed yet, opened at
    /// the next event, after every span open so far; the position moves to
    /// `to`.
    pub open spec fn grace_opened(&self, next: Parser<'a>, to: int) -> bool {
        next == (Parser {
            pos: to as usize,
            grace_start_idx: Some(self.events.len()),
            grace_slash: false,
            curly_open_serial: (self.curly_open_serial + 1) as i32,
            grace_open_order: Some((self.curly_open_serial + 1) as i32),
            ..*self
        })
    }

    /// A span keyword stands at this parser's position (see
    /// `keyword_opens`).
    pub open spec fn keyword_span_at(&self) -> bool {
        let b = self.input@;
        let p = self.pos as int;
        let we = word_end(b, p);
        let w = b.subrange(p, we);
        let brace = crate::lexer::spec_peek(b, we) == Some(123u8);
        let stop = label_stop(b, we + 1);
        ||| w == seq![101u8, 110, 100] && brace && stop < b.len() && b[stop] == 58
        ||| (w == seq![99u8, 114, 101, 115, 99] || w == seq![100u8, 101, 99, 114, 101, 115, 99]) && brace
        ||| w == seq![116u8, 114] && brace
        ||| w == seq![103u8, 114, 97, 99, 101] && brace
        ||| w == seq![99u8, 111, 108, 111, 114] && crate::lexer::spec_color_call(b, we) is Some
    }

    /// The span keywords at this parser's position: `end{label:` opens an
    /// ending labelled with the trimmed text before the `:`, `cresc{` and
    /// `decresc{` a hairpin of that kind, `tr{` a trill line and `grace{` a
    /// grace group (see the `..._reopened` and `grace_opened` relations);
    /// each closes a span of its own kind left open first, except the grace
    /// group.
    pub open spec fn keyword_opens(&self, next: Parser<'a>, r: bool) -> bool {
        let b = self.input@;
        let p = self.pos as int;
        let we = word_end(b, p);
        let w = b.subrange(p, we);
        let brace = crate::lexer::spec_peek(b, we) == Some(123u8);
        let stop = label_stop(b, we + 1);
        &&& (w == seq![101u8, 110, 100] && brace && stop < b.len() && b[stop] == 58) ==> r
            && self.ending_reopened(next, crate::text::trim_ws(crate::text::latin1(b.subrange(we + 1, stop))), stop + 1)
        &&& ((w == seq![99u8, 114, 101, 115, 99] || w == seq![100u8, 101, 99, 114, 101, 115, 99]) && brace)
            ==> r && self.hairpin_reopened(next, crate::text::latin1(w), we + 1)
        &&& (w == seq![116u8, 114] && brace) ==> r && self.trill_reopened(next, we + 1)
        &&& (w == seq![103u8, 114, 97, 99, 101] && brace) ==> r && self.grace_opened(next, we + 1)
        &&& (w == seq![99u8, 111, 108, 111, 114] && crate::lexer::spec_color_call(b, we) is Some) ==> r
            && self.color_called(next, crate::lexer::spec_color_call(b, we)->0)
    }

    /// `next` is this parser after `color{...}` read as `call` (see
    /// `spec_color_call`): with a body, a colour span opens at the next
    /// event, after every span open so far, and the position moves into the
    /// body; without one, a non-empty colour goes to the part written last
    /// (see `last_target_colored`) and the position moves past the call.
    pub open spec fn color_called(&self, next: Parser<'a>, call: (Seq<char>, Option<int>, int)) -> bool {
        match call.1 {
            Some(body) => {
                &&& next == (Parser {
                    pos: body as usize,
                    curly_open_serial: (self.curly_open_serial + 1) as i32,
                    color_spans: next.color_spans,
                    ..*self
                })
                &&& next.color_spans@.len() == self.color_spans@.len() + 1
                &&& next.color_spans@.drop_last() == self.color_spans@
                &&& next.color_spans@.last().start_idx == self.events.len()
                &&& next.color_spans@.last().color@ == call.0
                &&& next.color_spans@.last().open_order == self.curly_open_serial + 1
            },
            None => {
                &&& next == (Parser { events: next.events, pos: call.2 as usize, ..*self })
                &&& if call.0.len() == 0 || self.last_color_target is None || self.events@.len() == 0 {
                    next.events == self.events
                } else {
                    &&& next.events@.drop_last() == self.events@.drop_last()
                    &&& last_target_colored(self.events@.last(), next.events@.last(), self.last_color_target->0, call.0)
                }
            },
        }
    }

    fn apply_color_call(&mut self, value: String, body: Option<usize>, next: usize)
        requires
            old(self).inv(),
            old(self).pos < next <= old(self).input@.len(),
            body matches Some(x) ==> x == next,
        ensures
            final(self).inv(),
            old(self).color_called(
                *final(self),
                (
                    value@,
                    match body {
                        Some(x) => Some(x as int),
                        None => None,
                    },
                    next as int,
                ),
            ),
    {
        match body {
            Some(body_start) => {
                self.curly_open_serial = self.curly_open_serial + 1;
                let span = ColorSpan { start_idx: self.events.len(), color: value, open_order: self.curly_open_serial };
                self.color_spans.push(span);
                self.pos = body_start;
                proof {
                    assert(self.color_spans@.drop_last() =~= old(self).color_spans@);
                    assert forall|k: int| 0 <= k < self.color_spans@.len() implies 0 <= (
                    #[trigger] self.color_spans@[k]).open_order <= self.curly_open_serial by {
                        if k < self.color_spans@.len() - 1 {
                            assert(self.color_spans@[k] == old(self).color_spans@[k]);
                        }
                    }
                }
            },
            None => {
                if value.unicode_len() != 0 {
                    self.apply_color_to_last_target(value.as_str());
                }
                self.pos = next;
            },
        }
    }

    /// An octave-line opener stands at this parser's position (see
    /// `digit_opens`).
    pub open spec fn octline_at(&self) -> bool {
        let b = self.input@;
        let p0 = self.pos as int;
        let p = p0 + crate::lexer::spec_digit_run(b, p0);
        let q = blank_run_end(b, p + 1);
        p > p0 && p < b.len() && (b[p] == 97 || b[p] == 98) && q < b.len() && b[q] == 123
    }

    /// A number followed by `a` or `b`, any white space and `{` opens an
    /// octave line of that number above or below at the next event, after
    /// every span open so far (an octave line already open stays as it is
    /// until this one is closed).
    pub open spec fn digit_opens(&self, next: Parser<'a>, r: bool) -> bool {
        let b = self.input@;
        let p0 = self.pos as int;
        let p = p0 + crate::lexer::spec_digit_run(b, p0);
        let q = blank_run_end(b, p + 1);
        (p > p0 && p < b.len() && (b[p] == 97 || b[p] == 98) && q < b.len() && b[q] == 123) ==> r
            && self.octline_opened(next, digits_or_zero(b, p0, p), if b[p] == 97 {
            "above"@
        } else {
            "below"@
        }, q + 1)
    }

    /// `next` is this parser with an octave line of `number` in direction
    /// `dir` opened at the next event, after every span open so far; the
    /// position moves to `to`.
    pub open spec fn octline_opened(&self, next: Parser<'a>, number: int, dir: Seq<char>, to: int) -> bool {
        &&& opt_view(next.octline_dir) == Some(dir)
        &&& next == (Parser {
            pos: to as usize,
            octline_start_idx: Some(self.events.len()),
            octline_number: number as i32,
            octline_dir: next.octline_dir,
            curly_open_serial: (self.curly_open_serial + 1) as i32,
            octline_open_order: Some((self.curly_open_serial + 1) as i32),
            ..*self
        })
    }

    fn open_octline(&mut self, number: i32, dir: String, to: usize)
        requires
            old(self).inv(),
            old(self).pos < to <= old(self).input@.len(),
        ensures
            final(self).inv(),
            old(self).octline_opened(*final(self), number as int, dir@, to as int),
    {
        self.octline_start_idx = Some(self.events.len());
        self.octline_number = number;
        self.octline_dir = Some(dir);
        self.curly_open_serial = self.curly_open_serial + 1;
        self.octline_open_order = Some(self.curly_open_serial);
        self.pos = to;
    }

    fn open_hairpin(&mut self, kind: String, to: usize)
        requires
            old(self).inv(),
            old(self).pos < to <= old(self).input@.len(),
        ensures
            final(self).inv(),
            old(self).hairpin_reopened(*final(self), kind@, to as int),
    {
        self.close_hairpin();
        self.hairpin_start_idx = Some(self.events.len());
        self.hairpin_kind = Some(kind);
        self.curly_open_serial = self.curly_open_serial + 1;
        self.hairpin_open_order = Some(self.curly_open_serial);
        self.pos = to;
    }

    fn open_trill(&mut self, to: usize)
        requires
            old(self).inv(),
            old(self).pos < to <= old(self).input@.len(),
        ensures
            final(self).inv(),
            old(self).trill_reopened(*final(self), to as int),
    {
        self.close_trill();
        self.trill_start_idx = Some(self.events.len());
        self.curly_open_serial = self.curly_open_serial + 1;
        self.trill_open_order = Some(self.curly_open_serial);
        self.pos = to;
    }

    fn open_ending(&mut self, label: String, to: usize)
        requires
            old(self).inv(),
            old(self).pos < to <= old(self).input@.len(),
        ensures
            final(self).inv(),
            old(self).ending_reopened(*final(self), label@, to as int),
    {
        self.close_ending();
        self.ending_start_idx = Some(self.events.len());
        self.ending_label = Some(label);
        self.curly_open_serial = self.curly_open_serial + 1;
        self.ending_open_order = Some(self.curly_open_serial);
        self.pos = to;
    }

    fn open_grace(&mut self, to: usize)
        requires
            old(self).inv(),
            old(self).pos < to <= old(self).input@.len(),
        ensures
            final(self).inv(),
            old(self).grace_opened(*final(self), to as int),
    {
        self.grace_start_idx = Some(self.events.len());
        self.grace_slash = false;
        self.curly_open_serial = self.curly_open_serial + 1;
        self.grace_open_order = Some(self.curly_open_serial);
        self.pos = to;
    }

    /// What `try_keyword` guarantees, `next` being the parser after it.
    pub open spec fn keyword_post(&self, next: Parser<'a>, r: bool) -> bool {
        &&& (r ==> next.advanced(self))
        &&& (!r ==> next == *self)
        &&& (plain_word(self.input@, self.pos as int) ==> !r)
        &&& (voice_group_at(self.input@, self.pos as int) is Some ==> {
            &&& r
            &&& next.pos == (voice_group_at(self.input@, self.pos as int)->0).2 + 1
            &&& next.events@.len() == self.events@.len() + 1
            &&& next.events@.drop_last() == self.events@
            &&& melody_event(
                self.input@,
                next.events@.last(),
                melody_item(
                    self.input@,
                    self.pos as int,
                    self.last_duration as int,
                    self.current_base_octave as int,
                ),
            )
            &&& next.last_duration == self.last_duration
            &&& next.current_base_octave == self.current_base_octave
            &&& next.same_spans(self)
            &&& self.only_reads(next)
            &&& next.last_color_target == self.last_color_target
        })
        &&& (melody_word(self.input@, self.pos as int) ==> {
            &&& r
            &&& next.pos == word_end(self.input@, self.pos as int)
            &&& next.events@.len() == self.events@.len() + 1
            &&& next.events@.drop_last() == self.events@
            &&& melody_event(
                self.input@,
                next.events@.last(),
                melody_item(
                    self.input@,
                    self.pos as int,
                    self.last_duration as int,
                    self.current_base_octave as int,
                ),
            )
            &&& next.last_duration == self.last_duration
            &&& next.current_base_octave as int == melody_item_base(
                self.input@,
                self.pos as int,
                self.last_duration as int,
                self.current_base_octave as int,
            )
            &&& next.same_spans(self)
            &&& self.only_reads(next)
            &&& next.last_color_target == Some(
                if word_at(self.input@, self.pos as int) == ascii("common"@) || word_at(self.input@, self.pos as int)
                    == ascii("cut"@) {
                    LastColorTarget::TimeSig
                } else {
                    LastColorTarget::Clef
                },
            )
        })
        &&& (self.keyword_opens(next, r))
        &&& (r ==> voice_group_at(self.input@, self.pos as int) is Some || melody_word(self.input@, self.pos as int)
            || self.keyword_span_at())
    }

    /// Lower-case keywords at the current position: `v{upper;lower}` voice
    /// groups, `end{label:` endings, `cresc{`/`decresc{` hairpins, `tr{`
    /// trills, `grace{` groups, `color{...}` colours, time-signature words
    /// and clef names.
    #[verifier::spinoff_prover]
    #[verifier::rlimit(80)]
    fn try_keyword(&mut self) -> (r: bool)
        requires
            old(self).inv(),
            old(self).pos < old(self).input@.len(),
            crate::text::spec_is_lower(old(self).input@[old(self).pos as int]),
        ensures
            r ==> final(self).advanced(old(self)),
            !r ==> *final(self) == *old(self),
            plain_word(old(self).input@, old(self).pos as int) ==> !r,
            old(self).keyword_opens(*final(self), r),
            r ==> voice_group_at(old(self).input@, old(self).pos as int) is Some || melody_word(
                old(self).input@,
                old(self).pos as int,
            ) || old(self).keyword_span_at(),
            voice_group_at(old(self).input@, old(self).pos as int) is Some ==> {
                &&& r
                &&& final(self).pos == (voice_group_at(old(self).input@, old(self).pos as int)->0).2 + 1
                &&& final(self).events@.len() == old(self).events@.len() + 1
                &&& final(self).events@.drop_last() == old(self).events@
                &&& melody_event(
                    old(self).input@,
                    final(self).events@.last(),
                    melody_item(
                        old(self).input@,
                        old(self).pos as int,
                        old(self).last_duration as int,
                        old(self).current_base_octave as int,
                    ),
                )
                &&& final(self).last_duration == old(self).last_duration
                &&& final(self).current_base_octave == old(self).current_base_octave
                &&& final(self).same_spans(old(self))
                &&& old(self).only_reads(*final(self))
                &&& final(self).last_color_target == old(self).last_color_target
            },
            melody_word(old(self).input@, old(self).pos as int) ==> {
                &&& r
                &&& final(self).pos == word_end(old(self).input@, old(self).pos as int)
                &&& final(self).events@.len() == old(self).events@.len() + 1
                &&& final(self).events@.drop_last() == old(self).events@
                &&& melody_event(
                    old(self).input@,
                    final(self).events@.last(),
                    melody_item(
                        old(self).input@,
                        old(self).pos as int,
                        old(self).last_duration as int,
                        old(self).current_base_octave as int,
                    ),
                )
                &&& final(self).last_duration == old(self).last_duration
                &&& final(self).current_base_octave as int == melody_item_base(
                    old(self).input@,
                    old(self).pos as int,
                    old(self).last_duration as int,
                    old(self).current_base_octave as int,
                )
                &&& final(self).same_spans(old(self))
                &&& old(self).only_reads(*final(self))
                &&& final(self).last_color_target == Some(
                    if word_at(old(self).input@, old(self).pos as int) == ascii("common"@) || word_at(
                        old(self).input@,
                        old(self).pos as int,
                    ) == ascii("cut"@) {
                        LastColorTarget::TimeSig
                    } else {
                        LastColorTarget::Clef
                    },
                )
            },
        decreases old(self).input@.len(), 1int,
    {
        let pos = self.pos;
        let mut word_end = pos;
        while word_end < self.input.len() && is_word_char(self.input[word_end])
            invariant
                pos <= word_end <= self.input@.len(),
                forall|k: int| pos <= k < word_end ==> crate::text::spec_is_word_char(#[trigger] self.input@[k]),
            decreases self.input.len() - word_end,
        {
            word_end = word_end + 1;
        }
        if word_end == pos {
            return false;
        }
        let input = self.input;
        proof {
            lemma_word_end_is(input@, pos as int, word_end as int);
            if melody_word(input@, pos as int) {
                lemma_melody_word(input@, pos as int);
                assert(word_at(input@, pos as int)[0] == input@[pos as int]);
            }
            if voice_group_at(input@, pos as int) is Some {
                assert(input@.subrange(pos as int, word_end as int) =~= seq![118u8]);
            }
            if plain_word(input@, pos as int) {
                let w = input@.subrange(pos as int, word_end as int);
                assert forall|k: int| 0 <= k < w.len() implies crate::text::spec_is_word_char(#[trigger] w[k]) by {
                    assert(w[k] == input@[pos + k]);
                }
                assert(w[0] == input@[pos as int]);
                if pos + 1 < input@.len() && crate::text::spec_is_word_char(input@[pos + 1]) {
                    assert(w[1] == input@[pos + 1]);
                    if duration_name_len(input@, pos + 1) > 0 {
                        lemma_named_duration(input@, pos + 1, 4);
                        assert(w[2] == input@[pos + 2]);
                    }
                } else {
                    assert(word_end == pos + 1);
                }
                lemma_note_word_no_keyword(w);
            }
        }
        // Two voices on one staff
        let v_word: [u8; 1] = [118];
        proof {
            assert(v_word@ =~= seq![118u8]);
        }
        if token_is(input, pos, word_end, &v_word) {
            if self.try_voice_group() {
                return true;
            }
        }
        // Ending: end{label:
        if token_is(input, pos, word_end, &[101, 110, 100]) && peek(input, word_end) == Some(123u8) {
            let mut label_pos = word_end + 1;
            while label_pos < input.len() && input[label_pos] != 58 && input[label_pos] != 125
                invariant
                    word_end + 1 <= label_pos <= input@.len(),
                    label_stop(input@, word_end + 1) == label_stop(input@, label_pos as int),
                decreases input.len() - label_pos,
            {
                label_pos = label_pos + 1;
            }
            if label_pos < input.len() && input[label_pos] == 58 {
                let raw = latin1_string(input, word_end + 1, label_pos);
                let label = owned(str_trim(raw.as_str()));
                self.open_ending(label, label_pos + 1);
                return true;
            }
        }
        // Hairpins: cresc{ / decresc{
        if (token_is(input, pos, word_end, &[99, 114, 101, 115, 99]) || token_is(
            input,
            pos,
            word_end,
            &[100, 101, 99, 114, 101, 115, 99],
        )) && peek(input, word_end) == Some(123u8) {
            let kind = latin1_string(input, pos, word_end);
            self.open_hairpin(kind, word_end + 1);
            return true;
        }
        // Trill line: tr{
        if token_is(input, pos, word_end, &[116, 114]) && peek(input, word_end) == Some(123u8) {
            self.open_trill(word_end + 1);
            return true;
        }
        // Grace notes: grace{
        if token_is(input, pos, word_end, &[103, 114, 97, 99, 101]) && peek(input, word_end) == Some(
            123u8,
        ) {
            self.open_grace(word_end + 1);
            return true;
        }
        // Colours: color{name: ...} spans and color{name} on the last element
        if token_is(input, pos, word_end, &[99, 111, 108, 111, 114]) {
            if let Some((value, body, next)) = parse_color_call(input, word_end) {
                self.apply_color_call(value, body, next);
                return true;
            }
        }
        // Time-signature words
        if let Some(ts) = parse_time_token(&input[pos..word_end]) {
            proof {
                let t = input@.subrange(pos as int, word_end as int);
                crate::lexer::lemma_find_bounds(t, 0, 47);
                if crate::lexer::spec_find(t, 0, 47) < t.len() {
                    let f = crate::lexer::spec_find(t, 0, 47);
                    assert(t[f] == input@[pos + f]);
                    assert(crate::text::spec_is_word_char(input@[pos + f]));
                }
                assert(t[0] == input@[pos as int]);
                assert(word_at(input@, pos as int) == t);
            }
            self.events.push(Event::TimeSig(ts));
            self.last_color_target = Some(LastColorTarget::TimeSig);
            self.pos = word_end;
            return true;
        }
        // Clef changes
        let token = latin1_string(input, pos, word_end);
        if is_supported_clef(token.as_str()) {
            let base = clef_default_base_octave(token.as_str());
            self.events.push(
                Event::Clef(
                    ClefChange {
                        clef: token,
                        ending: None,
                        ending_start: false,
                        ending_end: false,
                        color: None,
                    },
                ),
            );
            self.last_color_target = Some(LastColorTarget::Clef);
            self.current_base_octave = base;
            self.pos = word_end;
            return true;
        }
        false
    }

    /// One step of `parse` at the current position, `next` being the parser
    /// after it: the character there decides which reader runs (white
    /// space, a newline, a staff marker, a barline, a colon, a chord, a
    /// keyword, `C`, a note, a rest, a spacer, a slur mark, a `{`, a
    /// number, the `/` of `/}` in a grace group, a `}`), and `next` is what
    /// that reader guarantees; any other character is skipped.
    pub open spec fn step(&self, next: Parser<'a>) -> bool {
        let b = self.input@;
        let p = self.pos as int;
        &&& p < b.len()
        &&& if crate::text::spec_is_whitespace_char(b[p]) {
            self.whitespace_post(next)
        } else if b[p] == 10 {
            self.newline_post(next)
        } else if crate::lexer::spec_staff_marker(b, p).0 is Some {
            self.marker_post(next, true)
        } else if b[p] == 124 {
            self.barline_post(next)
        } else if b[p] == 58 {
            self.colon_post(next)
        } else if b[p] == 60 {
            self.chord_post(next)
        } else {
            self.word_step(next)
        }
    }

    /// A step at a lower-case letter tries the keywords first.
    pub open spec fn word_step(&self, next: Parser<'a>) -> bool {
        let c = self.input@[self.pos as int];
        ||| crate::text::spec_is_lower(c) && self.keyword_post(next, true)
        ||| (!crate::text::spec_is_lower(c) || self.keyword_post(*self, false)) && self.capital_step(next)
    }

    /// A step at `C` tries the common- and cut-time signs first.
    pub open spec fn capital_step(&self, next: Parser<'a>) -> bool {
        let c = self.input@[self.pos as int];
        ||| c == 67 && self.upper_time_post(next, true)
        ||| (c != 67 || self.upper_time_post(*self, false)) && self.symbol_step(next)
    }

    /// A step at a note letter, `r`, `s`, `(`, `)` or `{`.
    pub open spec fn symbol_step(&self, next: Parser<'a>) -> bool {
        let c = self.input@[self.pos as int];
        if 97 <= c <= 103 {
            self.note_post(next)
        } else if c == 114 {
            self.rest_post(next)
        } else if c == 115 {
            self.spacer_post(next)
        } else if c == 40 {
            self.slur_post(next, true)
        } else if c == 41 {
            self.slur_post(next, false)
        } else if c == 123 {
            self.tuplet_open_post(next)
        } else {
            self.digit_step(next)
        }
    }

    /// A step at a digit tries the time signatures and octave lines first.
    pub open spec fn digit_step(&self, next: Parser<'a>) -> bool {
        let c = self.input@[self.pos as int];
        ||| crate::text::spec_is_digit(c) && self.digit_post(next, true)
        ||| (!crate::text::spec_is_digit(c) || self.digit_post(*self, false)) && self.close_step(next)
    }

    /// A step at the `/` of `/}` in a grace group, at `}`, or at anything
    /// else, which is skipped.
    pub open spec fn close_step(&self, next: Parser<'a>) -> bool {
        let b = self.input@;
        let p = self.pos as int;
        if b[p] == 47 && crate::lexer::spec_peek(b, p + 1) == Some(125u8) && self.grace_open_order is Some {
            next == (Parser { grace_slash: true, pos: (self.pos + 1) as usize, ..*self })
        } else if b[p] == 125 {
            self.close_brace_post(next)
        } else {
            next == (Parser { pos: (self.pos + 1) as usize, ..*self })
        }
    }

    /// Parses the whole input into events, one step (see `step`) at a time,
    /// then closes the hairpin, trill, ending and colour spans left open.
    fn parse(&mut self)
        requires
            old(self).inv(),
        ensures
            final(self).inv(),
            (old(self).pos == 0 && old(self).events@.len() == 0 && old(self).spans_idle() && melody_input(
                old(self).input@,
                old(self).last_duration as int,
                old(self).current_base_octave as int,
            ) is Some) ==> melody_parsed(
                old(self).input@,
                final(self).events@,
                melody_input(
                    old(self).input@,
                    old(self).last_duration as int,
                    old(self).current_base_octave as int,
                )->0,
            ),
            final(self).spans_idle(),
            exists|trace: Seq<Parser<'a>>|
                {
                    &&& #[trigger] parse_trace(trace, *old(self), trace.last())
                    &&& trace.last().inv()
                    &&& trace.last().pos == old(self).input@.len()
                    &&& trace.last().closes_to(final(self).events@)
                },
        decreases old(self).input@.len(), 2int,
    {
        let ghost b = self.input@;
        let ghost base0 = self.current_base_octave as int;
        let ghost dur0 = self.last_duration as int;
        let ghost melody = self.pos == 0 && self.events@.len() == 0 && self.spans_idle()
            && melody_input(b, dur0, base0) is Some;
        let ghost items = melody_input(b, dur0, base0)->0;
        let ghost lead_end = newline_run_end(b, 0);
        proof {
            lemma_newline_run_bounds(b, 0);
            if melody {
                lemma_melody_state_begin(b, dur0, base0);
                assert(self.events@ =~= Seq::<Event>::empty());
            }
        }
        let ghost mut trace: Seq<Parser<'a>> = seq![*self];
        proof {
            lemma_trace_start(*self);
        }
        while self.pos < self.input.len()
            invariant
                self.inv(),
                parse_trace(trace, *old(self), *self),
                self.input@.len() == old(self).input@.len(),
                self.input@ == b,
                lead_end == newline_run_end(b, 0),
                melody ==> self.spans_idle(),
                melody ==> melody_state(b, lead_end, dur0, base0, Seq::empty(), items),
                melody ==> (self.events@.len() == 0 && self.pos < lead_end && newline_run_end(b, self.pos as int)
                    == lead_end && self.last_duration == dur0 && self.current_base_octave == base0)
                    || melody_state(
                    b,
                    self.pos as int,
                    self.last_duration as int,
                    self.current_base_octave as int,
                    self.events@,
                    items,
                ),
            decreases self.input.len() - self.pos,
        {
            let ch = self.input[self.pos];
            let ghost pre = *self;
            let ghost pos0 = self.pos as int;
            let ghost ld0 = self.last_duration as int;
            let ghost bs0 = self.current_base_octave as int;
            let ghost ev0 = self.events@;
            let ghost n0 = ev0.len() as int;
            let ghost bar0 = n0 > 0 && ev0.last() is Barline;
            let ghost leading = melody && n0 == 0 && pos0 < lead_end && newline_run_end(b, pos0) == lead_end
                && ld0 == dur0 && bs0 == base0;
            proof {
                if leading {
                    assert(b[pos0] == 32 || b[pos0] == 9 || b[pos0] == 13 || b[pos0] == 10);
                } else if melody {
                    lemma_melody_state_facts(b, pos0, ld0, bs0, ev0, items);
                    if plain_token_start(b[pos0]) {
                        lemma_melody_token(b, pos0, ld0, bs0);
                    } else {
                        lemma_melody_separator(b, pos0, ld0, bs0, bar0);
                    }
                }
            }
            if is_whitespace_char(ch) {
                self.handle_whitespace();
                proof {
                    if leading {
                        lemma_blank_within_newline_run(b, pos0);
                        assert(self.events@ == ev0);
                        assert(self.events@ =~= Seq::<Event>::empty());
                        if self.pos as int == lead_end {
                            assert(melody_state(b, self.pos as int, self.last_duration as int, self.current_base_octave as int, self.events@, items));
                        }
                    } else if melody {
                        lemma_melody_state_spaces(b, pos0, ld0, bs0, ev0, self.events@, items);
                    }
                }
                proof {
                    lemma_trace_extend(trace, *old(self), pre, *self);
                    trace = trace.push(*self);
                }
                continue;
            }
            if ch == 10 {
                self.handle_newline();
                proof {
                    if leading {
                        assert(newline_run_end(b, pos0) == newline_run_end(b, pos0 + 1));
                        assert(self.pos as int == lead_end);
                        assert(self.events@ == ev0);
                        assert(self.events@ =~= Seq::<Event>::empty());
                        assert(melody_state(b, self.pos as int, self.last_duration as int, self.current_base_octave as int, self.events@, items));
                    } else if melody {
                        lemma_melody_state_newline(b, pos0, ld0, bs0, ev0, self.events@, items);
                    }
                }
                proof {
                    lemma_trace_extend(trace, *old(self), pre, *self);
                    trace = trace.push(*self);
                }
                continue;
            }
            if self.try_standalone_marker() {
                proof {
                    lemma_trace_extend(trace, *old(self), pre, *self);
                    trace = trace.push(*self);
                }
                continue;
            }
            if ch == 124 {
                self.handle_barline();
                proof {
                    if melody {
                        lemma_melody_state_token(b, pos0, ld0, bs0, ev0, self.events@, items);
                    }
                }
                proof {
                    lemma_trace_extend(trace, *old(self), pre, *self);
                    trace = trace.push(*self);
                }
                continue;
            }
            if ch == 58 {
                self.handle_colon();
                proof {
                    if melody {
                        lemma_melody_state_token(b, pos0, ld0, bs0, ev0, self.events@, items);
                    }
                }
                proof {
                    lemma_trace_extend(trace, *old(self), pre, *self);
                    trace = trace.push(*self);
                }
                continue;
            }
            if ch == 60 {
                self.handle_chord();
                proof {
                    if melody {
                        lemma_melody_state_token(b, pos0, ld0, bs0, ev0, self.events@, items);
                    }
                }
                proof {
                    lemma_trace_extend(trace, *old(self), pre, *self);
                    trace = trace.push(*self);
                }
                continue;
            }
            if is_lower(ch) {
                if self.try_keyword() {
                    proof {
                        if melody {
                            lemma_melody_state_token(b, pos0, ld0, bs0, ev0, self.events@, items);
                        }
                    }
                    proof {
                        lemma_trace_extend(trace, *old(self), pre, *self);
                        trace = trace.push(*self);
                    }
                    continue;
                }
            }
            if ch == 67 {
                if self.try_upper_time() {
                    proof {
                        if melody {
                            lemma_melody_state_token(b, pos0, ld0, bs0, ev0, self.events@, items);
                        }
                    }
                    proof {
                        lemma_trace_extend(trace, *old(self), pre, *self);
                        trace = trace.push(*self);
                    }
                    continue;
                }
            }
            if 97 <= ch && ch <= 103 {
                self.handle_note();
                proof {
                    if melody {
                        lemma_melody_state_token(b, pos0, ld0, bs0, ev0, self.events@, items);
                    }
                }
                proof {
                    lemma_trace_extend(trace, *old(self), pre, *self);
                    trace = trace.push(*self);
                }
                continue;
            }
            if ch == 114 {
                self.handle_rest();
                proof {
                    if melody {
                        lemma_melody_state_token(b, pos0, ld0, bs0, ev0, self.events@, items);
                    }
                }
                proof {
                    lemma_trace_extend(trace, *old(self), pre, *self);
                    trace = trace.push(*self);
                }
                continue;
            }
            if ch == 115 {
                self.handle_spacer();
                proof {
                    if melody {
                        lemma_melody_state_token(b, pos0, ld0, bs0, ev0, self.events@, items);
                    }
                }
                proof {
                    lemma_trace_extend(trace, *old(self), pre, *self);
                    trace = trace.push(*self);
                }
                continue;
            }
            if ch == 40 {
                self.handle_slur_mark(true);
                proof {
                    lemma_trace_extend(trace, *old(self), pre, *self);
                    trace = trace.push(*self);
                }
                continue;
            }
            if ch == 41 {
                self.handle_slur_mark(false);
                proof {
                    lemma_trace_extend(trace, *old(self), pre, *self);
                    trace = trace.push(*self);
                }
                continue;
            }
            if ch == 123 {
                self.handle_tuplet_open();
                proof {
                    lemma_trace_extend(trace, *old(self), pre, *self);
                    trace = trace.push(*self);
                }
                continue;
            }
            if is_digit(ch) {
                if self.try_digit_token() {
                    proof {
                        if melody {
                            lemma_melody_state_token(b, pos0, ld0, bs0, ev0, self.events@, items);
                        }
                    }
                    proof {
                        lemma_trace_extend(trace, *old(self), pre, *self);
                        trace = trace.push(*self);
                    }
                    continue;
                }
            }
            if ch == 47 && peek(self.input, self.pos + 1) == Some(125u8) && self.grace_open_order.is_some() {
                self.grace_slash = true;
                self.pos = self.pos + 1;
                proof {
                    lemma_trace_extend(trace, *old(self), pre, *self);
                    trace = trace.push(*self);
                }
                continue;
            }
            if ch == 125 {
                self.handle_close_brace();
                proof {
                    lemma_trace_extend(trace, *old(self), pre, *self);
                    trace = trace.push(*self);
                }
                continue;
            }
            self.pos = self.pos + 1;
            proof {
                lemma_trace_extend(trace, *old(self), pre, *self);
                trace = trace.push(*self);
            }
        }
        proof {
            if melody {
                lemma_melody_state_end(b, self.last_duration as int, self.current_base_octave as int, self.events@, items);
            }
        }
        let ghost mid = *self;
        proof {
            lemma_trace_ends(trace, *old(self), mid);
        }
        self.close_open_spans();
        proof {
            if melody {
                assert(hairpin_closed(mid.hairpin_start_idx, mid.hairpin_kind, mid.events@, mid.events@));
                assert(trill_closed(mid.trill_start_idx, mid.events@, mid.events@));
                assert(ending_closed(mid.ending_start_idx, mid.ending_label, mid.events@, mid.events@));
                assert(self.events@ == mid.events@);
            }
            assert(mid.closes_to(self.events@));
            assert(parse_trace(trace, *old(self), trace.last()));
        }
    }
}

/// Parses a music string into events. Notes are read relative to
/// `base_octave` until a clef name sets another octave. Whatever the input,
/// a run of parser steps (see `step`) goes from a fresh parser over the whole
/// input, and the events are those of the parser it ends in, once the
/// hairpin, trill, ending and colour spans still open are closed (see
/// `closes_to`). A plain
/// melody (see `melody_input`; white space and newlines before it and a
/// newline run after it give nothing) gives one event per token (a note, rest or chord with the
/// marks and text attachments written after it, a time signature, a clef
/// change for a clef name, a voice group whose voices are read the same
/// way), a gap for extra spaces after
/// anything but a barline, and a line break for each newline; a note, rest
/// or spacer written without a duration keeps the one before it (a quarter
/// at the start).
pub fn parse_music(input: &str, base_octave: i32) -> (events: Vec<Event>)
    requires
        input_len_ok(vstd::utf8::encode_utf8(input@).len() as int),
        base_octave_ok(base_octave as int, vstd::utf8::encode_utf8(input@).len() as int),
    ensures
        events_wf(events@),
        melody_input(vstd::utf8::encode_utf8(input@), 4, base_octave as int) is Some ==> melody_parsed(
            vstd::utf8::encode_utf8(input@),
            events@,
            melody_input(vstd::utf8::encode_utf8(input@), 4, base_octave as int)->0,
        ),
        exists|trace: Seq<Parser>|
            {
                &&& #[trigger] parse_trace(trace, trace[0], trace.last())
                &&& trace[0].fresh(vstd::utf8::encode_utf8(input@), base_octave as int, 4)
                &&& trace.last().pos == trace[0].input@.len()
                &&& trace.last().closes_to(events@)
            },
{
    let bytes = input.as_bytes();
    proof {
        vstd::utf8::encode_utf8_valid_utf8(input@);
    }
    parse_events(bytes, base_octave, 4)
}

} // verus!

verus! {

proof fn lemma_colored_keeps_wf(old: Event, new: Event, m: NoteColorMap)
    requires
        event_colored(old, new, m),
        event_wf(old),
    ensures
        event_wf(new),
        (old is LineBreak) == (new is LineBreak),
    decreases old,
{
    reveal(note_colored);
    reveal(chord_note_colored);
    match old {
        Event::Note(n) => {},
        Event::Chord(c) => {
            if let Event::Chord(nc) = new {
                assert forall|k: int| 0 <= k < nc.notes@.len() implies note_name_ok(
                    #[trigger] nc.notes@[k].name@,
                ) by {
                    assert(chord_note_colored(c.notes@[k], nc.notes@[k], m));
                    assert(note_name_ok(c.notes@[k].name@));
                }
            }
        },
        Event::VoiceGroup(g) => {
            if let Event::VoiceGroup(ng) = new {
                assert forall|k: int| 0 <= k < ng.upper@.len() implies event_wf(#[trigger] ng.upper@[k]) by {
                    assert(event_colored(g.upper@[k], ng.upper@[k], m));
                    lemma_colored_keeps_wf(g.upper@[k], ng.upper@[k], m);
                }
                assert forall|k: int| 0 <= k < ng.lower@.len() implies event_wf(#[trigger] ng.lower@[k]) by {
                    assert(event_colored(g.lower@[k], ng.lower@[k], m));
                    lemma_colored_keeps_wf(g.lower@[k], ng.lower@[k], m);
                }
            }
        },
        _ => {},
    }
}

/// Parses a music string, then colours its notes from the score's and the
/// staff's note-colour maps (the staff's winning for the same pitch class
/// and octave; see `build_note_color_map` and `apply_note_colors`).
pub fn parse_music_with_note_colors(
    input: &str,
    base_octave: i32,
    score_note_colors: Option<&Vec<(String, String)>>,
    staff_note_colors: Option<&Vec<(String, String)>>,
) -> (events: Vec<Event>)
    requires
        input_len_ok(vstd::utf8::encode_utf8(input@).len() as int),
        base_octave_ok(base_octave as int, vstd::utf8::encode_utf8(input@).len() as int),
        keys_fit(source_view(score_note_colors), base_octave as int),
        keys_fit(source_view(staff_note_colors), base_octave as int),
    ensures
        events_wf(events@),
        exists|parsed: Seq<Event>, m: NoteColorMap|
            {
                &&& events_wf(parsed)
                &&& (melody_input(vstd::utf8::encode_utf8(input@), 4, base_octave as int) is Some
                    ==> melody_parsed(vstd::utf8::encode_utf8(input@), parsed, melody_input(vstd::utf8::encode_utf8(input@), 4, base_octave as int)->0))
                &&& exists|trace: Seq<Parser>|
                    {
                        &&& #[trigger] parse_trace(trace, trace[0], trace.last())
                        &&& trace[0].fresh(vstd::utf8::encode_utf8(input@), base_octave as int, 4)
                        &&& trace.last().pos == trace[0].input@.len()
                        &&& trace.last().closes_to(parsed)
                    }
                &&& m.wf()
                &&& forall|pc: Seq<char>, o: int|
                    #[trigger] m.color_at(pc, o) == match winner(
                        source_view(staff_note_colors),
                        pc,
                        o,
                        base_octave as int,
                    ) {
                        Some(c) => Some(c),
                        None => winner(source_view(score_note_colors), pc, o, base_octave as int),
                    }
                &&& events@.len() == parsed.len()
                &&& forall|k: int|
                    0 <= k < parsed.len() ==> event_colored(#[trigger] parsed[k], events@[k], m)
            },
{
    let mut events = parse_music(input, base_octave);
    let ghost parsed = events@;
    let note_colors = build_note_color_map(score_note_colors, staff_note_colors, base_octave);
    apply_note_colors(&mut events, &note_colors);
    proof {
        assert forall|k: int| 0 <= k < events@.len() implies event_wf(#[trigger] events@[k]) by {
            lemma_colored_keeps_wf(parsed[k], events@[k], note_colors);
        }
        if events@.len() > 0 {
            lemma_colored_keeps_wf(parsed[0], events@[0], note_colors);
        }
    }
    events
}

} // verus!
