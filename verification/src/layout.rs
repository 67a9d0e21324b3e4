//! Engraving rules that decide glyph names, spacing needs and how an event
//! stream is cut into measures and systems.

use vstd::prelude::*;

use crate::pitch::{pitch_to_diatonic, spec_pitch_to_diatonic};
use crate::text::{opt_str_view, str_eq};
use crate::types::{ChordNote, Event, Gap};

verus! {

// ─── SMuFL glyph names ─────────────────────────────────────────────────

/// The SMuFL glyph that draws a clef; unknown clefs draw as a treble clef.
pub open spec fn spec_clef_smufl_name(clef: Seq<char>) -> Seq<char> {
    if clef == "treble"@ {
        "gClef"@
    } else if clef == "bass"@ {
        "fClef"@
    } else if clef == "alto"@ || clef == "tenor"@ {
        "cClef"@
    } else if clef == "treble-8a"@ || clef == "treble8a"@ {
        "gClef8va"@
    } else if clef == "treble-8b"@ || clef == "treble8b"@ || clef == "treble-8"@ || clef == "treble8"@ {
        "gClef8vb"@
    } else if clef == "bass-8a"@ || clef == "bass8a"@ {
        "fClef8va"@
    } else if clef == "bass-8b"@ || clef == "bass8b"@ {
        "fClef8vb"@
    } else if clef == "treble-15a"@ {
        "gClef15ma"@
    } else if clef == "treble-15b"@ {
        "gClef15mb"@
    } else if clef == "bass-15a"@ {
        "fClef15ma"@
    } else if clef == "bass-15b"@ {
        "fClef15mb"@
    } else if clef == "percussion"@ {
        "unpitchedPercussionClef1"@
    } else {
        "gClef"@
    }
}

pub fn clef_smufl_name(clef: &str) -> (r: &'static str)
    ensures
        r@ == spec_clef_smufl_name(clef@),
{
    if str_eq(clef, "treble") {
        "gClef"
    } else if str_eq(clef, "bass") {
        "fClef"
    } else if str_eq(clef, "alto") || str_eq(clef, "tenor") {
        "cClef"
    } else if str_eq(clef, "treble-8a") || str_eq(clef, "treble8a") {
        "gClef8va"
    } else if str_eq(clef, "treble-8b") || str_eq(clef, "treble8b") || str_eq(clef, "treble-8")
        || str_eq(clef, "treble8") {
        "gClef8vb"
    } else if str_eq(clef, "bass-8a") || str_eq(clef, "bass8a") {
        "fClef8va"
    } else if str_eq(clef, "bass-8b") || str_eq(clef, "bass8b") {
        "fClef8vb"
    } else if str_eq(clef, "treble-15a") {
        "gClef15ma"
    } else if str_eq(clef, "treble-15b") {
        "gClef15mb"
    } else if str_eq(clef, "bass-15a") {
        "fClef15ma"
    } else if str_eq(clef, "bass-15b") {
        "fClef15mb"
    } else if str_eq(clef, "percussion") {
        "unpitchedPercussionClef1"
    } else {
        "gClef"
    }
}

/// The SMuFL rest glyph for a duration value; unknown values draw a quarter
/// rest.
pub open spec fn spec_rest_smufl_name(duration: int) -> Seq<char> {
    if duration == -8 {
        "restMaxima"@
    } else if duration == -4 {
        "restLonga"@
    } else if duration == -2 {
        "restDoubleWhole"@
    } else if duration == 1 {
        "restWhole"@
    } else if duration == 2 {
        "restHalf"@
    } else if duration == 4 {
        "restQuarter"@
    } else if duration == 8 {
        "rest8th"@
    } else if duration == 16 {
        "rest16th"@
    } else if duration == 32 {
        "rest32nd"@
    } else if duration == 64 {
        "rest64th"@
    } else {
        "restQuarter"@
    }
}

/// The durations that have a rest glyph of their own: maxima, longa,
/// breve, whole, half, quarter, 8th, 16th, 32nd and 64th.
pub open spec fn rest_value_known(d: int) -> bool {
    d == -8 || d == -4 || d == -2 || d == 1 || d == 2 || d == 4 || d == 8 || d == 16 || d == 32 || d == 64
}

/// The decimal digits of `n`.
pub open spec fn decimal_digits(n: nat) -> Seq<char>
    decreases n,
{
    if n < 10 {
        seq![(48 + n) as char]
    } else {
        decimal_digits(n / 10).push((48 + n % 10) as char)
    }
}

/// Law: every rest value with a glyph of its own is drawn with a glyph that
/// no other value shares, and a flagged rest (8th to 64th) is named by its
/// value: `rest`, then the digits of the value, then the ordinal ending.
pub proof fn lemma_rest_glyphs_name_their_value(d1: int, d2: int)
    requires
        rest_value_known(d1),
        rest_value_known(d2),
    ensures
        d1 != d2 ==> spec_rest_smufl_name(d1) != spec_rest_smufl_name(d2),
        d1 >= 8 ==> {
            &&& spec_rest_smufl_name(d1).take(4) == "rest"@
            &&& spec_rest_smufl_name(d1).len() == 4 + decimal_digits(d1 as nat).len() + 2
            &&& spec_rest_smufl_name(d1).subrange(4, 4 + decimal_digits(d1 as nat).len() as int) == decimal_digits(d1 as nat)
        },
{
    reveal_strlit("restMaxima");
    reveal_strlit("restLonga");
    reveal_strlit("restDoubleWhole");
    reveal_strlit("restWhole");
    reveal_strlit("restHalf");
    reveal_strlit("restQuarter");
    reveal_strlit("rest8th");
    reveal_strlit("rest16th");
    reveal_strlit("rest32nd");
    reveal_strlit("rest64th");
    reveal_strlit("rest");
    reveal_with_fuel(decimal_digits, 3);
    let n1 = spec_rest_smufl_name(d1);
    let n2 = spec_rest_smufl_name(d2);
    assert(n1.len() > 4 && n2.len() > 4);
    if d1 != d2 {
        assert(n1[4] != n2[4]);
    }
    if d1 >= 8 {
        assert(n1.take(4) =~= "rest"@);
        if d1 == 8 {
            assert(decimal_digits(8) =~= seq!['8']);
        } else if d1 == 16 {
            assert(decimal_digits(16) =~= seq!['1', '6']);
        } else if d1 == 32 {
            assert(decimal_digits(32) =~= seq!['3', '2']);
        } else {
            assert(decimal_digits(64) =~= seq!['6', '4']);
        }
        assert(n1.subrange(4, 4 + decimal_digits(d1 as nat).len() as int) =~= decimal_digits(d1 as nat));
    }
}

pub fn rest_smufl_name(duration: i32) -> (r: &'static str)
    ensures
        r@ == spec_rest_smufl_name(duration as int),
{
    match duration {
        crate::types::DURATION_MAXIMA => "restMaxima",
        crate::types::DURATION_LONGA => "restLonga",
        crate::types::DURATION_BREVE => "restDoubleWhole",
        1 => "restWhole",
        2 => "restHalf",
        4 => "restQuarter",
        8 => "rest8th",
        16 => "rest16th",
        32 => "rest32nd",
        64 => "rest64th",
        _ => "restQuarter",
    }
}

/// The SMuFL glyph of an accidental name, if it names one.
pub open spec fn spec_accidental_smufl(acc: Option<Seq<char>>) -> Option<Seq<char>> {
    match acc {
        Some(a) => if a == "sharp"@ {
            Some("accidentalSharp"@)
        } else if a == "flat"@ {
            Some("accidentalFlat"@)
        } else if a == "natural"@ {
            Some("accidentalNatural"@)
        } else if a == "double-sharp"@ {
            Some("accidentalDoubleSharp"@)
        } else if a == "double-flat"@ {
            Some("accidentalDoubleFlat"@)
        } else {
            None
        },
        None => None,
    }
}

pub fn accidental_smufl(acc: Option<&str>) -> (r: Option<&'static str>)
    ensures
        opt_str_view(r) == spec_accidental_smufl(opt_str_view(acc)),
{
    match acc {
        Some(a) => {
            if str_eq(a, "sharp") {
                Some("accidentalSharp")
            } else if str_eq(a, "flat") {
                Some("accidentalFlat")
            } else if str_eq(a, "natural") {
                Some("accidentalNatural")
            } else if str_eq(a, "double-sharp") {
                Some("accidentalDoubleSharp")
            } else if str_eq(a, "double-flat") {
                Some("accidentalDoubleFlat")
            } else {
                None
            }
        },
        None => None,
    }
}

// ─── Accidental stacking order ─────────────────────────────────────────

/// Which entry of a list of `n` goes to place `i` when the entries are taken
/// alternately from the outside in: first, last, second, second-to-last, ...
pub open spec fn alternating_source(n: int, i: int) -> int {
    if i % 2 == 0 {
        i / 2
    } else {
        n - 1 - i / 2
    }
}

/// The place that entry `j` of a list of `n` takes in the alternating order.
pub open spec fn alternating_place(n: int, j: int) -> int {
    if 2 * j < n {
        2 * j
    } else {
        2 * (n - 1 - j) + 1
    }
}

proof fn lemma_empty_to_multiset()
    ensures
        Seq::<usize>::empty().to_multiset() == vstd::multiset::Multiset::<usize>::empty(),
{
    broadcast use vstd::seq_lib::to_multiset_len, vstd::multiset::lemma_multiset_empty_len;

    assert(Seq::<usize>::empty().to_multiset().len() == 0);
}

/// Orders accidentals from the outside in: the first index, then the last,
/// then the second, the second-to-last, and so on. The result holds the
/// same entries, each as often as the input does.
pub fn alternating_accidental_order(sorted_indices: &[usize]) -> (order: Vec<usize>)
    ensures
        order@.len() == sorted_indices@.len(),
        order@.to_multiset() == sorted_indices@.to_multiset(),
        forall|i: int|
            0 <= i < order@.len() ==> #[trigger] order@[i] == sorted_indices@[alternating_source(
                sorted_indices@.len() as int,
                i,
            )],
{
    let mut order: Vec<usize> = Vec::new();
    let n = sorted_indices.len();
    let ghost all = sorted_indices@;
    if n == 0 {
        proof {
            assert(order@ =~= all);
        }
        return order;
    }
    proof {
        assert(all.subrange(0, 0) =~= Seq::<usize>::empty());
        assert(all.subrange(n as int, n as int) =~= Seq::<usize>::empty());
        assert(order@ =~= Seq::<usize>::empty());
        lemma_empty_to_multiset();
        vstd::seq_lib::lemma_multiset_commutative(Seq::<usize>::empty(), Seq::<usize>::empty());
        assert(Seq::<usize>::empty().to_multiset() =~= Seq::<usize>::empty().to_multiset().add(
            Seq::<usize>::empty().to_multiset(),
        )) by {
            broadcast use vstd::multiset::group_multiset_axioms;
        }
    }
    let mut top: usize = 0;
    let mut bottom: usize = n - 1;
    while top <= bottom
        invariant_except_break
            n == sorted_indices@.len(),
            n > 0,
            top + bottom == n - 1,
            top <= bottom + 1,
            order@.len() == 2 * top,
            bottom < n,
            all == sorted_indices@,
            order@.to_multiset() == all.subrange(0, top as int).to_multiset().add(
                all.subrange(bottom + 1, n as int).to_multiset(),
            ),
            top > bottom ==> order@.to_multiset() == all.to_multiset(),
            forall|i: int|
                0 <= i < order@.len() ==> #[trigger] order@[i] == sorted_indices@[alternating_source(
                    n as int,
                    i,
                )],
        ensures
            order@.len() == n,
            order@.to_multiset() == all.to_multiset(),
            forall|i: int|
                0 <= i < order@.len() ==> #[trigger] order@[i] == sorted_indices@[alternating_source(
                    n as int,
                    i,
                )],
        decreases bottom + 1 - top,
    {
        assert(alternating_source(n as int, 2 * top as int) == top);
        let ghost before = order@;
        order.push(sorted_indices[top]);
        proof {
            broadcast use vstd::multiset::group_multiset_axioms, vstd::multiset::group_multiset_properties;

            assert(all.subrange(0, top + 1) =~= all.subrange(0, top as int).push(all[top as int]));
            assert(order@ == before.push(all[top as int]));
            vstd::seq_lib::to_multiset_build(before, all[top as int]);
            vstd::seq_lib::to_multiset_build(all.subrange(0, top as int), all[top as int]);
            assert(all.subrange(0, top as int).push(all[top as int]).to_multiset() =~= all.subrange(
                0,
                top as int,
            ).to_multiset().insert(all[top as int]));
            assert(order@.to_multiset() =~= all.subrange(0, top + 1).to_multiset().add(
                all.subrange(bottom + 1, n as int).to_multiset(),
            ));
        }
        if top == bottom {
            proof {
                assert(all =~= all.subrange(0, top + 1) + all.subrange(bottom + 1, n as int));
                vstd::seq_lib::lemma_multiset_commutative(all.subrange(0, top + 1), all.subrange(bottom + 1, n as int));
                assert((all.subrange(0, top + 1) + all.subrange(bottom + 1, n as int)).to_multiset()
                    =~= all.subrange(0, top + 1).to_multiset().add(all.subrange(bottom + 1, n as int).to_multiset()));
            }
            break;
        }
        assert(alternating_source(n as int, 2 * top + 1) == bottom);
        let ghost mid = order@;
        order.push(sorted_indices[bottom]);
        proof {
            broadcast use vstd::multiset::group_multiset_axioms, vstd::multiset::group_multiset_properties;

            lemma_empty_to_multiset();
            assert(all.subrange(bottom as int, n as int) =~= seq![all[bottom as int]] + all.subrange(
                bottom + 1,
                n as int,
            ));
            assert(seq![all[bottom as int]] =~= Seq::<usize>::empty().push(all[bottom as int]));
            assert(order@ == mid.push(all[bottom as int]));
            vstd::seq_lib::to_multiset_build(mid, all[bottom as int]);
            vstd::seq_lib::to_multiset_build(Seq::<usize>::empty(), all[bottom as int]);
            vstd::seq_lib::lemma_multiset_commutative(seq![all[bottom as int]], all.subrange(bottom + 1, n as int));
            assert(order@.to_multiset() =~= all.subrange(0, top + 1).to_multiset().add(
                all.subrange(bottom as int, n as int).to_multiset(),
            ));
        }
        top = top + 1;
        bottom = bottom - 1;
        proof {
            if top > bottom {
                assert(all =~= all.subrange(0, top as int) + all.subrange(bottom + 1, n as int));
                vstd::seq_lib::lemma_multiset_commutative(all.subrange(0, top as int), all.subrange(bottom + 1, n as int));
                assert((all.subrange(0, top as int) + all.subrange(bottom + 1, n as int)).to_multiset()
                    =~= all.subrange(0, top as int).to_multiset().add(all.subrange(bottom + 1, n as int).to_multiset()));
            }
        }
    }
    order
}

/// The alternating order is a rearrangement: every entry lands on exactly
/// one place, and every place is filled by exactly one entry.
pub proof fn lemma_alternating_order_is_permutation(n: int)
    requires
        n >= 0,
    ensures
        forall|i: int|
            0 <= i < n ==> 0 <= #[trigger] alternating_source(n, i) < n && alternating_place(
                n,
                alternating_source(n, i),
            ) == i,
        forall|j: int|
            0 <= j < n ==> 0 <= #[trigger] alternating_place(n, j) < n && alternating_source(
                n,
                alternating_place(n, j),
            ) == j,
{
}

/// The number a clef name is keyed by: its first four bytes, little-endian.
pub open spec fn spec_clef_id(bytes: Seq<u8>) -> int {
    let b0: int = if bytes.len() > 0 { bytes[0] as int } else { 0 };
    let b1: int = if bytes.len() > 1 { bytes[1] as int } else { 0 };
    let b2: int = if bytes.len() > 2 { bytes[2] as int } else { 0 };
    let b3: int = if bytes.len() > 3 { bytes[3] as int } else { 0 };
    b0 + 256 * b1 + 65536 * b2 + 16777216 * b3
}

pub fn clef_id(clef: &str) -> (v: u32)
    ensures
        v as int == spec_clef_id(vstd::utf8::encode_utf8(clef@)),
{
    let b = clef.as_bytes();
    let n = b.len();
    let b0: u32 = if n > 0 { b[0] as u32 } else { 0 };
    let b1: u32 = if n > 1 { b[1] as u32 } else { 0 };
    let b2: u32 = if n > 2 { b[2] as u32 } else { 0 };
    let b3: u32 = if n > 3 { b[3] as u32 } else { 0 };
    let v = b0 | (b1 << 8u32) | (b2 << 16u32) | (b3 << 24u32);
    assert(v == b0 + 256 * b1 + 65536 * b2 + 16777216 * b3) by (bit_vector)
        requires
            b0 < 256 && b1 < 256 && b2 < 256 && b3 < 256,
            v == b0 | (b1 << 8u32) | (b2 << 16u32) | (b3 << 24u32),
    ;
    v
}

} // verus!

verus! {

// ─── Accidental spacing rules ──────────────────────────────────────────

/// Whether a note, or some note of a chord, carries an accidental.
pub open spec fn spec_has_accidental(e: Event) -> bool {
    match e {
        Event::Note(n) => n.accidental is Some,
        Event::Chord(c) => exists|i: int| 0 <= i < c.notes@.len() && (#[trigger] c.notes@[i]).accidental is Some,
        _ => false,
    }
}

pub fn event_has_accidental(event: &Event) -> (r: bool)
    ensures
        r == spec_has_accidental(*event),
{
    match event {
        Event::Note(n) => n.accidental.is_some(),
        Event::Chord(c) => {
            let mut i: usize = 0;
            while i < c.notes.len()
                invariant
                    *event == Event::Chord(*c),
                    i <= c.notes@.len(),
                    forall|k: int| 0 <= k < i ==> (#[trigger] c.notes@[k]).accidental is None,
                decreases c.notes@.len() - i,
            {
                if c.notes[i].accidental.is_some() {
                    assert((c.notes@[i as int]).accidental is Some);
                    return true;
                }
                i = i + 1;
            }
            false
        },
        _ => false,
    }
}

/// Notes and chords: the events drawn with noteheads.
pub open spec fn spec_is_note_cluster(e: Event) -> bool {
    e is Note || e is Chord
}

pub fn event_is_note_cluster(event: &Event) -> (r: bool)
    ensures
        r == spec_is_note_cluster(*event),
{
    match event {
        Event::Note(_) | Event::Chord(_) => true,
        _ => false,
    }
}

pub open spec fn chord_note_diatonic(n: ChordNote) -> int {
    spec_pitch_to_diatonic(n.name@, n.octave as int)
}

/// The diatonic positions of an event's noteheads, in written order.
pub open spec fn spec_note_diatonics(e: Event) -> Seq<int> {
    match e {
        Event::Note(n) => seq![spec_pitch_to_diatonic(n.name@, n.octave as int)],
        Event::Chord(c) => c.notes@.map_values(|n: ChordNote| chord_note_diatonic(n)),
        _ => Seq::empty(),
    }
}

/// The diatonic positions of the chord notes that carry an accidental.
pub open spec fn accidental_diatonics_of(notes: Seq<ChordNote>) -> Seq<int>
    decreases notes.len(),
{
    if notes.len() == 0 {
        Seq::empty()
    } else {
        let rest = accidental_diatonics_of(notes.drop_last());
        if notes.last().accidental is Some {
            rest.push(chord_note_diatonic(notes.last()))
        } else {
            rest
        }
    }
}

/// The diatonic positions of an event's noteheads that carry an accidental.
pub open spec fn spec_accidental_diatonics(e: Event) -> Seq<int> {
    match e {
        Event::Note(n) => if n.accidental is Some {
            seq![spec_pitch_to_diatonic(n.name@, n.octave as int)]
        } else {
            Seq::empty()
        },
        Event::Chord(c) => accidental_diatonics_of(c.notes@),
        _ => Seq::empty(),
    }
}

pub open spec fn ints(v: Seq<i64>) -> Seq<int> {
    v.map_values(|d: i64| d as int)
}

pub fn event_note_diatonics(event: &Event) -> (r: Vec<i64>)
    ensures
        ints(r@) == spec_note_diatonics(*event),
{
    let mut r: Vec<i64> = Vec::new();
    match event {
        Event::Note(n) => {
            r.push(pitch_to_diatonic(n.name.as_str(), n.octave));
            assert(ints(r@) =~= spec_note_diatonics(*event));
        },
        Event::Chord(c) => {
            let mut i: usize = 0;
            while i < c.notes.len()
                invariant
                    i <= c.notes@.len(),
                    ints(r@) == c.notes@.take(i as int).map_values(|n: ChordNote| chord_note_diatonic(n)),
                decreases c.notes@.len() - i,
            {
                let ghost before = r@;
                let d = pitch_to_diatonic(c.notes[i].name.as_str(), c.notes[i].octave);
                r.push(d);
                assert(c.notes@.take(i + 1) =~= c.notes@.take(i as int).push(c.notes@[i as int]));
                assert(ints(r@) =~= ints(before).push(d as int));
                assert(ints(r@) =~= c.notes@.take(i + 1).map_values(|n: ChordNote| chord_note_diatonic(n)));
                i = i + 1;
            }
            assert(c.notes@.take(c.notes@.len() as int) =~= c.notes@);
        },
        _ => {
            assert(ints(r@) =~= spec_note_diatonics(*event));
        },
    }
    r
}

pub fn event_accidental_diatonics(event: &Event) -> (r: Vec<i64>)
    ensures
        ints(r@) == spec_accidental_diatonics(*event),
{
    let mut r: Vec<i64> = Vec::new();
    match event {
        Event::Note(n) => {
            if n.accidental.is_some() {
                r.push(pitch_to_diatonic(n.name.as_str(), n.octave));
            }
            assert(ints(r@) =~= spec_accidental_diatonics(*event));
        },
        Event::Chord(c) => {
            let mut i: usize = 0;
            while i < c.notes.len()
                invariant
                    i <= c.notes@.len(),
                    ints(r@) == accidental_diatonics_of(c.notes@.take(i as int)),
                decreases c.notes@.len() - i,
            {
                let ghost before = r@;
                assert(c.notes@.take(i + 1).drop_last() =~= c.notes@.take(i as int));
                assert(c.notes@.take(i + 1).last() == c.notes@[i as int]);
                if c.notes[i].accidental.is_some() {
                    let d = pitch_to_diatonic(c.notes[i].name.as_str(), c.notes[i].octave);
                    r.push(d);
                    assert(ints(r@) =~= ints(before).push(d as int));
                }
                i = i + 1;
            }
            assert(c.notes@.take(c.notes@.len() as int) =~= c.notes@);
        },
        _ => {
            assert(ints(r@) =~= spec_accidental_diatonics(*event));
        },
    }
    r
}

/// Whether some entry of `a` equals some entry of `b`.
pub open spec fn shares_entry(a: Seq<int>, b: Seq<int>) -> bool {
    exists|i: int, j: int| 0 <= i < a.len() && 0 <= j < b.len() && #[trigger] a[i] == #[trigger] b[j]
}

/// Whether some entry of `b` lies a third up to an octave above some entry
/// of `a`.
pub open spec fn has_step_above(a: Seq<int>, b: Seq<int>) -> bool {
    exists|i: int, j: int|
        0 <= i < a.len() && 0 <= j < b.len() && 2 <= #[trigger] b[j] - #[trigger] a[i] <= 7
}

fn any_shared(a: &Vec<i64>, b: &Vec<i64>) -> (r: bool)
    ensures
        r == shares_entry(ints(a@), ints(b@)),
{
    let mut i: usize = 0;
    while i < a.len()
        invariant
            i <= a@.len(),
            forall|x: int, y: int| 0 <= x < i && 0 <= y < b@.len() ==> a@[x] != b@[y],
        decreases a@.len() - i,
    {
        let mut j: usize = 0;
        while j < b.len()
            invariant
                i < a@.len(),
                j <= b@.len(),
                forall|y: int| 0 <= y < j ==> a@[i as int] != b@[y],
            decreases b@.len() - j,
        {
            if a[i] == b[j] {
                assert(ints(a@)[i as int] == ints(b@)[j as int]);
                return true;
            }
            j = j + 1;
        }
        i = i + 1;
    }
    assert forall|x: int, y: int| 0 <= x < ints(a@).len() && 0 <= y < ints(b@).len() implies ints(a@)[x] != ints(b@)[y] by {
        assert(a@[x] != b@[y]);
    }
    false
}

fn any_step_above(a: &Vec<i64>, b: &Vec<i64>) -> (r: bool)
    ensures
        r == has_step_above(ints(a@), ints(b@)),
{
    let mut i: usize = 0;
    while i < a.len()
        invariant
            i <= a@.len(),
            forall|x: int, y: int| 0 <= x < i && 0 <= y < b@.len() ==> !(2 <= #[trigger] b@[y] - #[trigger] a@[x] <= 7),
        decreases a@.len() - i,
    {
        let mut j: usize = 0;
        while j < b.len()
            invariant
                i < a@.len(),
                j <= b@.len(),
                forall|y: int| 0 <= y < j ==> !(2 <= #[trigger] b@[y] - a@[i as int] <= 7),
            decreases b@.len() - j,
        {
            let ai = a[i] as i128;
            let bj = b[j] as i128;
            if 2 <= bj - ai && bj - ai <= 7 {
                assert(2 <= ints(b@)[j as int] - ints(a@)[i as int] <= 7);
                return true;
            }
            j = j + 1;
        }
        i = i + 1;
    }
    assert forall|x: int, y: int| 0 <= x < ints(a@).len() && 0 <= y < ints(b@).len() implies !(2 <= #[trigger] ints(b@)[y] - #[trigger] ints(a@)[x] <= 7) by {
        assert(!(2 <= b@[y] - a@[x] <= 7));
    }
    false
}

/// A stem of a half note or shorter that would run into an accidental a
/// third to an octave above it on a longer following note.
pub open spec fn spec_stem_needs_accidental_space(e: Event, next: Event) -> bool {
    &&& e.spec_duration() >= 2
    &&& next.spec_duration() > e.spec_duration()
    &&& has_step_above(spec_note_diatonics(e), spec_accidental_diatonics(next))
}

pub fn note_cluster_stem_needs_accidental_space(event: &Event, next: &Event) -> (r: bool)
    ensures
        r == spec_stem_needs_accidental_space(*event, *next),
{
    if event.duration() < 2 {
        return false;
    }
    if next.duration() <= event.duration() {
        return false;
    }
    let event_diatonics = event_note_diatonics(event);
    let next_accidental_diatonics = event_accidental_diatonics(next);
    any_step_above(&event_diatonics, &next_accidental_diatonics)
}

/// The next event's accidental sits on a line or space that a notehead of
/// this event uses, or its stem would run into it.
pub open spec fn spec_note_cluster_needs_accidental_space(e: Event, next: Event) -> bool {
    shares_entry(spec_note_diatonics(e), spec_accidental_diatonics(next))
        || spec_stem_needs_accidental_space(e, next)
}

pub fn note_cluster_needs_accidental_space(event: &Event, next: &Event) -> (r: bool)
    ensures
        r == spec_note_cluster_needs_accidental_space(*event, *next),
{
    let event_diatonics = event_note_diatonics(event);
    let next_accidental_diatonics = event_accidental_diatonics(next);
    any_shared(&event_diatonics, &next_accidental_diatonics) || note_cluster_stem_needs_accidental_space(
        event,
        next,
    )
}

/// A flagged note or chord followed by a longer note or chord that carries
/// an accidental, neither being a grace event.
pub open spec fn spec_flagged_note_before_longer_accidental(e: Event, next: Event) -> bool {
    &&& e.spec_duration() >= 8
    &&& next.spec_duration() > 0
    &&& e.spec_duration() > next.spec_duration()
    &&& !e.spec_grace()
    &&& !next.spec_grace()
    &&& spec_is_note_cluster(e)
    &&& spec_is_note_cluster(next)
    &&& spec_has_accidental(next)
}

pub fn flagged_note_before_longer_accidental(event: &Event, next: &Event) -> (r: bool)
    ensures
        r == spec_flagged_note_before_longer_accidental(*event, *next),
{
    event.duration() >= 8 && next.duration() > 0 && event.duration() > next.duration() && !event.grace()
        && !next.grace() && event_is_note_cluster(event) && event_is_note_cluster(next)
        && event_has_accidental(next)
}

/// A note or chord of an eighth or shorter that is not a grace event.
pub open spec fn spec_is_short_gap_neighbor(e: Event) -> bool {
    spec_is_note_cluster(e) && !e.spec_grace() && e.spec_duration() >= 8
}

pub fn is_short_gap_neighbor(event: &Event) -> (r: bool)
    ensures
        r == spec_is_short_gap_neighbor(*event),
{
    event_is_note_cluster(event) && !event.grace() && event.duration() >= 8
}

pub open spec fn opt_short_neighbor(e: Option<&Event>) -> bool {
    match e {
        Some(x) => spec_is_short_gap_neighbor(*x),
        None => false,
    }
}

/// The extra spacing units a gap asks for: one less between two short notes,
/// and never below zero.
pub open spec fn spec_gap_extra_space_units(amount: int, prev: Option<&Event>, next: Option<&Event>) -> int {
    let a = if amount > 0 && opt_short_neighbor(prev) && opt_short_neighbor(next) {
        amount - 1
    } else {
        amount
    };
    if a > 0 {
        a
    } else {
        0
    }
}

pub fn gap_extra_space_units(gap: &Gap, prev: Option<&Event>, next: Option<&Event>) -> (r: i32)
    ensures
        r as int == spec_gap_extra_space_units(gap.amount as int, prev, next),
{
    let mut amount = gap.amount;
    let prev_short = match prev {
        Some(p) => is_short_gap_neighbor(p),
        None => false,
    };
    let next_short = match next {
        Some(n) => is_short_gap_neighbor(n),
        None => false,
    };
    if amount > 0 && prev_short && next_short {
        amount = amount - 1;
    }
    if amount > 0 {
        amount
    } else {
        0
    }
}

/// Whether the next event's accidental needs room after this event: after a
/// barline or rest, after a tied grace event, or after a note or chord it
/// would collide with.
pub open spec fn spec_needs_leading_accidental_space(e: Event, next: Event) -> bool {
    if !spec_has_accidental(next) {
        false
    } else if e is Barline || e is Rest {
        true
    } else if e.spec_grace() && e.spec_tie() {
        true
    } else if spec_is_note_cluster(e) {
        spec_note_cluster_needs_accidental_space(e, next)
    } else {
        false
    }
}

pub fn needs_leading_accidental_space(event: &Event, next: &Event) -> (r: bool)
    ensures
        r == spec_needs_leading_accidental_space(*event, *next),
{
    if !event_has_accidental(next) {
        return false;
    }
    match event {
        Event::Barline(_) | Event::Rest(_) => true,
        _ => {
            if event.grace() && event.tie() {
                true
            } else if event_is_note_cluster(event) {
                note_cluster_needs_accidental_space(event, next)
            } else {
                false
            }
        },
    }
}

/// Two undotted, non-grace notes or chords in a row whose spacing needs no
/// room for an accidental.
pub open spec fn spec_plain_note_pair(e: Event, next: Option<&Event>) -> bool {
    match next {
        Some(n) => {
            &&& spec_is_note_cluster(e)
            &&& spec_is_note_cluster(*n)
            &&& !e.spec_grace()
            &&& !n.spec_grace()
            &&& e.spec_dots() == 0
            &&& n.spec_dots() == 0
            &&& !spec_needs_leading_accidental_space(e, *n)
        },
        None => false,
    }
}

pub fn plain_note_pair(event: &Event, next: Option<&Event>) -> (r: bool)
    ensures
        r == spec_plain_note_pair(*event, next),
{
    let next = match next {
        Some(n) => n,
        None => return false,
    };
    event_is_note_cluster(event) && event_is_note_cluster(next) && !event.grace() && !next.grace()
        && event.dots() == 0 && next.dots() == 0 && !needs_leading_accidental_space(event, next)
}

pub open spec fn opt_is_barline_or_absent(e: Option<&Event>) -> bool {
    match e {
        Some(x) => *x is Barline,
        None => true,
    }
}

/// An undotted whole rest standing alone between barlines (or the ends).
pub open spec fn spec_is_empty_measure_whole_rest(e: Event, prev: Option<&Event>, next: Option<&Event>) -> bool {
    &&& e matches Event::Rest(r) && r.duration == 1 && r.dots == 0
    &&& opt_is_barline_or_absent(prev)
    &&& opt_is_barline_or_absent(next)
}

pub fn is_empty_measure_whole_rest(event: &Event, prev: Option<&Event>, next: Option<&Event>) -> (r: bool)
    ensures
        r == spec_is_empty_measure_whole_rest(*event, prev, next),
{
    let whole = match event {
        Event::Rest(r) => r.duration == 1 && r.dots == 0,
        _ => false,
    };
    let prev_ok = match prev {
        Some(p) => p.is_barline(),
        None => true,
    };
    let next_ok = match next {
        Some(n) => n.is_barline(),
        None => true,
    };
    whole && prev_ok && next_ok
}

// ─── Events that take part in beat alignment ───────────────────────────

pub fn is_grace_event(ev: &Event) -> (r: bool)
    ensures
        r == ev.spec_grace(),
{
    ev.grace()
}

/// Events that take up musical time: notes, rests, spacers, chords and
/// voice groups, grace events excepted.
pub open spec fn spec_is_rhythmic_event(e: Event) -> bool {
    (e is Note || e is Rest || e is Spacer || e is Chord || e is VoiceGroup) && !e.spec_grace()
}

pub fn is_rhythmic_event(ev: &Event) -> (r: bool)
    ensures
        r == spec_is_rhythmic_event(*ev),
{
    let kind = match ev {
        Event::Note(_) | Event::Rest(_) | Event::Spacer(_) | Event::Chord(_) | Event::VoiceGroup(_) => true,
        _ => false,
    };
    kind && !is_grace_event(ev)
}

/// Events that stand between beats: barlines, clef, key and time changes,
/// and gaps.
pub open spec fn spec_is_boundary_event(e: Event) -> bool {
    e is Barline || e is Clef || e is KeySig || e is TimeSig || e is Gap
}

pub fn is_boundary_event(ev: &Event) -> (r: bool)
    ensures
        r == spec_is_boundary_event(*ev),
{
    match ev {
        Event::Barline(_) | Event::Clef(_) | Event::KeySig(_) | Event::TimeSig(_) | Event::Gap(_) => true,
        _ => false,
    }
}

} // verus!

verus! {

// ─── Cutting an event stream into measures and systems ─────────────────

/// The parts of an event list, each list turned into its sequence.
pub open spec fn parts_view(parts: Seq<Vec<Event>>) -> Seq<Seq<Event>> {
    parts.map_values(|v: Vec<Event>| v@)
}

pub open spec fn is_line_break_event(e: Event) -> bool {
    e is LineBreak
}

pub fn has_line_breaks(events: &[Event]) -> (r: bool)
    ensures
        r == (exists|i: int| 0 <= i < events@.len() && #[trigger] is_line_break_event(events@[i])),
{
    let mut i: usize = 0;
    while i < events.len()
        invariant
            i <= events@.len(),
            forall|k: int| 0 <= k < i ==> !#[trigger] is_line_break_event(events@[k]),
        decreases events@.len() - i,
    {
        if crate::parser::is_line_break(&events[i]) {
            assert(is_line_break_event(events@[i as int]));
            return true;
        }
        i = i + 1;
    }
    false
}

/// Scanning left to right: the systems closed so far and the events of the
/// system still open. A line break closes the open system when it holds
/// anything; line breaks themselves are dropped.
pub open spec fn line_break_scan(s: Seq<Event>) -> (Seq<Seq<Event>>, Seq<Event>)
    decreases s.len(),
{
    if s.len() == 0 {
        (Seq::empty(), Seq::empty())
    } else {
        let (done, cur) = line_break_scan(s.drop_last());
        if s.last() is LineBreak {
            if cur.len() > 0 {
                (done.push(cur), Seq::empty())
            } else {
                (done, cur)
            }
        } else {
            (done, cur.push(s.last()))
        }
    }
}

/// The systems that the line breaks of an event stream mark out.
pub open spec fn spec_split_at_line_breaks(s: Seq<Event>) -> Seq<Seq<Event>> {
    let (done, cur) = line_break_scan(s);
    if cur.len() > 0 {
        done.push(cur)
    } else {
        done
    }
}

/// Cuts an event stream into systems at its line breaks; the line breaks
/// are dropped and no system is empty.
pub fn split_at_line_breaks(events: Vec<Event>) -> (systems: Vec<Vec<Event>>)
    ensures
        parts_view(systems@) == spec_split_at_line_breaks(events@),
{
    let ghost s = events@;
    let mut systems: Vec<Vec<Event>> = Vec::new();
    let mut current: Vec<Event> = Vec::new();
    for event in it: events.into_iter()
        invariant
            it.seq() == s,
            (parts_view(systems@), current@) == line_break_scan(s.take(it.index() as int)),
    {
        let ghost k = it.index() as int;
        assert(s.take(k + 1).drop_last() =~= s.take(k));
        assert(s.take(k + 1).last() == event);
        if crate::parser::is_line_break(&event) {
            if current.len() > 0 {
                let ghost before = systems@;
                systems.push(current);
                current = Vec::new();
                assert(parts_view(systems@) =~= parts_view(before).push(
                    line_break_scan(s.take(k)).1,
                ));
            }
        } else {
            current.push(event);
        }
    }
    assert(s.take(s.len() as int) =~= s);
    if current.len() > 0 {
        let ghost before = systems@;
        let ghost cur = current@;
        systems.push(current);
        assert(parts_view(systems@) =~= parts_view(before).push(cur));
    }
    systems
}

/// Scanning left to right: the measures closed so far and the events of the
/// measure still open. A barline closes the measure it ends.
pub open spec fn measure_scan(s: Seq<Event>) -> (Seq<Seq<Event>>, Seq<Event>)
    decreases s.len(),
{
    if s.len() == 0 {
        (Seq::empty(), Seq::empty())
    } else {
        let (done, cur) = measure_scan(s.drop_last());
        let cur2 = cur.push(s.last());
        if s.last() is Barline {
            (done.push(cur2), Seq::empty())
        } else {
            (done, cur2)
        }
    }
}

/// The measures of an event stream: each ends with its barline, and what
/// follows the last barline forms a final measure of its own.
pub open spec fn spec_split_into_measures(s: Seq<Event>) -> Seq<Seq<Event>> {
    let (done, cur) = measure_scan(s);
    if cur.len() > 0 {
        done.push(cur)
    } else {
        done
    }
}

pub fn split_into_measures(events: Vec<Event>) -> (measures: Vec<Vec<Event>>)
    ensures
        parts_view(measures@) == spec_split_into_measures(events@),
{
    let ghost s = events@;
    let mut measures: Vec<Vec<Event>> = Vec::new();
    let mut current: Vec<Event> = Vec::new();
    for event in it: events.into_iter()
        invariant
            it.seq() == s,
            (parts_view(measures@), current@) == measure_scan(s.take(it.index() as int)),
    {
        let ghost k = it.index() as int;
        assert(s.take(k + 1).drop_last() =~= s.take(k));
        assert(s.take(k + 1).last() == event);
        let is_bar = event.is_barline();
        current.push(event);
        if is_bar {
            let ghost before = measures@;
            let ghost cur = current@;
            measures.push(current);
            current = Vec::new();
            assert(parts_view(measures@) =~= parts_view(before).push(cur));
        }
    }
    assert(s.take(s.len() as int) =~= s);
    if current.len() > 0 {
        let ghost before = measures@;
        let ghost cur = current@;
        measures.push(current);
        assert(parts_view(measures@) =~= parts_view(before).push(cur));
    }
    measures
}

/// Moves every event of `src` to the end of `dst`, in order.
pub fn append_events(dst: &mut Vec<Event>, src: Vec<Event>)
    ensures
        final(dst)@ == old(dst)@ + src@,
{
    let ghost s = src@;
    let ghost start = dst@;
    for event in it: src.into_iter()
        invariant
            it.seq() == s,
            dst@ == start + s.take(it.index() as int),
    {
        let ghost k = it.index() as int;
        assert(s.take(k + 1) =~= s.take(k).push(event));
        dst.push(event);
        assert(dst@ =~= start + s.take(k + 1));
    }
    assert(s.take(s.len() as int) =~= s);
}

/// Scanning the measures left to right: the systems closed so far, the
/// events of the open system, and how many measures it holds.
pub open spec fn count_scan(ms: Seq<Seq<Event>>, per_line: int) -> (Seq<Seq<Event>>, Seq<Event>, int)
    decreases ms.len(),
{
    if ms.len() == 0 {
        (Seq::empty(), Seq::empty(), 0)
    } else {
        let (done, cur, count) = count_scan(ms.drop_last(), per_line);
        let cur2 = cur + ms.last();
        if count + 1 >= per_line {
            (done.push(cur2), Seq::empty(), 0)
        } else {
            (done, cur2, count + 1)
        }
    }
}

/// Systems of `per_line` measures each; the last may hold fewer. An empty
/// stream gives one empty system.
pub open spec fn spec_systems_by_measure_count(s: Seq<Event>, per_line: int) -> Seq<Seq<Event>> {
    let ms = spec_split_into_measures(s);
    if ms.len() == 0 {
        seq![Seq::empty()]
    } else {
        let (done, cur, count) = count_scan(ms, per_line);
        if cur.len() > 0 {
            done.push(cur)
        } else {
            done
        }
    }
}

/// The fixed measures-per-line breaking of a staff.
pub fn systems_by_measure_count(events: Vec<Event>, measures_per_line: i32) -> (systems: Vec<Vec<Event>>)
    requires
        measures_per_line > 0,
    ensures
        parts_view(systems@) == spec_systems_by_measure_count(events@, measures_per_line as int),
{
    let ghost s = events@;
    let measures = split_into_measures(events);
    let ghost ms = parts_view(measures@);
    if measures.len() == 0 {
        let mut systems: Vec<Vec<Event>> = Vec::new();
        systems.push(Vec::new());
        assert(parts_view(systems@) =~= seq![Seq::<Event>::empty()]);
        return systems;
    }
    let mut systems: Vec<Vec<Event>> = Vec::new();
    let mut current_events: Vec<Event> = Vec::new();
    let mut measure_count: i32 = 0;
    for measure in it: measures.into_iter()
        invariant
            parts_view(it.seq()) == ms,
            0 <= measure_count < measures_per_line,
            (parts_view(systems@), current_events@, measure_count as int) == count_scan(
                ms.take(it.index() as int),
                measures_per_line as int,
            ),
    {
        let ghost k = it.index() as int;
        assert(ms.take(k + 1).drop_last() =~= ms.take(k));
        assert(ms.take(k + 1).last() == measure@);
        append_events(&mut current_events, measure);
        measure_count = measure_count + 1;
        if measure_count >= measures_per_line {
            let ghost before = systems@;
            let ghost cur = current_events@;
            systems.push(current_events);
            current_events = Vec::new();
            measure_count = 0;
            assert(parts_view(systems@) =~= parts_view(before).push(cur));
        }
    }
    assert(ms.take(ms.len() as int) =~= ms);
    if current_events.len() > 0 {
        let ghost before = systems@;
        let ghost cur = current_events@;
        systems.push(current_events);
        assert(parts_view(systems@) =~= parts_view(before).push(cur));
    }
    systems
}

} // verus!

verus! {

/// How many leading events hold the first `bars` barlines: events are taken
/// up to and including the barline that completes the count, or all of
/// them when there are fewer.
pub open spec fn bar_prefix_len(s: Seq<Event>, bars: int) -> int
    decreases s.len(),
{
    if s.len() == 0 || bars <= 0 {
        0
    } else {
        1 + bar_prefix_len(s.drop_first(), if s[0] is Barline { bars - 1 } else { bars })
    }
}

/// How many events the system with `bars` measures takes from the front of
/// `s`: a system of no measures that starts at a line break takes just the
/// line break.
pub open spec fn mirror_take(s: Seq<Event>, bars: int) -> int {
    if bars == 0 && s.len() > 0 && s[0] is LineBreak {
        1
    } else {
        bar_prefix_len(s, bars)
    }
}

/// Another staff cut into systems with the measure counts of the first: each
/// system takes as many measures as the count says, the last system takes
/// everything that is left.
pub open spec fn spec_mirror_breaks(s: Seq<Event>, counts: Seq<usize>) -> Seq<Seq<Event>>
    decreases counts.len(),
{
    if counts.len() == 0 {
        if s.len() > 0 {
            seq![s]
        } else {
            Seq::empty()
        }
    } else if counts.len() == 1 {
        seq![s]
    } else {
        let k = mirror_take(s, counts[0] as int);
        seq![s.take(k)] + spec_mirror_breaks(s.skip(k), counts.drop_first())
    }
}

proof fn lemma_bar_prefix_len_bounds(s: Seq<Event>, bars: int)
    ensures
        0 <= bar_prefix_len(s, bars) <= s.len(),
    decreases s.len(),
{
    if s.len() > 0 && bars > 0 {
        lemma_bar_prefix_len_bounds(s.drop_first(), if s[0] is Barline { bars - 1 } else { bars });
    }
}

pub fn mirror_breaks(events: Vec<Event>, measure_counts: &[usize]) -> (mirrored: Vec<Vec<Event>>)
    ensures
        parts_view(mirrored@) == spec_mirror_breaks(events@, measure_counts@),
{
    let ghost s = events@;
    let ghost counts = measure_counts@;
    let mut mirrored: Vec<Vec<Event>> = Vec::new();
    let mut remaining = events;
    let n = measure_counts.len();
    let mut mc_idx: usize = 0;
    proof {
        assert(counts.skip(0) =~= counts);
        assert(parts_view(mirrored@) + spec_mirror_breaks(s, counts) =~= spec_mirror_breaks(s, counts));
    }
    while mc_idx < n
        invariant
            n == counts.len(),
            counts == measure_counts@,
            mc_idx <= n,
            (mc_idx == n && n > 0) ==> remaining@.len() == 0,
            spec_mirror_breaks(s, counts) == parts_view(mirrored@) + spec_mirror_breaks(
                remaining@,
                counts.skip(mc_idx as int),
            ),
        decreases n - mc_idx,
    {
        let mc = measure_counts[mc_idx];
        let is_last = mc_idx == n - 1;
        let ghost r = remaining@;
        let ghost rest_counts = counts.skip(mc_idx as int);
        assert(rest_counts.len() >= 1);
        assert(rest_counts[0] == mc);
        assert(rest_counts.drop_first() =~= counts.skip(mc_idx + 1));
        let mut bars_seen: usize = 0;
        let mut j: usize = 0;
        assert(r.skip(0) =~= r);
        while j < remaining.len() && (is_last || bars_seen < mc)
            invariant
                r == remaining@,
                j <= r.len(),
                bars_seen <= j,
                !is_last ==> bars_seen <= mc,
                !is_last ==> bar_prefix_len(r, mc as int) == j + bar_prefix_len(
                    r.skip(j as int),
                    mc - bars_seen,
                ),
            decreases r.len() - j,
        {
            proof {
                if !is_last {
                    assert(r.skip(j as int).drop_first() =~= r.skip(j + 1));
                }
            }
            if remaining[j].is_barline() {
                bars_seen = bars_seen + 1;
            }
            j = j + 1;
        }
        proof {
            if !is_last {
                assert(r.skip(j as int).len() == 0 || mc - bars_seen <= 0);
                assert(bar_prefix_len(r.skip(j as int), mc - bars_seen) == 0);
            }
        }
        if mc == 0 && !is_last && remaining.len() > 0 && crate::parser::is_line_break(&remaining[0]) {
            j = 1;
        } else if is_last {
            j = remaining.len();
        }
        let rest = remaining.split_off(j);
        let ghost before = mirrored@;
        let ghost seg = remaining@;
        mirrored.push(remaining);
        remaining = rest;
        proof {
            assert(parts_view(mirrored@) =~= parts_view(before).push(seg));
            if is_last {
                assert(rest_counts.len() == 1);
                assert(seg =~= r);
                assert(spec_mirror_breaks(r, rest_counts) == seq![r]);
                assert(parts_view(before) + seq![r] =~= parts_view(before).push(seg));
            } else {
                assert(j as int == mirror_take(r, mc as int));
                assert(seg =~= r.take(j as int));
                assert(remaining@ =~= r.skip(j as int));
                assert(spec_mirror_breaks(r, rest_counts) == seq![r.take(j as int)]
                    + spec_mirror_breaks(r.skip(j as int), counts.skip(mc_idx + 1)));
                assert(parts_view(before) + (seq![seg] + spec_mirror_breaks(remaining@, counts.skip(mc_idx + 1)))
                    =~= parts_view(mirrored@) + spec_mirror_breaks(remaining@, counts.skip(mc_idx + 1)));
            }
        }
        mc_idx = mc_idx + 1;
    }
    assert(counts.skip(n as int).len() == 0);
    if remaining.len() > 0 {
        let ghost before = mirrored@;
        let ghost seg = remaining@;
        mirrored.push(remaining);
        proof {
            assert(parts_view(mirrored@) =~= parts_view(before).push(seg));
            assert(parts_view(before) + seq![seg] =~= parts_view(mirrored@));
        }
    } else {
        proof {
            assert(parts_view(mirrored@) + Seq::<Seq<Event>>::empty() =~= parts_view(mirrored@));
        }
    }
    mirrored
}

} // verus!

verus! {

// ─── What the cutting keeps ────────────────────────────────────────────

/// The events that end up in systems: everything but line breaks.
pub open spec fn kept_in_systems() -> spec_fn(Event) -> bool {
    |e: Event| !(e is LineBreak)
}

proof fn lemma_line_break_scan(s: Seq<Event>)
    ensures
        line_break_scan(s).0.flatten() + line_break_scan(s).1 == s.filter(kept_in_systems()),
        forall|i: int| 0 <= i < line_break_scan(s).0.len() ==> (#[trigger] line_break_scan(s).0[i]).len() > 0,
        forall|i: int, k: int|
            0 <= i < line_break_scan(s).0.len() && 0 <= k < line_break_scan(s).0[i].len()
                ==> !(#[trigger] line_break_scan(s).0[i][k] is LineBreak),
        forall|k: int| 0 <= k < line_break_scan(s).1.len() ==> !(#[trigger] line_break_scan(s).1[k] is LineBreak),
    decreases s.len(),
{
    broadcast use Seq::lemma_flatten_push, Seq::lemma_filter_push;

    if s.len() > 0 {
        let p = s.drop_last();
        lemma_line_break_scan(p);
        assert(p.push(s.last()) =~= s);
        let (done, cur) = line_break_scan(p);
        if s.last() is LineBreak {
            if cur.len() > 0 {
                assert(done.push(cur).flatten() + Seq::<Event>::empty() =~= done.flatten() + cur);
            }
        } else {
            assert(done.flatten() + cur.push(s.last()) =~= (done.flatten() + cur).push(s.last()));
        }
    }
}

/// Cutting at line breaks keeps every other event, in order, and gives
/// systems that are neither empty nor hold a line break.
pub proof fn lemma_line_break_systems(s: Seq<Event>)
    ensures
        spec_split_at_line_breaks(s).flatten() == s.filter(kept_in_systems()),
        forall|i: int| 0 <= i < spec_split_at_line_breaks(s).len() ==> (#[trigger] spec_split_at_line_breaks(s)[i]).len() > 0,
        forall|i: int, k: int|
            0 <= i < spec_split_at_line_breaks(s).len() && 0 <= k < spec_split_at_line_breaks(s)[i].len()
                ==> !(#[trigger] spec_split_at_line_breaks(s)[i][k] is LineBreak),
{
    broadcast use Seq::lemma_flatten_push;

    lemma_line_break_scan(s);
    let (done, cur) = line_break_scan(s);
    if cur.len() > 0 {
        assert(done.push(cur).flatten() =~= done.flatten() + cur);
    } else {
        assert(done.flatten() + cur =~= done.flatten());
    }
}

proof fn lemma_line_break_scan_append(p: Seq<Event>, q: Seq<Event>)
    requires
        line_break_scan(p).1.len() == 0,
    ensures
        line_break_scan(p + q) == (line_break_scan(p).0 + line_break_scan(q).0, line_break_scan(q).1),
    decreases q.len(),
{
    if q.len() == 0 {
        assert(p + q =~= p);
        assert(line_break_scan(p).0 + Seq::<Seq<Event>>::empty() =~= line_break_scan(p).0);
    } else {
        lemma_line_break_scan_append(p, q.drop_last());
        assert((p + q).drop_last() =~= p + q.drop_last());
        assert((p + q).last() == q.last());
        let (dq, cq) = line_break_scan(q.drop_last());
        if q.last() is LineBreak && cq.len() > 0 {
            assert((line_break_scan(p).0 + dq).push(cq) =~= line_break_scan(p).0 + dq.push(cq));
        }
    }
}

/// A line break always ends a system: what stands before it and what
/// follows it are cut into systems on their own.
pub proof fn lemma_line_break_forces_system_break(a: Seq<Event>, b: Seq<Event>)
    ensures
        spec_split_at_line_breaks(a + seq![Event::LineBreak] + b) == spec_split_at_line_breaks(a)
            + spec_split_at_line_breaks(b),
{
    let p = a + seq![Event::LineBreak];
    assert(p.drop_last() =~= a);
    assert(line_break_scan(p).0 == spec_split_at_line_breaks(a));
    assert(line_break_scan(p).1.len() == 0);
    lemma_line_break_scan_append(p, b);
    let (db, cb) = line_break_scan(b);
    if cb.len() > 0 {
        assert((spec_split_at_line_breaks(a) + db).push(cb) =~= spec_split_at_line_breaks(a) + db.push(cb));
    }
}

proof fn lemma_measure_scan(s: Seq<Event>)
    ensures
        measure_scan(s).0.flatten() + measure_scan(s).1 == s,
        forall|i: int| 0 <= i < measure_scan(s).0.len() ==> (#[trigger] measure_scan(s).0[i]).len() > 0
            && measure_scan(s).0[i].last() is Barline,
        forall|i: int, k: int|
            0 <= i < measure_scan(s).0.len() && 0 <= k < measure_scan(s).0[i].len() - 1
                ==> !(#[trigger] measure_scan(s).0[i][k] is Barline),
        forall|k: int| 0 <= k < measure_scan(s).1.len() ==> !(#[trigger] measure_scan(s).1[k] is Barline),
    decreases s.len(),
{
    broadcast use Seq::lemma_flatten_push;

    if s.len() > 0 {
        let p = s.drop_last();
        lemma_measure_scan(p);
        let (done, cur) = measure_scan(p);
        let cur2 = cur.push(s.last());
        assert(done.flatten() + cur2 =~= (done.flatten() + cur).push(s.last()));
        assert(p.push(s.last()) =~= s);
        if s.last() is Barline {
            assert(done.push(cur2).flatten() + Seq::<Event>::empty() =~= done.flatten() + cur2);
            assert forall|i: int, k: int|
                0 <= i < done.push(cur2).len() && 0 <= k < done.push(cur2)[i].len() - 1
                    implies !(#[trigger] done.push(cur2)[i][k] is Barline) by {
                if i < done.len() {
                    assert(done.push(cur2)[i] == done[i]);
                } else {
                    assert(done.push(cur2)[i] == cur2);
                    assert(cur2[k] == cur[k]);
                }
            }
        }
    }
}

/// The measures of an event stream hold every event once, in order; none is
/// empty, each ends with its barline but the last, and no barline stands
/// inside a measure.
pub proof fn lemma_measures_partition(s: Seq<Event>)
    ensures
        spec_split_into_measures(s).flatten() == s,
        forall|i: int| 0 <= i < spec_split_into_measures(s).len() ==> (#[trigger] spec_split_into_measures(s)[i]).len() > 0,
        forall|i: int|
            0 <= i < spec_split_into_measures(s).len() - 1 ==> (#[trigger] spec_split_into_measures(s)[i]).last() is Barline,
        forall|i: int, k: int|
            0 <= i < spec_split_into_measures(s).len() && 0 <= k < spec_split_into_measures(s)[i].len() - 1
                ==> !(#[trigger] spec_split_into_measures(s)[i][k] is Barline),
{
    broadcast use Seq::lemma_flatten_push;

    lemma_measure_scan(s);
    let (done, cur) = measure_scan(s);
    if cur.len() > 0 {
        assert(done.push(cur).flatten() =~= done.flatten() + cur);
        assert forall|i: int, k: int|
            0 <= i < done.push(cur).len() && 0 <= k < done.push(cur)[i].len() - 1
                implies !(#[trigger] done.push(cur)[i][k] is Barline) by {
            if i < done.len() {
                assert(done.push(cur)[i] == done[i]);
            }
        }
    } else {
        assert(done.flatten() + cur =~= done.flatten());
    }
}

proof fn lemma_count_scan(ms: Seq<Seq<Event>>, per_line: int)
    requires
        per_line > 0,
    ensures
        count_scan(ms, per_line).0.flatten() + count_scan(ms, per_line).1 == ms.flatten(),
    decreases ms.len(),
{
    broadcast use Seq::lemma_flatten_push;

    if ms.len() > 0 {
        let p = ms.drop_last();
        lemma_count_scan(p, per_line);
        assert(p.push(ms.last()) =~= ms);
        let (done, cur, count) = count_scan(p, per_line);
        assert(done.flatten() + (cur + ms.last()) =~= (done.flatten() + cur) + ms.last());
        if count + 1 >= per_line {
            assert(done.push(cur + ms.last()).flatten() + Seq::<Event>::empty() =~= done.flatten() + (cur + ms.last()));
        }
    }
}

/// Breaking after a fixed number of measures keeps every event once, in
/// order.
pub proof fn lemma_systems_by_count_keep_events(s: Seq<Event>, per_line: int)
    requires
        per_line > 0,
    ensures
        spec_systems_by_measure_count(s, per_line).flatten() == s,
{
    broadcast use Seq::lemma_flatten_push;

    lemma_measures_partition(s);
    let ms = spec_split_into_measures(s);
    if ms.len() == 0 {
        assert(s.len() == 0);
        let one: Seq<Seq<Event>> = seq![Seq::empty()];
        assert(one.drop_first() =~= Seq::<Seq<Event>>::empty());
        assert(one.flatten() =~= Seq::<Event>::empty() + one.drop_first().flatten());
        assert(one.flatten() =~= s);
    } else {
        lemma_count_scan(ms, per_line);
        let (done, cur, count) = count_scan(ms, per_line);
        if cur.len() > 0 {
            assert(done.push(cur).flatten() =~= done.flatten() + cur);
        } else {
            assert(done.flatten() + cur =~= done.flatten());
        }
    }
}

/// Mirrored systems hold every event of the staff once, in order, and there
/// is one system per measure count.
pub proof fn lemma_mirror_keeps_events(s: Seq<Event>, counts: Seq<usize>)
    ensures
        spec_mirror_breaks(s, counts).flatten() == s,
        counts.len() > 0 ==> spec_mirror_breaks(s, counts).len() == counts.len(),
    decreases counts.len(),
{
    if counts.len() == 0 {
        if s.len() > 0 {
            let one = seq![s];
            assert(one.drop_first() =~= Seq::<Seq<Event>>::empty());
            assert(one.flatten() =~= s + one.drop_first().flatten());
        }
    } else if counts.len() == 1 {
        let one = seq![s];
        assert(one.drop_first() =~= Seq::<Seq<Event>>::empty());
        assert(one.flatten() =~= s + one.drop_first().flatten());
    } else {
        let k = mirror_take(s, counts[0] as int);
        lemma_bar_prefix_len_bounds(s, counts[0] as int);
        lemma_mirror_keeps_events(s.skip(k), counts.drop_first());
        let all = seq![s.take(k)] + spec_mirror_breaks(s.skip(k), counts.drop_first());
        assert(all.first() == s.take(k));
        assert(all.drop_first() =~= spec_mirror_breaks(s.skip(k), counts.drop_first()));
        assert(s.take(k) + s.skip(k) =~= s);
    }
}

} // verus!
