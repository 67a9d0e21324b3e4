//! Note-colour maps: keys such as `"c"`, `"f#"` or `"c''"` mapped to colours,
//! merged from the score and the staff, and looked up per note.

use vstd::prelude::*;

use crate::types::{ChordNote, Chord, ElementColors, Event, Note};
use crate::text::{
    opt_str_view, opt_view, owned, push_char, resolve_color_name, spec_resolve_color, str_eq,
    str_trim, trim_ws,
};

verus! {

/// The accidental spelled at `p` (`#`, `##`, `&`, `&&`, `=`) and the position
/// after it.
pub open spec fn spec_accidental_at(b: Seq<u8>, p: int) -> (Option<Seq<char>>, int) {
    if 0 <= p < b.len() && b[p] == 35 {
        if p + 1 < b.len() && b[p + 1] == 35 {
            (Some("double-sharp"@), p + 2)
        } else {
            (Some("sharp"@), p + 1)
        }
    } else if 0 <= p < b.len() && b[p] == 38 {
        if p + 1 < b.len() && b[p + 1] == 38 {
            (Some("double-flat"@), p + 2)
        } else {
            (Some("flat"@), p + 1)
        }
    } else if 0 <= p < b.len() && b[p] == 61 {
        (Some("natural"@), p + 1)
    } else {
        (None, p)
    }
}

/// Reads the accidental at `p`; returns it with the position after it.
pub fn accidental_at(b: &[u8], p: usize) -> (r: (Option<String>, usize))
    ensures
        (opt_view(r.0), r.1 as int) == spec_accidental_at(b@, p as int),
{
    if p < b.len() && b[p] == 35 {
        if p + 1 < b.len() && b[p + 1] == 35 {
            (Some(owned("double-sharp")), p + 2)
        } else {
            (Some(owned("sharp")), p + 1)
        }
    } else if p < b.len() && b[p] == 38 {
        if p + 1 < b.len() && b[p + 1] == 38 {
            (Some(owned("double-flat")), p + 2)
        } else {
            (Some(owned("flat")), p + 1)
        }
    } else if p < b.len() && b[p] == 61 {
        (Some(owned("natural")), p + 1)
    } else {
        (None, p)
    }
}

/// The key under which colours of one pitch class are grouped: the note name,
/// `|`, and the accidental (empty without one).
pub open spec fn spec_pitch_class_key(name: Seq<char>, accidental: Option<Seq<char>>) -> Seq<char> {
    match accidental {
        Some(a) => name + "|"@ + a,
        None => name + "|"@,
    }
}

pub fn pitch_class_key(name: &str, accidental: Option<&str>) -> (r: String)
    ensures
        r@ == spec_pitch_class_key(name@, opt_str_view(accidental)),
{
    let mut key = owned(name);
    key.append("|");
    if let Some(a) = accidental {
        key.append(a);
    }
    key
}

/// The octave reached by the octave marks `'` (up) and `,` (down) that fill
/// `b` from `pos` to its end; `None` if anything else is there.
pub open spec fn spec_octave_marks_to_end(b: Seq<u8>, pos: int, octave: int) -> Option<int>
    decreases b.len() - pos,
{
    if pos < 0 || pos >= b.len() {
        Some(octave)
    } else if b[pos] == 39 {
        spec_octave_marks_to_end(b, pos + 1, octave + 1)
    } else if b[pos] == 44 {
        spec_octave_marks_to_end(b, pos + 1, octave - 1)
    } else {
        None
    }
}

/// The bytes of a colour-map key once white space is trimmed.
pub open spec fn key_bytes(key: Seq<char>) -> Seq<u8> {
    vstd::utf8::encode_utf8(trim_ws(key))
}

/// A colour-map key read as a pitch: a note name `a`-`g`, an optional
/// accidental, then octave marks and nothing else. The result is the pitch
/// class key and the octave, counted from `base_octave`.
pub open spec fn spec_parse_note_color_key(key: Seq<char>, base_octave: int) -> Option<(Seq<char>, int)> {
    let b = key_bytes(key);
    if b.len() == 0 || !(97 <= b[0] <= 103) {
        None
    } else {
        let (accidental, pos) = spec_accidental_at(b, 1);
        match spec_octave_marks_to_end(b, pos, base_octave) {
            Some(octave) => Some((spec_pitch_class_key(seq![b[0] as char], accidental), octave)),
            None => None,
        }
    }
}

/// The octave range a key can reach from `base_octave` fits in an `i32`.
pub open spec fn key_octave_fits(key: Seq<char>, base_octave: int) -> bool {
    i32::MIN + key_bytes(key).len() <= base_octave <= i32::MAX - key_bytes(key).len()
}

proof fn lemma_octave_marks_bounds(b: Seq<u8>, pos: int, octave: int)
    requires
        0 <= pos,
    ensures
        spec_octave_marks_to_end(b, pos, octave) matches Some(o) ==> (octave - (b.len() - pos)
            <= o <= octave + (b.len() - pos) || pos >= b.len()),
    decreases b.len() - pos,
{
    if pos < b.len() {
        lemma_octave_marks_bounds(b, pos + 1, octave + 1);
        lemma_octave_marks_bounds(b, pos + 1, octave - 1);
    }
}

pub fn parse_note_color_key(key: &str, base_octave: i32) -> (r: Option<(String, i32)>)
    requires
        key_octave_fits(key@, base_octave as int),
    ensures
        match r {
            Some((pitch_class, octave)) => spec_parse_note_color_key(key@, base_octave as int)
                == Some((pitch_class@, octave as int)),
            None => spec_parse_note_color_key(key@, base_octave as int) is None,
        },
{
    let trimmed = str_trim(key);
    let bytes = trimmed.as_bytes();
    assert(bytes@ == key_bytes(key@));
    if bytes.len() == 0 {
        return None;
    }
    let first = bytes[0];
    if !(97 <= first && first <= 103) {
        return None;
    }
    let mut name = String::new();
    push_char(&mut name, first as char);
    assert(name@ =~= seq![first as char]);
    let (accidental, start) = accidental_at(bytes, 1);
    let mut pos = start;
    let mut octave = base_octave;
    assert(start <= 3);
    while pos < bytes.len()
        invariant
            start <= pos <= bytes@.len(),
            bytes@ == key_bytes(key@),
            spec_accidental_at(bytes@, 1) == (opt_view(accidental), start as int),
            key_octave_fits(key@, base_octave as int),
            base_octave - (pos - start) <= octave <= base_octave + (pos - start),
            spec_octave_marks_to_end(bytes@, pos as int, octave as int) == spec_octave_marks_to_end(
                bytes@,
                start as int,
                base_octave as int,
            ),
        decreases bytes.len() - pos,
    {
        let ch = bytes[pos];
        if ch == 39 {
            octave = octave + 1;
            pos = pos + 1;
        } else if ch == 44 {
            octave = octave - 1;
            pos = pos + 1;
        } else {
            assert(spec_octave_marks_to_end(bytes@, pos as int, octave as int) is None);
            assert(spec_octave_marks_to_end(bytes@, start as int, base_octave as int) is None);
            assert(spec_accidental_at(bytes@, 1).1 == start as int);
            return None;
        }
    }
    let key = match &accidental {
        Some(a) => pitch_class_key(name.as_str(), Some(a.as_str())),
        None => pitch_class_key(name.as_str(), None),
    };
    Some((key, octave))
}

/// The colours of one pitch class, by octave: `(octave, colour)` pairs in
/// strictly ascending octave order.
pub open spec fn thresholds_view(t: Seq<(i32, String)>) -> Seq<(int, Seq<char>)> {
    t.map_values(|p: (i32, String)| (p.0 as int, p.1@))
}

pub open spec fn thresholds_sorted(t: Seq<(int, Seq<char>)>) -> bool {
    forall|i: int, j: int| 0 <= i < j < t.len() ==> t[i].0 < t[j].0
}

/// Colours keyed by pitch class (see `spec_pitch_class_key`), each with its
/// octave thresholds.
pub struct NoteColorMap {
    pub entries: Vec<(String, Vec<(i32, String)>)>,
}

impl NoteColorMap {
    /// Pitch classes occur once, and each has a non-empty, strictly ascending
    /// list of octave thresholds.
    pub open spec fn wf(&self) -> bool {
        &&& forall|i: int, j: int|
            0 <= i < j < self.entries@.len() ==> #[trigger] self.entries@[i].0@
                != #[trigger] self.entries@[j].0@
        &&& forall|i: int|
            0 <= i < self.entries@.len() ==> {
                let t = thresholds_view(#[trigger] self.entries@[i].1@);
                &&& t.len() > 0
                &&& thresholds_sorted(t)
            }
    }

    /// The thresholds stored for a pitch class, if any.
    pub open spec fn lookup(&self, pitch_class: Seq<char>) -> Option<Seq<(int, Seq<char>)>> {
        if exists|i: int| 0 <= i < self.entries@.len() && self.entries@[i].0@ == pitch_class {
            let i = choose|i: int| 0 <= i < self.entries@.len() && self.entries@[i].0@ == pitch_class;
            Some(thresholds_view(self.entries@[i].1@))
        } else {
            None
        }
    }

    /// The colour stored for a pitch class at exactly this octave.
    pub open spec fn color_at(&self, pitch_class: Seq<char>, octave: int) -> Option<Seq<char>> {
        match self.lookup(pitch_class) {
            Some(t) => threshold_color(t, octave),
            None => None,
        }
    }

    pub open spec fn is_empty_map(&self) -> bool {
        self.entries@.len() == 0
    }

    pub fn new() -> (m: NoteColorMap)
        ensures
            m.wf(),
            m.is_empty_map(),
            forall|pc: Seq<char>| m.lookup(pc) is None,
    {
        NoteColorMap { entries: Vec::new() }
    }
}

/// The colour a threshold list holds at exactly `octave`.
pub open spec fn threshold_color(t: Seq<(int, Seq<char>)>, octave: int) -> Option<Seq<char>> {
    if exists|k: int| 0 <= k < t.len() && t[k].0 == octave {
        let k = choose|k: int| 0 <= k < t.len() && t[k].0 == octave;
        Some(t[k].1)
    } else {
        None
    }
}

proof fn lemma_lookup_at(m: &NoteColorMap, i: int)
    requires
        m.wf(),
        0 <= i < m.entries@.len(),
    ensures
        m.lookup(m.entries@[i].0@) == Some(thresholds_view(m.entries@[i].1@)),
{
    let pc = m.entries@[i].0@;
    let j = choose|j: int| 0 <= j < m.entries@.len() && m.entries@[j].0@ == pc;
    if j != i {
        if j < i {
            assert(m.entries@[j].0@ != m.entries@[i].0@);
        } else {
            assert(m.entries@[i].0@ != m.entries@[j].0@);
        }
    }
}

proof fn lemma_threshold_color_at(t: Seq<(int, Seq<char>)>, k: int)
    requires
        thresholds_sorted(t),
        0 <= k < t.len(),
    ensures
        threshold_color(t, t[k].0) == Some(t[k].1),
{
    let j = choose|j: int| 0 <= j < t.len() && t[j].0 == t[k].0;
    if j < k {
        assert(t[j].0 < t[k].0);
    } else if k < j {
        assert(t[k].0 < t[j].0);
    }
}

/// Puts `color` at `octave` into a strictly ascending threshold list,
/// replacing the colour stored there before.
fn put_threshold(t: &mut Vec<(i32, String)>, octave: i32, color: String)
    requires
        thresholds_sorted(thresholds_view(old(t)@)),
    ensures
        thresholds_sorted(thresholds_view(final(t)@)),
        thresholds_view(final(t)@).len() > 0,
        forall|o: int|
            threshold_color(thresholds_view(final(t)@), o) == if o == octave as int {
                Some(color@)
            } else {
                threshold_color(thresholds_view(old(t)@), o)
            },
{
    let ghost old_t = thresholds_view(t@);
    let mut i: usize = 0;
    while i < t.len() && t[i].0 < octave
        invariant
            0 <= i <= t@.len(),
            thresholds_view(t@) == old_t,
            thresholds_sorted(old_t),
            forall|k: int| 0 <= k < i ==> old_t[k].0 < octave,
        decreases t.len() - i,
    {
        i = i + 1;
    }
    if i < t.len() && t[i].0 == octave {
        t.set(i, (octave, color));
        let ghost new_t = thresholds_view(t@);
        assert(new_t =~= old_t.update(i as int, (octave as int, color@)));
        assert(thresholds_sorted(new_t)) by {
            assert forall|a: int, b: int| 0 <= a < b < new_t.len() implies new_t[a].0 < new_t[b].0 by {
                assert(old_t[a].0 < old_t[b].0);
            }
        }
        assert forall|o: int|
            threshold_color(new_t, o) == if o == octave as int {
                Some(color@)
            } else {
                threshold_color(old_t, o)
            } by {
            if o == octave as int {
                lemma_threshold_color_at(new_t, i as int);
            } else {
                if exists|k: int| 0 <= k < old_t.len() && old_t[k].0 == o {
                    let k = choose|k: int| 0 <= k < old_t.len() && old_t[k].0 == o;
                    lemma_threshold_color_at(old_t, k);
                    lemma_threshold_color_at(new_t, k);
                }
                if exists|k: int| 0 <= k < new_t.len() && new_t[k].0 == o {
                    let k = choose|k: int| 0 <= k < new_t.len() && new_t[k].0 == o;
                    lemma_threshold_color_at(old_t, k);
                    lemma_threshold_color_at(new_t, k);
                }
            }
        }
    } else {
        t.insert(i, (octave, color));
        let ghost new_t = thresholds_view(t@);
        assert(new_t =~= old_t.insert(i as int, (octave as int, color@)));
        assert(thresholds_sorted(new_t)) by {
            assert forall|a: int, b: int| 0 <= a < b < new_t.len() implies new_t[a].0 < new_t[b].0 by {
                if b < i {
                } else if a < i && b == i {
                } else if a < i {
                    assert(new_t[b] == old_t[b - 1]);
                } else if a == i {
                    assert(new_t[b] == old_t[b - 1]);
                    assert(old_t[i as int].0 >= octave);
                    if b - 1 > i {
                        assert(old_t[i as int].0 < old_t[b - 1].0);
                    }
                } else {
                    assert(new_t[b] == old_t[b - 1]);
                    assert(new_t[a] == old_t[a - 1]);
                }
            }
        }
        assert forall|o: int|
            threshold_color(new_t, o) == if o == octave as int {
                Some(color@)
            } else {
                threshold_color(old_t, o)
            } by {
            if o == octave as int {
                lemma_threshold_color_at(new_t, i as int);
            } else {
                if exists|k: int| 0 <= k < old_t.len() && old_t[k].0 == o {
                    let k = choose|k: int| 0 <= k < old_t.len() && old_t[k].0 == o;
                    lemma_threshold_color_at(old_t, k);
                    if k < i {
                        lemma_threshold_color_at(new_t, k);
                    } else {
                        assert(new_t[k + 1] == old_t[k]);
                        lemma_threshold_color_at(new_t, k + 1);
                    }
                }
                if exists|k: int| 0 <= k < new_t.len() && new_t[k].0 == o {
                    let k = choose|k: int| 0 <= k < new_t.len() && new_t[k].0 == o;
                    lemma_threshold_color_at(new_t, k);
                    if k < i {
                        lemma_threshold_color_at(old_t, k);
                    } else if k > i {
                        assert(new_t[k] == old_t[k - 1]);
                        lemma_threshold_color_at(old_t, k - 1);
                    }
                }
            }
        }
    }
}

/// Stores `color` for `pitch_class` at `octave`, replacing what was stored
/// for that pitch class and octave.
fn put_color(map: &mut NoteColorMap, pitch_class: String, octave: i32, color: String)
    requires
        old(map).wf(),
    ensures
        final(map).wf(),
        forall|pc: Seq<char>, o: int|
            #[trigger] final(map).color_at(pc, o) == if pc == pitch_class@ && o == octave as int {
                Some(color@)
            } else {
                old(map).color_at(pc, o)
            },
        forall|pc: Seq<char>|
            (#[trigger] final(map).lookup(pc) is Some) == (old(map).lookup(pc) is Some || pc
                == pitch_class@),
{
    let ghost old_map = *map;
    let mut i: usize = 0;
    while i < map.entries.len()
        invariant
            0 <= i <= map.entries@.len(),
            *map == old_map,
            forall|k: int| 0 <= k < i ==> map.entries@[k].0@ != pitch_class@,
        ensures
            0 <= i <= map.entries@.len(),
            *map == old_map,
            forall|k: int| 0 <= k < i ==> map.entries@[k].0@ != pitch_class@,
            i < map.entries@.len() ==> map.entries@[i as int].0@ == pitch_class@,
        decreases map.entries.len() - i,
    {
        if str_eq(map.entries[i].0.as_str(), pitch_class.as_str()) {
            break;
        }
        i = i + 1;
    }
    if i < map.entries.len() {
        let ghost old_t = thresholds_view(map.entries@[i as int].1@);
        proof {
            lemma_lookup_at(&old_map, i as int);
        }
        let (key, mut t) = map.entries.remove(i);
        put_threshold(&mut t, octave, color);
        map.entries.insert(i, (key, t));
        assert(map.entries@ =~= old_map.entries@.update(i as int, map.entries@[i as int]));
        assert(map.wf()) by {
            assert forall|a: int, b: int| 0 <= a < b < map.entries@.len() implies #[trigger] map.entries@[a].0@
                != #[trigger] map.entries@[b].0@ by {
                assert(old_map.entries@[a].0@ != old_map.entries@[b].0@);
            }
        }
        assert forall|j: int| 0 <= j < map.entries@.len() implies map.entries@[j].0@
            == old_map.entries@[j].0@ by {}
        proof {
            lemma_lookup_at(map, i as int);
            assert forall|pc: Seq<char>, o: int|
                #[trigger] map.color_at(pc, o) == if pc == pitch_class@ && o == octave as int {
                    Some(color@)
                } else {
                    old_map.color_at(pc, o)
                } by {
                if pc != pitch_class@ {
                    if exists|j: int| 0 <= j < map.entries@.len() && map.entries@[j].0@ == pc {
                        let j = choose|j: int| 0 <= j < map.entries@.len() && map.entries@[j].0@ == pc;
                        lemma_lookup_at(map, j);
                        lemma_lookup_at(&old_map, j);
                        assert(map.entries@[j] == old_map.entries@[j]);
                    } else {
                        assert(!exists|j: int| 0 <= j < old_map.entries@.len() && old_map.entries@[j].0@ == pc);
                    }
                } else {
                    assert(map.lookup(pc) == Some(thresholds_view(t@)));
                    assert(old_map.lookup(pc) == Some(old_t));
                }
            }
            assert forall|pc: Seq<char>|
                (#[trigger] map.lookup(pc) is Some) == (old_map.lookup(pc) is Some || pc
                    == pitch_class@) by {
                if exists|j: int| 0 <= j < map.entries@.len() && map.entries@[j].0@ == pc {
                    let j = choose|j: int| 0 <= j < map.entries@.len() && map.entries@[j].0@ == pc;
                    assert(old_map.entries@[j].0@ == pc);
                }
                if exists|j: int| 0 <= j < old_map.entries@.len() && old_map.entries@[j].0@ == pc {
                    let j = choose|j: int| 0 <= j < old_map.entries@.len() && old_map.entries@[j].0@ == pc;
                    assert(map.entries@[j].0@ == pc);
                }
            }
        }
    } else {
        let mut t: Vec<(i32, String)> = Vec::new();
        let ghost pc = pitch_class@;
        proof {
            assert(thresholds_view(t@) =~= Seq::<(int, Seq<char>)>::empty());
        }
        put_threshold(&mut t, octave, color);
        map.entries.push((pitch_class, t));
        let n = map.entries.len();
        assert(map.wf()) by {
            assert forall|a: int, b: int| 0 <= a < b < map.entries@.len() implies #[trigger] map.entries@[a].0@
                != #[trigger] map.entries@[b].0@ by {
                if b < n - 1 {
                    assert(old_map.entries@[a].0@ != old_map.entries@[b].0@);
                }
            }
        }
        proof {
            lemma_lookup_at(map, n - 1);
            assert forall|q: Seq<char>, o: int|
                #[trigger] map.color_at(q, o) == if q == pc && o == octave as int {
                    Some(color@)
                } else {
                    old_map.color_at(q, o)
                } by {
                if q != pc {
                    if exists|j: int| 0 <= j < map.entries@.len() && map.entries@[j].0@ == q {
                        let j = choose|j: int| 0 <= j < map.entries@.len() && map.entries@[j].0@ == q;
                        assert(j < n - 1);
                        assert(map.entries@[j] == old_map.entries@[j]);
                        lemma_lookup_at(map, j);
                        lemma_lookup_at(&old_map, j);
                    } else {
                        assert forall|j: int| 0 <= j < old_map.entries@.len() implies old_map.entries@[j].0@ != q by {
                            assert(map.entries@[j] == old_map.entries@[j]);
                        }
                    }
                } else {
                    assert(old_map.lookup(q) is None);
                    assert(threshold_color(Seq::<(int, Seq<char>)>::empty(), o) is None);
                }
            }
            assert forall|q: Seq<char>|
                (#[trigger] map.lookup(q) is Some) == (old_map.lookup(q) is Some || q == pc) by {
                if exists|j: int| 0 <= j < map.entries@.len() && map.entries@[j].0@ == q {
                    let j = choose|j: int| 0 <= j < map.entries@.len() && map.entries@[j].0@ == q;
                    if j < n - 1 {
                        assert(old_map.entries@[j].0@ == q);
                    }
                }
                if exists|j: int| 0 <= j < old_map.entries@.len() && old_map.entries@[j].0@ == q {
                    let j = choose|j: int| 0 <= j < old_map.entries@.len() && old_map.entries@[j].0@ == q;
                    assert(map.entries@[j].0@ == q);
                }
            }
        }
    }
}

} // verus!

verus! {

/// The text of `(key, colour)` pairs.
pub open spec fn pairs_view(v: Seq<(String, String)>) -> Seq<(Seq<char>, Seq<char>)> {
    v.map_values(|p: (String, String)| (p.0@, p.1@))
}

/// The colour that the last entry naming this pitch class and octave gives
/// it, resolved (see `spec_resolve_color`); later entries win.
pub open spec fn winner(
    entries: Seq<(Seq<char>, Seq<char>)>,
    pitch_class: Seq<char>,
    octave: int,
    base_octave: int,
) -> Option<Seq<char>>
    decreases entries.len(),
{
    if entries.len() == 0 {
        None
    } else {
        match spec_parse_note_color_key(entries.last().0, base_octave) {
            Some((p, o)) if p == pitch_class && o == octave => Some(
                spec_resolve_color(entries.last().1),
            ),
            _ => winner(entries.drop_last(), pitch_class, octave, base_octave),
        }
    }
}

/// Every key of the map can be read at this base octave without overflow.
pub open spec fn keys_fit(entries: Seq<(Seq<char>, Seq<char>)>, base_octave: int) -> bool {
    forall|i: int| 0 <= i < entries.len() ==> key_octave_fits(#[trigger] entries[i].0, base_octave)
}

pub open spec fn source_view(source: Option<&Vec<(String, String)>>) -> Seq<(Seq<char>, Seq<char>)> {
    match source {
        Some(v) => pairs_view(v@),
        None => Seq::empty(),
    }
}

fn merge_source(map: &mut NoteColorMap, source: &Vec<(String, String)>, base_octave: i32)
    requires
        old(map).wf(),
        keys_fit(pairs_view(source@), base_octave as int),
    ensures
        final(map).wf(),
        forall|pc: Seq<char>, o: int|
            #[trigger] final(map).color_at(pc, o) == match winner(
                pairs_view(source@),
                pc,
                o,
                base_octave as int,
            ) {
                Some(c) => Some(c),
                None => old(map).color_at(pc, o),
            },
{
    let ghost old_map = *map;
    let ghost src = pairs_view(source@);
    let mut i: usize = 0;
    while i < source.len()
        invariant
            0 <= i <= source@.len(),
            src == pairs_view(source@),
            keys_fit(src, base_octave as int),
            map.wf(),
            forall|pc: Seq<char>, o: int|
                #[trigger] map.color_at(pc, o) == match winner(
                    src.take(i as int),
                    pc,
                    o,
                    base_octave as int,
                ) {
                    Some(c) => Some(c),
                    None => old_map.color_at(pc, o),
                },
        decreases source.len() - i,
    {
        let ghost before = *map;
        let key = source[i].0.as_str();
        let value = source[i].1.as_str();
        assert(src.take(i + 1).drop_last() =~= src.take(i as int));
        assert(src.take(i + 1).last() == src[i as int]);
        assert(key_octave_fits(src[i as int].0, base_octave as int));
        match parse_note_color_key(key, base_octave) {
            Some((pitch_class, octave)) => {
                let color = owned(resolve_color_name(value));
                put_color(map, pitch_class, octave, color);
            },
            None => {},
        }
        i = i + 1;
    }
    assert(src.take(source@.len() as int) =~= src);
}

/// The colour map of one staff: the score's `note-colors` entries, then the
/// staff's own, each key read as a pitch relative to `base_octave`. Keys that
/// are not pitches are ignored; for the same pitch class and octave the later
/// entry wins, so the staff's map overrides the score's.
pub fn build_note_color_map(
    score_note_colors: Option<&Vec<(String, String)>>,
    staff_note_colors: Option<&Vec<(String, String)>>,
    base_octave: i32,
) -> (m: NoteColorMap)
    requires
        keys_fit(source_view(score_note_colors), base_octave as int),
        keys_fit(source_view(staff_note_colors), base_octave as int),
    ensures
        m.wf(),
        forall|pc: Seq<char>, o: int|
            #[trigger] m.color_at(pc, o) == match winner(
                source_view(staff_note_colors),
                pc,
                o,
                base_octave as int,
            ) {
                Some(c) => Some(c),
                None => winner(source_view(score_note_colors), pc, o, base_octave as int),
            },
{
    let mut merged = NoteColorMap::new();
    let ghost empty = merged;
    assert forall|pc: Seq<char>, o: int| #[trigger] empty.color_at(pc, o) is None by {}
    if let Some(source) = score_note_colors {
        merge_source(&mut merged, source, base_octave);
    } else {
        assert forall|pc: Seq<char>, o: int|
            #[trigger] winner(source_view(score_note_colors), pc, o, base_octave as int) is None by {}
    }
    let ghost after_score = merged;
    if let Some(source) = staff_note_colors {
        merge_source(&mut merged, source, base_octave);
    } else {
        assert forall|pc: Seq<char>, o: int|
            #[trigger] winner(source_view(staff_note_colors), pc, o, base_octave as int) is None by {}
    }
    merged
}

/// Law: the map that `build_note_color_map` gives (see its `ensures`) lists,
/// for a pitch class, the octave `octave` with colour `color` exactly when
/// some key of the staff's map or, failing those, of the score's names that
/// pitch class and octave, the last such key giving `color` (see `winner`);
/// keys that name no pitch are ignored, and with neither map the lists are
/// empty.
pub proof fn lemma_built_map_lists(
    m: NoteColorMap,
    score: Seq<(Seq<char>, Seq<char>)>,
    staff: Seq<(Seq<char>, Seq<char>)>,
    base_octave: int,
    pitch_class: Seq<char>,
    octave: int,
    color: Seq<char>,
)
    requires
        m.wf(),
        forall|pc: Seq<char>, o: int|
            #[trigger] m.color_at(pc, o) == match winner(staff, pc, o, base_octave) {
                Some(c) => Some(c),
                None => winner(score, pc, o, base_octave),
            },
    ensures
        (exists|i: int, k: int|
            {
                &&& 0 <= i < m.entries@.len()
                &&& m.entries@[i].0@ == pitch_class
                &&& 0 <= k < m.entries@[i].1@.len()
                &&& #[trigger] thresholds_view(m.entries@[i].1@)[k] == (octave, color)
            }) <==> match winner(staff, pitch_class, octave, base_octave) {
            Some(c) => Some(c),
            None => winner(score, pitch_class, octave, base_octave),
        } == Some(color),
{
    lemma_color_at_is_entry(m, pitch_class, octave, color);
    assert(m.color_at(pitch_class, octave) == match winner(staff, pitch_class, octave, base_octave) {
        Some(c) => Some(c),
        None => winner(score, pitch_class, octave, base_octave),
    });
}

/// Law: the map keeps, for each pitch class, a list of octaves with their
/// colours, and `(octave, color)` is in the list of `pitch_class` exactly
/// when that is the colour stored for them; with `build_note_color_map`,
/// the lists hold the octaves that some key names for the pitch class, each
/// with the colour of the key that wins there.
pub proof fn lemma_color_at_is_entry(m: NoteColorMap, pitch_class: Seq<char>, octave: int, color: Seq<char>)
    requires
        m.wf(),
    ensures
        m.color_at(pitch_class, octave) == Some(color) <==> exists|i: int, k: int|
            {
                &&& 0 <= i < m.entries@.len()
                &&& m.entries@[i].0@ == pitch_class
                &&& 0 <= k < m.entries@[i].1@.len()
                &&& #[trigger] thresholds_view(m.entries@[i].1@)[k] == (octave, color)
            },
{
    if m.color_at(pitch_class, octave) == Some(color) {
        let i = choose|i: int| 0 <= i < m.entries@.len() && m.entries@[i].0@ == pitch_class;
        let t = thresholds_view(m.entries@[i].1@);
        let k = choose|k: int| 0 <= k < t.len() && t[k].0 == octave;
        assert(t[k] == (octave, color));
    }
    if exists|i: int, k: int|
        {
            &&& 0 <= i < m.entries@.len()
            &&& m.entries@[i].0@ == pitch_class
            &&& 0 <= k < m.entries@[i].1@.len()
            &&& #[trigger] thresholds_view(m.entries@[i].1@)[k] == (octave, color)
        } {
        let (i, k) = choose|i: int, k: int|
            {
                &&& 0 <= i < m.entries@.len()
                &&& m.entries@[i].0@ == pitch_class
                &&& 0 <= k < m.entries@[i].1@.len()
                &&& #[trigger] thresholds_view(m.entries@[i].1@)[k] == (octave, color)
            };
        lemma_lookup_at(&m, i);
        let t = thresholds_view(m.entries@[i].1@);
        assert(thresholds_sorted(t));
        lemma_threshold_color_at(t, k);
    }
}

/// `k` is the last threshold at or below `octave`.
pub open spec fn last_at_or_below(t: Seq<(int, Seq<char>)>, k: int, octave: int) -> bool {
    0 <= k < t.len() && t[k].0 <= octave && (k + 1 == t.len() || t[k + 1].0 > octave)
}

/// A threshold list's colour for `octave`: the colour of the highest
/// threshold at or below it, or, below every threshold, the lowest one's.
pub open spec fn spec_pick_threshold(t: Seq<(int, Seq<char>)>, octave: int) -> Option<Seq<char>> {
    if t.len() == 0 {
        None
    } else if t[0].0 > octave {
        Some(t[0].1)
    } else {
        let k = choose|k: int| last_at_or_below(t, k, octave);
        Some(t[k].1)
    }
}

/// The colour the map gives a note, if its pitch class is in the map.
pub open spec fn spec_note_color(
    m: NoteColorMap,
    name: Seq<char>,
    accidental: Option<Seq<char>>,
    octave: int,
) -> Option<Seq<char>> {
    match m.lookup(spec_pitch_class_key(name, accidental)) {
        Some(t) => spec_pick_threshold(t, octave),
        None => None,
    }
}

/// The colour a note gets from the map: among the octave thresholds of its
/// pitch class, the highest one at or below the note's octave, or the lowest
/// one when the note lies below all of them.
pub fn resolve_note_color<'a>(
    note_colors: &'a NoteColorMap,
    name: &str,
    accidental: Option<&str>,
    octave: i32,
) -> (r: Option<&'a str>)
    requires
        note_colors.wf(),
    ensures
        opt_str_view(r) == spec_note_color(*note_colors, name@, opt_str_view(accidental), octave as int),
{
    let key = pitch_class_key(name, accidental);
    let ghost pc = key@;
    let mut i: usize = 0;
    while i < note_colors.entries.len()
        invariant
            0 <= i <= note_colors.entries@.len(),
            pc == key@,
            forall|k: int| 0 <= k < i ==> note_colors.entries@[k].0@ != pc,
        ensures
            0 <= i <= note_colors.entries@.len(),
            forall|k: int| 0 <= k < i ==> note_colors.entries@[k].0@ != pc,
            i < note_colors.entries@.len() ==> note_colors.entries@[i as int].0@ == pc,
        decreases note_colors.entries.len() - i,
    {
        if str_eq(note_colors.entries[i].0.as_str(), key.as_str()) {
            break;
        }
        i = i + 1;
    }
    if i == note_colors.entries.len() {
        return None;
    }
    proof {
        lemma_lookup_at(note_colors, i as int);
    }
    let thresholds = &note_colors.entries[i].1;
    let ghost t = thresholds_view(thresholds@);
    let mut idx: usize = 0;
    while idx < thresholds.len() && thresholds[idx].0 <= octave
        invariant
            0 <= idx <= thresholds@.len(),
            t == thresholds_view(thresholds@),
            forall|k: int| 0 <= k < idx ==> t[k].0 <= octave,
        decreases thresholds.len() - idx,
    {
        idx = idx + 1;
    }
    assert(t.len() > 0 && thresholds_sorted(t));
    if idx > 0 {
        proof {
            let k0 = idx - 1;
            assert(last_at_or_below(t, k0, octave as int));
            let k = choose|k: int| last_at_or_below(t, k, octave as int);
            if k < k0 {
                assert(t[k + 1].0 <= octave);
            } else if k > k0 {
                assert(t[k0 + 1].0 <= t[k].0);
            }
        }
        Some(thresholds[idx - 1].1.as_str())
    } else {
        Some(thresholds[0].1.as_str())
    }
}

/// Law: a map key applies to every octave of its pitch; further keys for the
/// same pitch at other octaves split it, so a note takes the colour of the
/// highest key at or below its octave, and notes below every key take the
/// lowest key's colour.
pub proof fn lemma_octave_thresholds_split(t: Seq<(int, Seq<char>)>, octave: int)
    requires
        t.len() > 0,
        thresholds_sorted(t),
    ensures
        forall|k: int| #[trigger] last_at_or_below(t, k, octave)
            ==> spec_pick_threshold(t, octave) == Some(t[k].1),
        (forall|k: int| 0 <= k < t.len() ==> t[k].0 > octave) ==> spec_pick_threshold(t, octave) == Some(
            t[0].1,
        ),
{
    assert forall|k: int| #[trigger] last_at_or_below(t, k, octave)
        implies spec_pick_threshold(t, octave) == Some(t[k].1) by {
        if t[0].0 <= octave {
            let j = choose|j: int| last_at_or_below(t, j, octave);
            if j < k {
                assert(t[j + 1].0 <= t[k].0);
            } else if k < j {
                assert(t[k + 1].0 <= t[j].0);
            }
        } else {
            if k > 0 {
                assert(t[0].0 < t[k].0);
            }
        }
    }
}

/// Law: for the same pitch class and octave a staff's own colour map wins
/// over the score's; where the staff names no colour, the score's applies.
pub proof fn lemma_staff_colors_override_score(
    score: Seq<(Seq<char>, Seq<char>)>,
    staff: Seq<(Seq<char>, Seq<char>)>,
    pitch_class: Seq<char>,
    octave: int,
    base_octave: int,
)
    ensures
        winner(score + staff, pitch_class, octave, base_octave) == match winner(
            staff,
            pitch_class,
            octave,
            base_octave,
        ) {
            Some(c) => Some(c),
            None => winner(score, pitch_class, octave, base_octave),
        },
    decreases staff.len(),
{
    if staff.len() == 0 {
        assert(score + staff =~= score);
    } else {
        assert((score + staff).drop_last() =~= score + staff.drop_last());
        assert((score + staff).last() == staff.last());
        lemma_staff_colors_override_score(score, staff.drop_last(), pitch_class, octave, base_octave);
    }
}

} // verus!

verus! {

/// Stores `color` in an empty slot; a slot that already holds a colour keeps it.
pub fn set_if_missing(slot: &mut Option<String>, color: &str)
    ensures
        (*old(slot)) is None ==> opt_view(*final(slot)) == Some(color@),
        (*old(slot)) is Some ==> *final(slot) == *old(slot),
{
    if slot.is_none() {
        *slot = Some(owned(color));
    }
}

/// How the map colours a single note: when the map has a colour for it and
/// the note has no overall colour, its first notehead slot (created if there
/// is none) gets that colour unless it already has one; otherwise nothing
/// changes.
#[verifier::opaque]
pub open spec fn note_colored(old: Note, new: Note, m: NoteColorMap) -> bool {
    match spec_note_color(m, old.name@, opt_view(old.accidental), old.octave as int) {
        Some(c) if old.colors.overall is None => {
            let heads = old.colors.noteheads@;
            &&& new == Note {
                colors: ElementColors { noteheads: new.colors.noteheads, ..old.colors },
                ..old
            }
            &&& new.colors.noteheads@.len() == if heads.len() == 0 {
                1
            } else {
                heads.len()
            }
            &&& forall|k: int|
                1 <= k < heads.len() ==> new.colors.noteheads@[k] == #[trigger] heads[k]
            &&& if heads.len() > 0 && heads[0] is Some {
                new.colors.noteheads@[0] == heads[0]
            } else {
                opt_view(new.colors.noteheads@[0]) == Some(c)
            }
        },
        _ => new == old,
    }
}

/// How the map colours one note of a chord: a note without its own colour
/// takes the map's colour for it.
#[verifier::opaque]
pub open spec fn chord_note_colored(old: ChordNote, new: ChordNote, m: NoteColorMap) -> bool {
    match spec_note_color(m, old.name@, opt_view(old.accidental), old.octave as int) {
        Some(c) if old.color is None => {
            &&& new == ChordNote { color: new.color, ..old }
            &&& opt_view(new.color) == Some(c)
        },
        _ => new == old,
    }
}

/// Law: inline colours win over the note-colour map: a note that already
/// has an overall colour, or a chord note that has its own colour, comes
/// out of the map unchanged.
pub proof fn lemma_inline_color_wins(
    old_note: Note,
    new_note: Note,
    old_head: ChordNote,
    new_head: ChordNote,
    m: NoteColorMap,
)
    requires
        note_colored(old_note, new_note, m),
        chord_note_colored(old_head, new_head, m),
    ensures
        old_note.colors.overall is Some ==> new_note == old_note,
        old_head.color is Some ==> new_head == old_head,
{
    reveal(note_colored);
    reveal(chord_note_colored);
}

/// How the map colours an event: notes and chord notes as above, both voices
/// of a voice group recursively, everything else unchanged.
pub open spec fn event_colored(old: Event, new: Event, m: NoteColorMap) -> bool
    decreases old,
{
    match old {
        Event::Note(n) => new matches Event::Note(nn) && note_colored(n, nn, m),
        Event::Chord(c) => new matches Event::Chord(nc) && {
            &&& nc == Chord { notes: nc.notes, ..c }
            &&& nc.notes@.len() == c.notes@.len()
            &&& forall|k: int|
                0 <= k < c.notes@.len() ==> chord_note_colored(
                    #[trigger] c.notes@[k],
                    nc.notes@[k],
                    m,
                )
        },
        Event::VoiceGroup(g) => new matches Event::VoiceGroup(ng) && {
            &&& ng.upper@.len() == g.upper@.len()
            &&& ng.lower@.len() == g.lower@.len()
            &&& forall|k: int|
                0 <= k < g.upper@.len() ==> event_colored(#[trigger] g.upper@[k], ng.upper@[k], m)
            &&& forall|k: int|
                0 <= k < g.lower@.len() ==> event_colored(#[trigger] g.lower@[k], ng.lower@[k], m)
        },
        _ => new == old,
    }
}

fn color_chord_note(cn: &mut ChordNote, note_colors: &NoteColorMap)
    requires
        note_colors.wf(),
    ensures
        chord_note_colored(*old(cn), *final(cn), *note_colors),
{
    reveal(chord_note_colored);
    let color = resolve_note_color(
        note_colors,
        cn.name.as_str(),
        match &cn.accidental {
            Some(a) => Some(a.as_str()),
            None => None,
        },
        cn.octave,
    );
    if let Some(color) = color {
        set_if_missing(&mut cn.color, color);
    }
}

#[verifier::rlimit(40)]
fn color_note(note: &mut Note, note_colors: &NoteColorMap)
    requires
        note_colors.wf(),
    ensures
        note_colored(*old(note), *final(note), *note_colors),
{
    reveal(note_colored);
    let color = resolve_note_color(
        note_colors,
        note.name.as_str(),
        match &note.accidental {
            Some(a) => Some(a.as_str()),
            None => None,
        },
        note.octave,
    );
    if let Some(color) = color {
        if note.colors.overall.is_none() {
            color_first_notehead(&mut note.colors.noteheads, color);
        }
    }
}

fn color_first_notehead(heads: &mut Vec<Option<String>>, color: &str)
    ensures
        final(heads)@.len() == if old(heads)@.len() == 0 {
            1
        } else {
            old(heads)@.len()
        },
        forall|k: int| 1 <= k < old(heads)@.len() ==> final(heads)@[k] == #[trigger] old(heads)@[k],
        if old(heads)@.len() > 0 && old(heads)@[0] is Some {
            final(heads)@[0] == old(heads)@[0]
        } else {
            opt_view(final(heads)@[0]) == Some(color@)
        },
{
    if heads.len() == 0 {
        heads.push(None);
    }
    set_if_missing(&mut heads[0], color);
}

fn color_chord_notes(chord: &mut Chord, note_colors: &NoteColorMap)
    requires
        note_colors.wf(),
    ensures
        *final(chord) == (Chord { notes: final(chord).notes, ..*old(chord) }),
        final(chord).notes@.len() == old(chord).notes@.len(),
        forall|k: int|
            0 <= k < old(chord).notes@.len() ==> chord_note_colored(
                #[trigger] old(chord).notes@[k],
                final(chord).notes@[k],
                *note_colors,
            ),
{
    let ghost old_chord = *chord;
    let mut j: usize = 0;
    while j < chord.notes.len()
        invariant
            note_colors.wf(),
            0 <= j <= chord.notes@.len(),
            chord.notes@.len() == old_chord.notes@.len(),
            *chord == (Chord { notes: chord.notes, ..old_chord }),
            forall|k: int|
                0 <= k < j ==> chord_note_colored(
                    #[trigger] old_chord.notes@[k],
                    chord.notes@[k],
                    *note_colors,
                ),
            forall|k: int| j <= k < chord.notes@.len() ==> chord.notes@[k] == old_chord.notes@[k],
        decreases chord.notes.len() - j,
    {
        color_chord_note(&mut chord.notes[j], note_colors);
        j = j + 1;
    }
}

/// Applies the note-colour map to every note and chord note, inside voice
/// groups too (see `event_colored`).
pub fn apply_note_colors(events: &mut Vec<Event>, note_colors: &NoteColorMap)
    requires
        note_colors.wf(),
    ensures
        final(events)@.len() == old(events)@.len(),
        forall|k: int|
            0 <= k < old(events)@.len() ==> event_colored(
                #[trigger] old(events)@[k],
                final(events)@[k],
                *note_colors,
            ),
    decreases old(events)@,
{
    let ghost old_events = events@;
    let mut i: usize = 0;
    while i < events.len()
        invariant
            note_colors.wf(),
            old_events == old(events)@,
            0 <= i <= events@.len(),
            events@.len() == old_events.len(),
            forall|k: int|
                0 <= k < i ==> event_colored(#[trigger] old_events[k], events@[k], *note_colors),
            forall|k: int| i <= k < events@.len() ==> events@[k] == old_events[k],
        decreases events.len() - i,
    {
        let ghost before = events@;
        match &mut events[i] {
            Event::Note(note) => {
                color_note(note, note_colors);
            },
            Event::Chord(chord) => {
                color_chord_notes(chord, note_colors);
            },
            Event::VoiceGroup(group) => {
                let ghost g = *group;
                proof {
                    assert(old_events[i as int] == Event::VoiceGroup(g));
                    assert(decreases_to!(old_events => old_events[i as int]));
                    assert(decreases_to!(old_events[i as int] => g));
                    assert(decreases_to!(g => g.upper));
                    assert(decreases_to!(g.upper => g.upper@));
                    assert(decreases_to!(old_events => g.upper@));
                    assert(decreases_to!(old_events => g.lower@));
                }
                apply_note_colors(&mut group.upper, note_colors);
                apply_note_colors(&mut group.lower, note_colors);
            },
            _ => {},
        }
        i = i + 1;
    }
}

} // verus!
