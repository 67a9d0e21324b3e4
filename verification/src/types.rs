//! The event model produced by the parser and consumed by the layout passes.
//!
//! Tuplet "in the time of" counts are whole numbers (the `m` of `{n,m: ...}`),
//! so they are held here as integers.

use vstd::prelude::*;

verus! {

pub const DURATION_MAXIMA: i32 = -8;

pub const DURATION_LONGA: i32 = -4;

pub const DURATION_BREVE: i32 = -2;

#[derive(Debug, Clone)]
pub struct Note {
    pub name: String,
    pub accidental: Option<String>,
    pub octave: i32,
    pub duration: i32,
    pub dots: i32,
    pub tie: bool,
    pub slur_start: bool,
    pub slur_end: bool,
    pub beam_start: bool,
    pub beam_end: bool,
    pub articulations: Vec<String>,
    pub dynamic: Option<String>,
    pub hairpin: Option<String>,
    pub hairpin_start: bool,
    pub hairpin_end: bool,
    pub trill: bool,
    pub trill_line: bool,
    pub trill_start: bool,
    pub trill_end: bool,
    pub grace: bool,
    pub grace_slash: bool,
    pub ending: Option<String>,
    pub ending_start: bool,
    pub ending_end: bool,
    pub fingering: Option<Fingering>,
    pub fingering_position: String,
    pub chord_symbol: Option<String>,
    pub staff_markers: Vec<String>,
    pub staff_text: Option<String>,
    pub expression_text: Option<String>,
    pub lyrics: Vec<LyricEntry>,
    pub tuplet_beats: i32,
    pub tuplet_number: i32,
    pub tuplet_count: i32,
    pub tuplet_start: bool,
    pub tuplet_end: bool,
    pub octave_line_number: i32,
    pub octave_line_direction: Option<String>,
    pub octave_line_start: bool,
    pub octave_line_end: bool,
    pub colors: ElementColors,
}

#[derive(Debug, Clone)]
pub struct FingeringMark {
    pub value: i32,
    pub bold: bool,
    pub color: Option<String>,
}

#[derive(Debug, Clone)]
pub enum Fingering {
    Single(i32),
    Multiple(Vec<i32>),
    Marked(Vec<FingeringMark>),
}

#[derive(Debug, Clone)]
pub struct LyricEntry {
    pub text: Option<String>,
    pub carry: bool,
    pub continuation: String,
}

#[derive(Debug, Clone)]
pub struct ElementColors {
    pub overall: Option<String>,
    pub tie: Option<String>,
    pub slur: Option<String>,
    pub beam: Option<String>,
    pub articulations: Option<String>,
    pub dynamic: Option<String>,
    pub chord_symbol: Option<String>,
    pub staff_text: Option<String>,
    pub expression_text: Option<String>,
    pub fingering: Option<String>,
    pub lyrics: Option<String>,
    pub trill: Option<String>,
    pub staff_markers: Option<String>,
    pub octave_line: Option<String>,
    pub noteheads: Vec<Option<String>>,
}

#[derive(Debug, Clone)]
pub struct ChordNote {
    pub name: String,
    pub accidental: Option<String>,
    pub octave: i32,
    pub color: Option<String>,
}

#[derive(Debug, Clone)]
pub struct Rest {
    pub duration: i32,
    pub dots: i32,
    pub dynamic: Option<String>,
    pub chord_symbol: Option<String>,
    pub staff_markers: Vec<String>,
    pub staff_text: Option<String>,
    pub expression_text: Option<String>,
    pub lyrics: Vec<LyricEntry>,
    pub tuplet_beats: i32,
    pub tuplet_number: i32,
    pub tuplet_count: i32,
    pub tuplet_start: bool,
    pub tuplet_end: bool,
    pub octave_line_number: i32,
    pub octave_line_direction: Option<String>,
    pub octave_line_start: bool,
    pub octave_line_end: bool,
    pub hairpin: Option<String>,
    pub hairpin_start: bool,
    pub hairpin_end: bool,
    pub trill: bool,
    pub trill_line: bool,
    pub trill_start: bool,
    pub trill_end: bool,
    pub grace: bool,
    pub grace_slash: bool,
    pub ending: Option<String>,
    pub ending_start: bool,
    pub ending_end: bool,
    pub colors: ElementColors,
}

#[derive(Debug, Clone)]
pub struct Chord {
    pub notes: Vec<ChordNote>,
    pub duration: i32,
    pub dots: i32,
    pub tie: bool,
    pub slur_start: bool,
    pub slur_end: bool,
    pub beam_start: bool,
    pub beam_end: bool,
    pub articulations: Vec<String>,
    pub dynamic: Option<String>,
    pub hairpin: Option<String>,
    pub hairpin_start: bool,
    pub hairpin_end: bool,
    pub trill: bool,
    pub trill_line: bool,
    pub trill_start: bool,
    pub trill_end: bool,
    pub grace: bool,
    pub grace_slash: bool,
    pub ending: Option<String>,
    pub ending_start: bool,
    pub ending_end: bool,
    pub fingering: Option<Fingering>,
    pub fingering_position: String,
    pub chord_symbol: Option<String>,
    pub staff_markers: Vec<String>,
    pub staff_text: Option<String>,
    pub expression_text: Option<String>,
    pub lyrics: Vec<LyricEntry>,
    pub tuplet_beats: i32,
    pub tuplet_number: i32,
    pub tuplet_count: i32,
    pub tuplet_start: bool,
    pub tuplet_end: bool,
    pub octave_line_number: i32,
    pub octave_line_direction: Option<String>,
    pub octave_line_start: bool,
    pub octave_line_end: bool,
    pub colors: ElementColors,
}

#[derive(Debug, Clone)]
pub struct Barline {
    pub style: String,
    pub ending: Option<String>,
    pub ending_start: bool,
    pub ending_end: bool,
    pub color: Option<String>,
}

#[derive(Debug, Clone)]
pub struct ClefChange {
    pub clef: String,
    pub ending: Option<String>,
    pub ending_start: bool,
    pub ending_end: bool,
    pub color: Option<String>,
}

#[derive(Debug, Clone)]
pub struct TimeSig {
    pub upper: i32,
    pub lower: i32,
    pub symbol: Option<String>,
    pub ending: Option<String>,
    pub ending_start: bool,
    pub ending_end: bool,
    pub color: Option<String>,
}

#[derive(Debug, Clone)]
pub struct KeySig {
    pub key: String,
    pub mode: String,
    pub ending: Option<String>,
    pub ending_start: bool,
    pub ending_end: bool,
}

#[derive(Debug, Clone)]
pub struct Gap {
    pub amount: i32,
    pub ending: Option<String>,
    pub ending_start: bool,
    pub ending_end: bool,
}

#[derive(Debug, Clone)]
pub struct Spacer {
    pub duration: i32,
    pub dots: i32,
    pub ending: Option<String>,
    pub ending_start: bool,
    pub ending_end: bool,
    pub color: Option<String>,
}

#[derive(Debug)]
pub struct VoiceGroup {
    pub upper: Vec<Event>,
    pub lower: Vec<Event>,
}

#[derive(Debug)]
pub enum Event {
    Note(Note),
    Rest(Rest),
    Chord(Chord),
    Barline(Barline),
    Clef(ClefChange),
    TimeSig(TimeSig),
    KeySig(KeySig),
    Gap(Gap),
    Spacer(Spacer),
    VoiceGroup(VoiceGroup),
    LineBreak,
}

/// The element colours of a freshly built note, rest or chord: nothing set.
pub open spec fn colors_are_default(c: ElementColors) -> bool {
    &&& c.overall is None
    &&& c.tie is None
    &&& c.slur is None
    &&& c.beam is None
    &&& c.articulations is None
    &&& c.dynamic is None
    &&& c.chord_symbol is None
    &&& c.staff_text is None
    &&& c.expression_text is None
    &&& c.fingering is None
    &&& c.lyrics is None
    &&& c.trill is None
    &&& c.staff_markers is None
    &&& c.octave_line is None
    &&& c.noteheads@.len() == 0
}

impl ElementColors {
    /// No colour set on any element part.
    pub fn new() -> (c: ElementColors)
        ensures
            colors_are_default(c),
    {
        ElementColors {
            overall: None,
            tie: None,
            slur: None,
            beam: None,
            articulations: None,
            dynamic: None,
            chord_symbol: None,
            staff_text: None,
            expression_text: None,
            fingering: None,
            lyrics: None,
            trill: None,
            staff_markers: None,
            octave_line: None,
            noteheads: Vec::new(),
        }
    }
}

impl Default for ElementColors {
    fn default() -> (c: ElementColors)
        ensures
            colors_are_default(c),
    {
        ElementColors::new()
    }
}

} // verus!

verus! {

impl Note {
    /// A quarter note with the given name and octave and nothing attached.
    pub open spec fn is_plain(self, name: Seq<char>, octave: int) -> bool {
        &&& self.name@ == name
        &&& self.accidental is None
        &&& self.octave == octave
        &&& self.duration == 4
        &&& self.dots == 0
        &&& !self.tie && !self.slur_start && !self.slur_end && !self.beam_start && !self.beam_end
        &&& self.articulations@.len() == 0
        &&& self.dynamic is None
        &&& self.hairpin is None
        &&& !self.hairpin_start && !self.hairpin_end
        &&& !self.trill && !self.trill_line && !self.trill_start && !self.trill_end
        &&& !self.grace && !self.grace_slash
        &&& self.ending is None
        &&& !self.ending_start && !self.ending_end
        &&& self.fingering is None
        &&& self.fingering_position@ == "above"@
        &&& self.chord_symbol is None
        &&& self.staff_markers@.len() == 0
        &&& self.staff_text is None
        &&& self.expression_text is None
        &&& self.lyrics@.len() == 0
        &&& self.tuplet_beats == 0 && self.tuplet_number == 0 && self.tuplet_count == 0
        &&& !self.tuplet_start && !self.tuplet_end
        &&& self.octave_line_number == 0
        &&& self.octave_line_direction is None
        &&& !self.octave_line_start && !self.octave_line_end
        &&& colors_are_default(self.colors)
    }

    pub fn new(name: &str, octave: i32) -> (n: Note)
        ensures
            n.is_plain(name@, octave as int),
    {
        Note {
            name: crate::text::owned(name),
            accidental: None,
            octave,
            duration: 4,
            dots: 0,
            tie: false,
            slur_start: false,
            slur_end: false,
            beam_start: false,
            beam_end: false,
            articulations: Vec::new(),
            dynamic: None,
            hairpin: None,
            hairpin_start: false,
            hairpin_end: false,
            trill: false,
            trill_line: false,
            trill_start: false,
            trill_end: false,
            grace: false,
            grace_slash: false,
            ending: None,
            ending_start: false,
            ending_end: false,
            fingering: None,
            fingering_position: crate::text::owned("above"),
            chord_symbol: None,
            staff_markers: Vec::new(),
            staff_text: None,
            expression_text: None,
            lyrics: Vec::new(),
            tuplet_beats: 0,
            tuplet_number: 0,
            tuplet_count: 0,
            tuplet_start: false,
            tuplet_end: false,
            octave_line_number: 0,
            octave_line_direction: None,
            octave_line_start: false,
            octave_line_end: false,
            colors: ElementColors::new(),
        }
    }
}

impl Rest {
    /// A rest of the given duration with nothing attached.
    pub open spec fn is_plain(self, duration: int) -> bool {
        &&& self.duration == duration
        &&& self.dots == 0
        &&& self.dynamic is None
        &&& self.chord_symbol is None
        &&& self.staff_markers@.len() == 0
        &&& self.staff_text is None
        &&& self.expression_text is None
        &&& self.lyrics@.len() == 0
        &&& self.tuplet_beats == 0 && self.tuplet_number == 0 && self.tuplet_count == 0
        &&& !self.tuplet_start && !self.tuplet_end
        &&& self.octave_line_number == 0
        &&& self.octave_line_direction is None
        &&& !self.octave_line_start && !self.octave_line_end
        &&& self.hairpin is None
        &&& !self.hairpin_start && !self.hairpin_end
        &&& !self.trill && !self.trill_line && !self.trill_start && !self.trill_end
        &&& !self.grace && !self.grace_slash
        &&& self.ending is None
        &&& !self.ending_start && !self.ending_end
        &&& colors_are_default(self.colors)
    }

    pub fn new(duration: i32) -> (r: Rest)
        ensures
            r.is_plain(duration as int),
    {
        Rest {
            duration,
            dots: 0,
            dynamic: None,
            chord_symbol: None,
            staff_markers: Vec::new(),
            staff_text: None,
            expression_text: None,
            lyrics: Vec::new(),
            tuplet_beats: 0,
            tuplet_number: 0,
            tuplet_count: 0,
            tuplet_start: false,
            tuplet_end: false,
            octave_line_number: 0,
            octave_line_direction: None,
            octave_line_start: false,
            octave_line_end: false,
            hairpin: None,
            hairpin_start: false,
            hairpin_end: false,
            trill: false,
            trill_line: false,
            trill_start: false,
            trill_end: false,
            grace: false,
            grace_slash: false,
            ending: None,
            ending_start: false,
            ending_end: false,
            colors: ElementColors::new(),
        }
    }
}

impl Barline {
    pub fn new(style: &str) -> (b: Barline)
        ensures
            b.style@ == style@,
            b.ending is None,
            !b.ending_start,
            !b.ending_end,
            b.color is None,
    {
        Barline {
            style: crate::text::owned(style),
            ending: None,
            ending_start: false,
            ending_end: false,
            color: None,
        }
    }
}

impl Gap {
    pub fn new(amount: i32) -> (g: Gap)
        ensures
            g.amount == amount,
            g.ending is None,
            !g.ending_start,
            !g.ending_end,
    {
        Gap { amount, ending: None, ending_start: false, ending_end: false }
    }
}


impl Fingering {
    /// The fingering marks as (value, bold, colour) triples, in order.
    pub open spec fn mark_views(self) -> Seq<(int, bool, Option<Seq<char>>)> {
        match self {
            Fingering::Single(v) => seq![(v as int, false, None)],
            Fingering::Multiple(vs) => vs@.map_values(|v: i32| (v as int, false, None::<Seq<char>>)),
            Fingering::Marked(ms) => ms@.map_values(|m: FingeringMark| crate::lexer::mark_view(m)),
        }
    }

    /// The fingering numbers, in order.
    pub open spec fn value_seq(self) -> Seq<i32> {
        match self {
            Fingering::Single(v) => seq![v],
            Fingering::Multiple(vs) => vs@,
            Fingering::Marked(ms) => ms@.map_values(|m: FingeringMark| m.value),
        }
    }

    pub fn values(&self) -> (r: Vec<i32>)
        ensures
            r@ == self.value_seq(),
    {
        match self {
            Fingering::Single(v) => {
                let mut r: Vec<i32> = Vec::new();
                r.push(*v);
                r
            },
            Fingering::Multiple(vs) => {
                let mut r: Vec<i32> = Vec::new();
                let mut i: usize = 0;
                while i < vs.len()
                    invariant
                        i <= vs@.len(),
                        r@ == vs@.take(i as int),
                    decreases vs@.len() - i,
                {
                    r.push(vs[i]);
                    i = i + 1;
                    assert(r@ =~= vs@.take(i as int));
                }
                assert(vs@.take(vs@.len() as int) =~= vs@);
                r
            },
            Fingering::Marked(ms) => {
                let mut r: Vec<i32> = Vec::new();
                let mut i: usize = 0;
                while i < ms.len()
                    invariant
                        i <= ms@.len(),
                        r@ == ms@.take(i as int).map_values(|m: FingeringMark| m.value),
                    decreases ms@.len() - i,
                {
                    r.push(ms[i].value);
                    i = i + 1;
                    assert(r@ =~= ms@.take(i as int).map_values(|m: FingeringMark| m.value));
                }
                assert(ms@.take(ms@.len() as int) =~= ms@);
                r
            },
        }
    }

    pub fn marks(&self) -> (r: Vec<FingeringMark>)
        ensures
            r@.map_values(|m: FingeringMark| crate::lexer::mark_view(m)) == self.mark_views(),
    {
        match self {
            Fingering::Single(v) => {
                let mut r: Vec<FingeringMark> = Vec::new();
                r.push(FingeringMark { value: *v, bold: false, color: None });
                assert(r@.map_values(|m: FingeringMark| crate::lexer::mark_view(m)) =~= self.mark_views());
                r
            },
            Fingering::Multiple(vs) => {
                let mut r: Vec<FingeringMark> = Vec::new();
                let mut i: usize = 0;
                while i < vs.len()
                    invariant
                        i <= vs@.len(),
                        r@.map_values(|m: FingeringMark| crate::lexer::mark_view(m))
                            == vs@.take(i as int).map_values(|v: i32| (v as int, false, None::<Seq<char>>)),
                    decreases vs@.len() - i,
                {
                    let ghost before = r@;
                    r.push(FingeringMark { value: vs[i], bold: false, color: None });
                    assert(vs@.take(i + 1) =~= vs@.take(i as int).push(vs@[i as int]));
                    assert(r@.map_values(|m: FingeringMark| crate::lexer::mark_view(m))
                        =~= before.map_values(|m: FingeringMark| crate::lexer::mark_view(m)).push(
                        (vs@[i as int] as int, false, None::<Seq<char>>)));
                    i = i + 1;
                    assert(r@.map_values(|m: FingeringMark| crate::lexer::mark_view(m))
                        =~= vs@.take(i as int).map_values(|v: i32| (v as int, false, None::<Seq<char>>)));
                }
                assert(vs@.take(vs@.len() as int) =~= vs@);
                r
            },
            Fingering::Marked(ms) => {
                let mut r: Vec<FingeringMark> = Vec::new();
                let mut i: usize = 0;
                while i < ms.len()
                    invariant
                        i <= ms@.len(),
                        r@.map_values(|m: FingeringMark| crate::lexer::mark_view(m))
                            == ms@.take(i as int).map_values(|m: FingeringMark| crate::lexer::mark_view(m)),
                    decreases ms@.len() - i,
                {
                    let m = &ms[i];
                    let ghost before = r@;
                    let nm = FingeringMark { value: m.value, bold: m.bold, color: crate::parser::clone_opt(&m.color) };
                    assert(crate::lexer::mark_view(nm) == crate::lexer::mark_view(ms@[i as int]));
                    r.push(nm);
                    assert(ms@.take(i + 1) =~= ms@.take(i as int).push(ms@[i as int]));
                    assert(r@.map_values(|m: FingeringMark| crate::lexer::mark_view(m))
                        =~= before.map_values(|m: FingeringMark| crate::lexer::mark_view(m)).push(
                        crate::lexer::mark_view(nm)));
                    i = i + 1;
                    assert(r@.map_values(|m: FingeringMark| crate::lexer::mark_view(m))
                        =~= ms@.take(i as int).map_values(|m: FingeringMark| crate::lexer::mark_view(m)));
                }
                assert(ms@.take(ms@.len() as int) =~= ms@);
                r
            },
        }
    }
}

} // verus!

verus! {

/// One staff of a score as the caller describes it. A note-colour map is a
/// list of (pitch key, colour) pairs.
#[derive(Debug, Clone)]
pub struct StaffInput {
    pub clef: Option<String>,
    pub music: String,
    pub label: Option<String>,
    pub instrument_name: Option<String>,
    pub instrument_name_cont: Option<String>,
    pub instrument_name_shared: bool,
    pub fingering_position: Option<String>,
    pub barline_group_start: bool,
    pub barline_group_end: bool,
    pub bracket_start: bool,
    pub bracket_end: bool,
    pub brace_start: bool,
    pub brace_end: bool,
    pub color: Option<String>,
    pub note_colors: Option<Vec<(String, String)>>,
}

#[derive(Debug, Clone, Copy, PartialEq, Eq, Structural)]
pub enum StaffGroupKind {
    Barline,
    Bracket,
    Brace,
}

/// Staves `start..=end` joined by one group symbol.
#[derive(Debug, Clone, PartialEq, Eq, Structural)]
pub struct StaffGroupRange {
    pub start: usize,
    pub end: usize,
    pub kind: StaffGroupKind,
}

/// The time signature a system starts with.
#[derive(Debug, Clone)]
pub struct TimeInfo {
    pub upper: i32,
    pub lower: i32,
    pub symbol: Option<String>,
}

} // verus!
