//! Uniform read access to the parts that several kinds of event share.
//!
//! Each accessor answers for every kind of event: a kind that has no such
//! part gives the neutral value (`0`, `false`, nothing, an empty list).

use vstd::prelude::*;

use crate::text::{opt_str_view, opt_view};
use crate::types::{Event, Fingering, LyricEntry};

verus! {

/// The text of an optional owned string, borrowed.
pub fn as_opt_str(o: &Option<String>) -> (r: Option<&str>)
    ensures
        opt_str_view(r) == opt_view(*o),
{
    match o {
        Some(s) => Some(s.as_str()),
        None => None,
    }
}

impl Event {
    pub fn is_note(&self) -> (r: bool)
        ensures
            r == (*self is Note),
    {
        match self {
            Event::Note(_) => true,
            _ => false,
        }
    }

    pub fn is_rest(&self) -> (r: bool)
        ensures
            r == (*self is Rest),
    {
        match self {
            Event::Rest(_) => true,
            _ => false,
        }
    }

    pub fn is_chord(&self) -> (r: bool)
        ensures
            r == (*self is Chord),
    {
        match self {
            Event::Chord(_) => true,
            _ => false,
        }
    }

    pub fn is_voice_group(&self) -> (r: bool)
        ensures
            r == (*self is VoiceGroup),
    {
        match self {
            Event::VoiceGroup(_) => true,
            _ => false,
        }
    }

    pub fn is_barline(&self) -> (r: bool)
        ensures
            r == (*self is Barline),
    {
        match self {
            Event::Barline(_) => true,
            _ => false,
        }
    }

    pub fn is_anchor(&self) -> (r: bool)
        ensures
            r == (*self is Note || *self is Rest || *self is Chord),
    {
        match self {
            Event::Note(_) | Event::Rest(_) | Event::Chord(_) => true,
            _ => false,
        }
    }


    /// The written duration value of a note, rest, chord or spacer; 0 for anything else.
    pub open spec fn spec_duration(self) -> i32 {
        match self {
            Event::Note(n) => n.duration,
            Event::Rest(r) => r.duration,
            Event::Chord(c) => c.duration,
            Event::Spacer(s) => s.duration,
            _ => 0,
        }
    }

    pub fn duration(&self) -> (r: i32)
        ensures
            r == self.spec_duration(),
    {
        match self {
            Event::Note(n) => n.duration,
            Event::Rest(r) => r.duration,
            Event::Chord(c) => c.duration,
            Event::Spacer(s) => s.duration,
            _ => 0,
        }
    }

    /// The number of augmentation dots; 0 where there are none.
    pub open spec fn spec_dots(self) -> i32 {
        match self {
            Event::Note(n) => n.dots,
            Event::Rest(r) => r.dots,
            Event::Chord(c) => c.dots,
            Event::Spacer(s) => s.dots,
            _ => 0,
        }
    }

    pub fn dots(&self) -> (r: i32)
        ensures
            r == self.spec_dots(),
    {
        match self {
            Event::Note(n) => n.dots,
            Event::Rest(r) => r.dots,
            Event::Chord(c) => c.dots,
            Event::Spacer(s) => s.dots,
            _ => 0,
        }
    }

    /// Whether a note, rest or chord is a grace event.
    pub open spec fn spec_grace(self) -> bool {
        match self {
            Event::Note(n) => n.grace,
            Event::Rest(r) => r.grace,
            Event::Chord(c) => c.grace,
            _ => false,
        }
    }

    pub fn grace(&self) -> (r: bool)
        ensures
            r == self.spec_grace(),
    {
        match self {
            Event::Note(n) => n.grace,
            Event::Rest(r) => r.grace,
            Event::Chord(c) => c.grace,
            _ => false,
        }
    }

    /// The tuplet's "in the time of" count; 0 outside tuplets.
    pub open spec fn spec_tuplet_beats(self) -> i32 {
        match self {
            Event::Note(n) => n.tuplet_beats,
            Event::Rest(r) => r.tuplet_beats,
            Event::Chord(c) => c.tuplet_beats,
            _ => 0,
        }
    }

    pub fn tuplet_beats(&self) -> (r: i32)
        ensures
            r == self.spec_tuplet_beats(),
    {
        match self {
            Event::Note(n) => n.tuplet_beats,
            Event::Rest(r) => r.tuplet_beats,
            Event::Chord(c) => c.tuplet_beats,
            _ => 0,
        }
    }

    pub open spec fn spec_tuplet_count(self) -> i32 {
        match self {
            Event::Note(n) => n.tuplet_count,
            Event::Rest(r) => r.tuplet_count,
            Event::Chord(c) => c.tuplet_count,
            _ => 0,
        }
    }

    pub fn tuplet_count(&self) -> (r: i32)
        ensures
            r == self.spec_tuplet_count(),
    {
        match self {
            Event::Note(n) => n.tuplet_count,
            Event::Rest(r) => r.tuplet_count,
            Event::Chord(c) => c.tuplet_count,
            _ => 0,
        }
    }

    pub open spec fn spec_tuplet_number(self) -> i32 {
        match self {
            Event::Note(n) => n.tuplet_number,
            Event::Rest(r) => r.tuplet_number,
            Event::Chord(c) => c.tuplet_number,
            _ => 0,
        }
    }

    pub fn tuplet_number(&self) -> (r: i32)
        ensures
            r == self.spec_tuplet_number(),
    {
        match self {
            Event::Note(n) => n.tuplet_number,
            Event::Rest(r) => r.tuplet_number,
            Event::Chord(c) => c.tuplet_number,
            _ => 0,
        }
    }

    pub open spec fn spec_tuplet_start(self) -> bool {
        match self {
            Event::Note(n) => n.tuplet_start,
            Event::Rest(r) => r.tuplet_start,
            Event::Chord(c) => c.tuplet_start,
            _ => false,
        }
    }

    pub fn tuplet_start(&self) -> (r: bool)
        ensures
            r == self.spec_tuplet_start(),
    {
        match self {
            Event::Note(n) => n.tuplet_start,
            Event::Rest(r) => r.tuplet_start,
            Event::Chord(c) => c.tuplet_start,
            _ => false,
        }
    }

    pub open spec fn spec_tuplet_end(self) -> bool {
        match self {
            Event::Note(n) => n.tuplet_end,
            Event::Rest(r) => r.tuplet_end,
            Event::Chord(c) => c.tuplet_end,
            _ => false,
        }
    }

    pub fn tuplet_end(&self) -> (r: bool)
        ensures
            r == self.spec_tuplet_end(),
    {
        match self {
            Event::Note(n) => n.tuplet_end,
            Event::Rest(r) => r.tuplet_end,
            Event::Chord(c) => c.tuplet_end,
            _ => false,
        }
    }

    pub open spec fn spec_tie(self) -> bool {
        match self {
            Event::Note(n) => n.tie,
            Event::Chord(c) => c.tie,
            _ => false,
        }
    }

    pub fn tie(&self) -> (r: bool)
        ensures
            r == self.spec_tie(),
    {
        match self {
            Event::Note(n) => n.tie,
            Event::Chord(c) => c.tie,
            _ => false,
        }
    }

    pub open spec fn spec_slur_start(self) -> bool {
        match self {
            Event::Note(n) => n.slur_start,
            Event::Chord(c) => c.slur_start,
            _ => false,
        }
    }

    pub fn slur_start(&self) -> (r: bool)
        ensures
            r == self.spec_slur_start(),
    {
        match self {
            Event::Note(n) => n.slur_start,
            Event::Chord(c) => c.slur_start,
            _ => false,
        }
    }

    pub open spec fn spec_slur_end(self) -> bool {
        match self {
            Event::Note(n) => n.slur_end,
            Event::Chord(c) => c.slur_end,
            _ => false,
        }
    }

    pub fn slur_end(&self) -> (r: bool)
        ensures
            r == self.spec_slur_end(),
    {
        match self {
            Event::Note(n) => n.slur_end,
            Event::Chord(c) => c.slur_end,
            _ => false,
        }
    }

    pub open spec fn spec_articulations(self) -> Seq<String> {
        match self {
            Event::Note(n) => n.articulations@,
            Event::Chord(c) => c.articulations@,
            _ => Seq::empty(),
        }
    }

    pub fn articulations(&self) -> (r: &[String])
        ensures
            r@ == self.spec_articulations(),
    {
        match self {
            Event::Note(n) => n.articulations.as_slice(),
            Event::Chord(c) => c.articulations.as_slice(),
            _ => &[],
        }
    }

    /// The colour of the whole event, where one was set.
    pub open spec fn spec_overall_color(self) -> Option<Seq<char>> {
        match self {
            Event::Note(n) => opt_view(n.colors.overall),
            Event::Rest(r) => opt_view(r.colors.overall),
            Event::Chord(c) => opt_view(c.colors.overall),
            Event::Barline(b) => opt_view(b.color),
            Event::Clef(cl) => opt_view(cl.color),
            Event::TimeSig(t) => opt_view(t.color),
            Event::Spacer(s) => opt_view(s.color),
            _ => None,
        }
    }

    pub fn overall_color(&self) -> (r: Option<&str>)
        ensures
            opt_str_view(r) == self.spec_overall_color(),
    {
        match self {
            Event::Note(n) => as_opt_str(&n.colors.overall),
            Event::Rest(r) => as_opt_str(&r.colors.overall),
            Event::Chord(c) => as_opt_str(&c.colors.overall),
            Event::Barline(b) => as_opt_str(&b.color),
            Event::Clef(cl) => as_opt_str(&cl.color),
            Event::TimeSig(t) => as_opt_str(&t.color),
            Event::Spacer(s) => as_opt_str(&s.color),
            _ => None,
        }
    }

    pub open spec fn spec_tie_color(self) -> Option<Seq<char>> {
        match self {
            Event::Note(n) => opt_view(n.colors.tie),
            Event::Chord(c) => opt_view(c.colors.tie),
            _ => None,
        }
    }

    pub fn tie_color(&self) -> (r: Option<&str>)
        ensures
            opt_str_view(r) == self.spec_tie_color(),
    {
        match self {
            Event::Note(n) => as_opt_str(&n.colors.tie),
            Event::Chord(c) => as_opt_str(&c.colors.tie),
            _ => None,
        }
    }

    pub open spec fn spec_slur_color(self) -> Option<Seq<char>> {
        match self {
            Event::Note(n) => opt_view(n.colors.slur),
            Event::Chord(c) => opt_view(c.colors.slur),
            _ => None,
        }
    }

    pub fn slur_color(&self) -> (r: Option<&str>)
        ensures
            opt_str_view(r) == self.spec_slur_color(),
    {
        match self {
            Event::Note(n) => as_opt_str(&n.colors.slur),
            Event::Chord(c) => as_opt_str(&c.colors.slur),
            _ => None,
        }
    }

    pub open spec fn spec_beam_color(self) -> Option<Seq<char>> {
        match self {
            Event::Note(n) => opt_view(n.colors.beam),
            Event::Chord(c) => opt_view(c.colors.beam),
            _ => None,
        }
    }

    pub fn beam_color(&self) -> (r: Option<&str>)
        ensures
            opt_str_view(r) == self.spec_beam_color(),
    {
        match self {
            Event::Note(n) => as_opt_str(&n.colors.beam),
            Event::Chord(c) => as_opt_str(&c.colors.beam),
            _ => None,
        }
    }

    pub open spec fn spec_articulation_color(self) -> Option<Seq<char>> {
        match self {
            Event::Note(n) => opt_view(n.colors.articulations),
            Event::Chord(c) => opt_view(c.colors.articulations),
            _ => None,
        }
    }

    pub fn articulation_color(&self) -> (r: Option<&str>)
        ensures
            opt_str_view(r) == self.spec_articulation_color(),
    {
        match self {
            Event::Note(n) => as_opt_str(&n.colors.articulations),
            Event::Chord(c) => as_opt_str(&c.colors.articulations),
            _ => None,
        }
    }

    pub open spec fn spec_dynamic_mark(self) -> Option<Seq<char>> {
        match self {
            Event::Note(n) => opt_view(n.dynamic),
            Event::Rest(r) => opt_view(r.dynamic),
            Event::Chord(c) => opt_view(c.dynamic),
            _ => None,
        }
    }

    pub fn dynamic_mark(&self) -> (r: Option<&str>)
        ensures
            opt_str_view(r) == self.spec_dynamic_mark(),
    {
        match self {
            Event::Note(n) => as_opt_str(&n.dynamic),
            Event::Rest(r) => as_opt_str(&r.dynamic),
            Event::Chord(c) => as_opt_str(&c.dynamic),
            _ => None,
        }
    }

    pub open spec fn spec_dynamic_color(self) -> Option<Seq<char>> {
        match self {
            Event::Note(n) => opt_view(n.colors.dynamic),
            Event::Rest(r) => opt_view(r.colors.dynamic),
            Event::Chord(c) => opt_view(c.colors.dynamic),
            _ => None,
        }
    }

    pub fn dynamic_color(&self) -> (r: Option<&str>)
        ensures
            opt_str_view(r) == self.spec_dynamic_color(),
    {
        match self {
            Event::Note(n) => as_opt_str(&n.colors.dynamic),
            Event::Rest(r) => as_opt_str(&r.colors.dynamic),
            Event::Chord(c) => as_opt_str(&c.colors.dynamic),
            _ => None,
        }
    }

    pub open spec fn spec_hairpin(self) -> Option<Seq<char>> {
        match self {
            Event::Note(n) => opt_view(n.hairpin),
            Event::Rest(r) => opt_view(r.hairpin),
            Event::Chord(c) => opt_view(c.hairpin),
            _ => None,
        }
    }

    pub fn hairpin(&self) -> (r: Option<&str>)
        ensures
            opt_str_view(r) == self.spec_hairpin(),
    {
        match self {
            Event::Note(n) => as_opt_str(&n.hairpin),
            Event::Rest(r) => as_opt_str(&r.hairpin),
            Event::Chord(c) => as_opt_str(&c.hairpin),
            _ => None,
        }
    }

    pub open spec fn spec_hairpin_start(self) -> bool {
        match self {
            Event::Note(n) => n.hairpin_start,
            Event::Rest(r) => r.hairpin_start,
            Event::Chord(c) => c.hairpin_start,
            _ => false,
        }
    }

    pub fn hairpin_start(&self) -> (r: bool)
        ensures
            r == self.spec_hairpin_start(),
    {
        match self {
            Event::Note(n) => n.hairpin_start,
            Event::Rest(r) => r.hairpin_start,
            Event::Chord(c) => c.hairpin_start,
            _ => false,
        }
    }

    pub open spec fn spec_hairpin_end(self) -> bool {
        match self {
            Event::Note(n) => n.hairpin_end,
            Event::Rest(r) => r.hairpin_end,
            Event::Chord(c) => c.hairpin_end,
            _ => false,
        }
    }

    pub fn hairpin_end(&self) -> (r: bool)
        ensures
            r == self.spec_hairpin_end(),
    {
        match self {
            Event::Note(n) => n.hairpin_end,
            Event::Rest(r) => r.hairpin_end,
            Event::Chord(c) => c.hairpin_end,
            _ => false,
        }
    }

    pub open spec fn spec_trill(self) -> bool {
        match self {
            Event::Note(n) => n.trill,
            Event::Rest(r) => r.trill,
            Event::Chord(c) => c.trill,
            _ => false,
        }
    }

    pub fn trill(&self) -> (r: bool)
        ensures
            r == self.spec_trill(),
    {
        match self {
            Event::Note(n) => n.trill,
            Event::Rest(r) => r.trill,
            Event::Chord(c) => c.trill,
            _ => false,
        }
    }

    pub open spec fn spec_trill_line(self) -> bool {
        match self {
            Event::Note(n) => n.trill_line,
            Event::Rest(r) => r.trill_line,
            Event::Chord(c) => c.trill_line,
            _ => false,
        }
    }

    pub fn trill_line(&self) -> (r: bool)
        ensures
            r == self.spec_trill_line(),
    {
        match self {
            Event::Note(n) => n.trill_line,
            Event::Rest(r) => r.trill_line,
            Event::Chord(c) => c.trill_line,
            _ => false,
        }
    }

    pub open spec fn spec_trill_start(self) -> bool {
        match self {
            Event::Note(n) => n.trill_start,
            Event::Rest(r) => r.trill_start,
            Event::Chord(c) => c.trill_start,
            _ => false,
        }
    }

    pub fn trill_start(&self) -> (r: bool)
        ensures
            r == self.spec_trill_start(),
    {
        match self {
            Event::Note(n) => n.trill_start,
            Event::Rest(r) => r.trill_start,
            Event::Chord(c) => c.trill_start,
            _ => false,
        }
    }

    pub open spec fn spec_trill_end(self) -> bool {
        match self {
            Event::Note(n) => n.trill_end,
            Event::Rest(r) => r.trill_end,
            Event::Chord(c) => c.trill_end,
            _ => false,
        }
    }

    pub fn trill_end(&self) -> (r: bool)
        ensures
            r == self.spec_trill_end(),
    {
        match self {
            Event::Note(n) => n.trill_end,
            Event::Rest(r) => r.trill_end,
            Event::Chord(c) => c.trill_end,
            _ => false,
        }
    }

    pub open spec fn spec_trill_color(self) -> Option<Seq<char>> {
        match self {
            Event::Note(n) => opt_view(n.colors.trill),
            Event::Rest(r) => opt_view(r.colors.trill),
            Event::Chord(c) => opt_view(c.colors.trill),
            _ => None,
        }
    }

    pub fn trill_color(&self) -> (r: Option<&str>)
        ensures
            opt_str_view(r) == self.spec_trill_color(),
    {
        match self {
            Event::Note(n) => as_opt_str(&n.colors.trill),
            Event::Rest(r) => as_opt_str(&r.colors.trill),
            Event::Chord(c) => as_opt_str(&c.colors.trill),
            _ => None,
        }
    }

    pub open spec fn spec_ending(self) -> Option<Seq<char>> {
        match self {
            Event::Note(n) => opt_view(n.ending),
            Event::Rest(r) => opt_view(r.ending),
            Event::Chord(c) => opt_view(c.ending),
            Event::Barline(b) => opt_view(b.ending),
            Event::Clef(cl) => opt_view(cl.ending),
            Event::TimeSig(t) => opt_view(t.ending),
            Event::KeySig(k) => opt_view(k.ending),
            Event::Gap(g) => opt_view(g.ending),
            Event::Spacer(s) => opt_view(s.ending),
            _ => None,
        }
    }

    pub fn ending(&self) -> (r: Option<&str>)
        ensures
            opt_str_view(r) == self.spec_ending(),
    {
        match self {
            Event::Note(n) => as_opt_str(&n.ending),
            Event::Rest(r) => as_opt_str(&r.ending),
            Event::Chord(c) => as_opt_str(&c.ending),
            Event::Barline(b) => as_opt_str(&b.ending),
            Event::Clef(cl) => as_opt_str(&cl.ending),
            Event::TimeSig(t) => as_opt_str(&t.ending),
            Event::KeySig(k) => as_opt_str(&k.ending),
            Event::Gap(g) => as_opt_str(&g.ending),
            Event::Spacer(s) => as_opt_str(&s.ending),
            _ => None,
        }
    }

    pub open spec fn spec_ending_start(self) -> bool {
        match self {
            Event::Note(n) => n.ending_start,
            Event::Rest(r) => r.ending_start,
            Event::Chord(c) => c.ending_start,
            Event::Barline(b) => b.ending_start,
            Event::Clef(cl) => cl.ending_start,
            Event::TimeSig(t) => t.ending_start,
            Event::KeySig(k) => k.ending_start,
            Event::Gap(g) => g.ending_start,
            Event::Spacer(s) => s.ending_start,
            _ => false,
        }
    }

    pub fn ending_start(&self) -> (r: bool)
        ensures
            r == self.spec_ending_start(),
    {
        match self {
            Event::Note(n) => n.ending_start,
            Event::Rest(r) => r.ending_start,
            Event::Chord(c) => c.ending_start,
            Event::Barline(b) => b.ending_start,
            Event::Clef(cl) => cl.ending_start,
            Event::TimeSig(t) => t.ending_start,
            Event::KeySig(k) => k.ending_start,
            Event::Gap(g) => g.ending_start,
            Event::Spacer(s) => s.ending_start,
            _ => false,
        }
    }

    pub open spec fn spec_ending_end(self) -> bool {
        match self {
            Event::Note(n) => n.ending_end,
            Event::Rest(r) => r.ending_end,
            Event::Chord(c) => c.ending_end,
            Event::Barline(b) => b.ending_end,
            Event::Clef(cl) => cl.ending_end,
            Event::TimeSig(t) => t.ending_end,
            Event::KeySig(k) => k.ending_end,
            Event::Gap(g) => g.ending_end,
            Event::Spacer(s) => s.ending_end,
            _ => false,
        }
    }

    pub fn ending_end(&self) -> (r: bool)
        ensures
            r == self.spec_ending_end(),
    {
        match self {
            Event::Note(n) => n.ending_end,
            Event::Rest(r) => r.ending_end,
            Event::Chord(c) => c.ending_end,
            Event::Barline(b) => b.ending_end,
            Event::Clef(cl) => cl.ending_end,
            Event::TimeSig(t) => t.ending_end,
            Event::KeySig(k) => k.ending_end,
            Event::Gap(g) => g.ending_end,
            Event::Spacer(s) => s.ending_end,
            _ => false,
        }
    }

    pub open spec fn spec_octave_line_number(self) -> i32 {
        match self {
            Event::Note(n) => n.octave_line_number,
            Event::Rest(r) => r.octave_line_number,
            Event::Chord(c) => c.octave_line_number,
            _ => 0,
        }
    }

    pub fn octave_line_number(&self) -> (r: i32)
        ensures
            r == self.spec_octave_line_number(),
    {
        match self {
            Event::Note(n) => n.octave_line_number,
            Event::Rest(r) => r.octave_line_number,
            Event::Chord(c) => c.octave_line_number,
            _ => 0,
        }
    }

    pub open spec fn spec_octave_line_direction(self) -> Option<Seq<char>> {
        match self {
            Event::Note(n) => opt_view(n.octave_line_direction),
            Event::Rest(r) => opt_view(r.octave_line_direction),
            Event::Chord(c) => opt_view(c.octave_line_direction),
            _ => None,
        }
    }

    pub fn octave_line_direction(&self) -> (r: Option<&str>)
        ensures
            opt_str_view(r) == self.spec_octave_line_direction(),
    {
        match self {
            Event::Note(n) => as_opt_str(&n.octave_line_direction),
            Event::Rest(r) => as_opt_str(&r.octave_line_direction),
            Event::Chord(c) => as_opt_str(&c.octave_line_direction),
            _ => None,
        }
    }

    pub open spec fn spec_octave_line_start(self) -> bool {
        match self {
            Event::Note(n) => n.octave_line_start,
            Event::Rest(r) => r.octave_line_start,
            Event::Chord(c) => c.octave_line_start,
            _ => false,
        }
    }

    pub fn octave_line_start(&self) -> (r: bool)
        ensures
            r == self.spec_octave_line_start(),
    {
        match self {
            Event::Note(n) => n.octave_line_start,
            Event::Rest(r) => r.octave_line_start,
            Event::Chord(c) => c.octave_line_start,
            _ => false,
        }
    }

    pub open spec fn spec_octave_line_end(self) -> bool {
        match self {
            Event::Note(n) => n.octave_line_end,
            Event::Rest(r) => r.octave_line_end,
            Event::Chord(c) => c.octave_line_end,
            _ => false,
        }
    }

    pub fn octave_line_end(&self) -> (r: bool)
        ensures
            r == self.spec_octave_line_end(),
    {
        match self {
            Event::Note(n) => n.octave_line_end,
            Event::Rest(r) => r.octave_line_end,
            Event::Chord(c) => c.octave_line_end,
            _ => false,
        }
    }

    pub open spec fn spec_octave_line_color(self) -> Option<Seq<char>> {
        match self {
            Event::Note(n) => opt_view(n.colors.octave_line),
            Event::Rest(r) => opt_view(r.colors.octave_line),
            Event::Chord(c) => opt_view(c.colors.octave_line),
            _ => None,
        }
    }

    pub fn octave_line_color(&self) -> (r: Option<&str>)
        ensures
            opt_str_view(r) == self.spec_octave_line_color(),
    {
        match self {
            Event::Note(n) => as_opt_str(&n.colors.octave_line),
            Event::Rest(r) => as_opt_str(&r.colors.octave_line),
            Event::Chord(c) => as_opt_str(&c.colors.octave_line),
            _ => None,
        }
    }

    pub open spec fn spec_fingering(self) -> Option<Fingering> {
        match self {
            Event::Note(n) => n.fingering,
            Event::Chord(c) => c.fingering,
            _ => None,
        }
    }

    pub fn fingering(&self) -> (r: Option<&Fingering>)
        ensures
            (match r { Some(f) => self.spec_fingering() == Some(*f), None => self.spec_fingering() is None }),
    {
        match self {
            Event::Note(n) => match &n.fingering { Some(f) => Some(f), None => None },
            Event::Chord(c) => match &c.fingering { Some(f) => Some(f), None => None },
            _ => None,
        }
    }

    pub open spec fn spec_fingering_position(self) -> Seq<char> {
        match self {
            Event::Note(n) => n.fingering_position@,
            Event::Chord(c) => c.fingering_position@,
            _ => "above"@,
        }
    }

    pub fn fingering_position(&self) -> (r: &str)
        ensures
            r@ == self.spec_fingering_position(),
    {
        match self {
            Event::Note(n) => n.fingering_position.as_str(),
            Event::Chord(c) => c.fingering_position.as_str(),
            _ => "above",
        }
    }

    pub open spec fn spec_chord_symbol(self) -> Option<Seq<char>> {
        match self {
            Event::Note(n) => opt_view(n.chord_symbol),
            Event::Rest(r) => opt_view(r.chord_symbol),
            Event::Chord(c) => opt_view(c.chord_symbol),
            _ => None,
        }
    }

    pub fn chord_symbol(&self) -> (r: Option<&str>)
        ensures
            opt_str_view(r) == self.spec_chord_symbol(),
    {
        match self {
            Event::Note(n) => as_opt_str(&n.chord_symbol),
            Event::Rest(r) => as_opt_str(&r.chord_symbol),
            Event::Chord(c) => as_opt_str(&c.chord_symbol),
            _ => None,
        }
    }

    pub open spec fn spec_chord_symbol_color(self) -> Option<Seq<char>> {
        match self {
            Event::Note(n) => opt_view(n.colors.chord_symbol),
            Event::Rest(r) => opt_view(r.colors.chord_symbol),
            Event::Chord(c) => opt_view(c.colors.chord_symbol),
            _ => None,
        }
    }

    pub fn chord_symbol_color(&self) -> (r: Option<&str>)
        ensures
            opt_str_view(r) == self.spec_chord_symbol_color(),
    {
        match self {
            Event::Note(n) => as_opt_str(&n.colors.chord_symbol),
            Event::Rest(r) => as_opt_str(&r.colors.chord_symbol),
            Event::Chord(c) => as_opt_str(&c.colors.chord_symbol),
            _ => None,
        }
    }

    pub open spec fn spec_staff_markers(self) -> Seq<String> {
        match self {
            Event::Note(n) => n.staff_markers@,
            Event::Rest(r) => r.staff_markers@,
            Event::Chord(c) => c.staff_markers@,
            _ => Seq::empty(),
        }
    }

    pub fn staff_markers(&self) -> (r: &[String])
        ensures
            r@ == self.spec_staff_markers(),
    {
        match self {
            Event::Note(n) => n.staff_markers.as_slice(),
            Event::Rest(r) => r.staff_markers.as_slice(),
            Event::Chord(c) => c.staff_markers.as_slice(),
            _ => &[],
        }
    }

    pub open spec fn spec_staff_markers_color(self) -> Option<Seq<char>> {
        match self {
            Event::Note(n) => opt_view(n.colors.staff_markers),
            Event::Rest(r) => opt_view(r.colors.staff_markers),
            Event::Chord(c) => opt_view(c.colors.staff_markers),
            _ => None,
        }
    }

    pub fn staff_markers_color(&self) -> (r: Option<&str>)
        ensures
            opt_str_view(r) == self.spec_staff_markers_color(),
    {
        match self {
            Event::Note(n) => as_opt_str(&n.colors.staff_markers),
            Event::Rest(r) => as_opt_str(&r.colors.staff_markers),
            Event::Chord(c) => as_opt_str(&c.colors.staff_markers),
            _ => None,
        }
    }

    pub open spec fn spec_staff_text(self) -> Option<Seq<char>> {
        match self {
            Event::Note(n) => opt_view(n.staff_text),
            Event::Rest(r) => opt_view(r.staff_text),
            Event::Chord(c) => opt_view(c.staff_text),
            _ => None,
        }
    }

    pub fn staff_text(&self) -> (r: Option<&str>)
        ensures
            opt_str_view(r) == self.spec_staff_text(),
    {
        match self {
            Event::Note(n) => as_opt_str(&n.staff_text),
            Event::Rest(r) => as_opt_str(&r.staff_text),
            Event::Chord(c) => as_opt_str(&c.staff_text),
            _ => None,
        }
    }

    pub open spec fn spec_staff_text_color(self) -> Option<Seq<char>> {
        match self {
            Event::Note(n) => opt_view(n.colors.staff_text),
            Event::Rest(r) => opt_view(r.colors.staff_text),
            Event::Chord(c) => opt_view(c.colors.staff_text),
            _ => None,
        }
    }

    pub fn staff_text_color(&self) -> (r: Option<&str>)
        ensures
            opt_str_view(r) == self.spec_staff_text_color(),
    {
        match self {
            Event::Note(n) => as_opt_str(&n.colors.staff_text),
            Event::Rest(r) => as_opt_str(&r.colors.staff_text),
            Event::Chord(c) => as_opt_str(&c.colors.staff_text),
            _ => None,
        }
    }

    pub open spec fn spec_expression_text(self) -> Option<Seq<char>> {
        match self {
            Event::Note(n) => opt_view(n.expression_text),
            Event::Rest(r) => opt_view(r.expression_text),
            Event::Chord(c) => opt_view(c.expression_text),
            _ => None,
        }
    }

    pub fn expression_text(&self) -> (r: Option<&str>)
        ensures
            opt_str_view(r) == self.spec_expression_text(),
    {
        match self {
            Event::Note(n) => as_opt_str(&n.expression_text),
            Event::Rest(r) => as_opt_str(&r.expression_text),
            Event::Chord(c) => as_opt_str(&c.expression_text),
            _ => None,
        }
    }

    pub open spec fn spec_expression_text_color(self) -> Option<Seq<char>> {
        match self {
            Event::Note(n) => opt_view(n.colors.expression_text),
            Event::Rest(r) => opt_view(r.colors.expression_text),
            Event::Chord(c) => opt_view(c.colors.expression_text),
            _ => None,
        }
    }

    pub fn expression_text_color(&self) -> (r: Option<&str>)
        ensures
            opt_str_view(r) == self.spec_expression_text_color(),
    {
        match self {
            Event::Note(n) => as_opt_str(&n.colors.expression_text),
            Event::Rest(r) => as_opt_str(&r.colors.expression_text),
            Event::Chord(c) => as_opt_str(&c.colors.expression_text),
            _ => None,
        }
    }

    pub open spec fn spec_lyrics(self) -> Seq<LyricEntry> {
        match self {
            Event::Note(n) => n.lyrics@,
            Event::Rest(r) => r.lyrics@,
            Event::Chord(c) => c.lyrics@,
            _ => Seq::empty(),
        }
    }

    pub fn lyrics(&self) -> (r: &[LyricEntry])
        ensures
            r@ == self.spec_lyrics(),
    {
        match self {
            Event::Note(n) => n.lyrics.as_slice(),
            Event::Rest(r) => r.lyrics.as_slice(),
            Event::Chord(c) => c.lyrics.as_slice(),
            _ => &[],
        }
    }

    pub open spec fn spec_lyrics_color(self) -> Option<Seq<char>> {
        match self {
            Event::Note(n) => opt_view(n.colors.lyrics),
            Event::Rest(r) => opt_view(r.colors.lyrics),
            Event::Chord(c) => opt_view(c.colors.lyrics),
            _ => None,
        }
    }

    pub fn lyrics_color(&self) -> (r: Option<&str>)
        ensures
            opt_str_view(r) == self.spec_lyrics_color(),
    {
        match self {
            Event::Note(n) => as_opt_str(&n.colors.lyrics),
            Event::Rest(r) => as_opt_str(&r.colors.lyrics),
            Event::Chord(c) => as_opt_str(&c.colors.lyrics),
            _ => None,
        }
    }

    pub open spec fn spec_fingering_color(self) -> Option<Seq<char>> {
        match self {
            Event::Note(n) => opt_view(n.colors.fingering),
            Event::Chord(c) => opt_view(c.colors.fingering),
            _ => None,
        }
    }

    pub fn fingering_color(&self) -> (r: Option<&str>)
        ensures
            opt_str_view(r) == self.spec_fingering_color(),
    {
        match self {
            Event::Note(n) => as_opt_str(&n.colors.fingering),
            Event::Chord(c) => as_opt_str(&c.colors.fingering),
            _ => None,
        }
    }
}

} // verus!
