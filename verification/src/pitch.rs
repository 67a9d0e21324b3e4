//! Clef names and pitch arithmetic used by the parser and the spacing rules.

use vstd::prelude::*;

use crate::text::str_eq;

verus! {

/// The clefs a music string may switch to: treble, bass, alto, tenor, their
/// octave-transposing variants, and percussion.
pub open spec fn spec_is_supported_clef(name: Seq<char>) -> bool {
    ||| name == "treble"@
    ||| name == "bass"@
    ||| name == "alto"@
    ||| name == "tenor"@
    ||| name == "treble-8a"@
    ||| name == "treble-8b"@
    ||| name == "treble-15a"@
    ||| name == "treble-15b"@
    ||| name == "bass-8a"@
    ||| name == "bass-8b"@
    ||| name == "bass-15a"@
    ||| name == "bass-15b"@
    ||| name == "percussion"@
}

pub fn is_supported_clef(name: &str) -> (r: bool)
    ensures
        r == spec_is_supported_clef(name@),
{
    str_eq(name, "treble") || str_eq(name, "bass") || str_eq(name, "alto") || str_eq(name, "tenor")
        || str_eq(name, "treble-8a") || str_eq(name, "treble-8b") || str_eq(name, "treble-15a")
        || str_eq(name, "treble-15b") || str_eq(name, "bass-8a") || str_eq(name, "bass-8b")
        || str_eq(name, "bass-15a") || str_eq(name, "bass-15b") || str_eq(name, "percussion")
}

/// The octave that an unmarked note name refers to under a clef: the octave
/// whose notes lie on or next to the staff.
pub open spec fn spec_clef_default_base_octave(clef: Seq<char>) -> int {
    if clef == "bass"@ || clef == "tenor"@ || clef == "treble-8b"@ {
        3
    } else if clef == "bass-8a"@ {
        4
    } else if clef == "treble-8a"@ || clef == "bass-15a"@ {
        5
    } else if clef == "treble-15a"@ {
        6
    } else if clef == "treble-15b"@ || clef == "bass-8b"@ {
        2
    } else if clef == "bass-15b"@ {
        1
    } else {
        4
    }
}

pub fn clef_default_base_octave(clef: &str) -> (r: i32)
    ensures
        r as int == spec_clef_default_base_octave(clef@),
        1 <= r <= 6,
{
    if str_eq(clef, "bass") || str_eq(clef, "tenor") || str_eq(clef, "treble-8b") {
        3
    } else if str_eq(clef, "bass-8a") {
        4
    } else if str_eq(clef, "treble-8a") || str_eq(clef, "bass-15a") {
        5
    } else if str_eq(clef, "treble-15a") {
        6
    } else if str_eq(clef, "treble-15b") || str_eq(clef, "bass-8b") {
        2
    } else if str_eq(clef, "bass-15b") {
        1
    } else {
        4
    }
}

/// The step of a note name within its octave, counted from `c`.
pub open spec fn spec_note_step(name: Seq<char>) -> int {
    if name.len() == 0 {
        0
    } else {
        let c = name[0];
        if c == 'd' {
            1
        } else if c == 'e' {
            2
        } else if c == 'f' {
            3
        } else if c == 'g' {
            4
        } else if c == 'a' {
            5
        } else if c == 'b' {
            6
        } else {
            0
        }
    }
}

/// The diatonic index of a pitch: seven steps per octave, `c` of octave 0
/// being 0.
pub open spec fn spec_pitch_to_diatonic(name: Seq<char>, octave: int) -> int {
    octave * 7 + spec_note_step(name)
}

pub fn pitch_to_diatonic(name: &str, octave: i32) -> (r: i64)
    ensures
        r as int == spec_pitch_to_diatonic(name@, octave as int),
{
    let step: i64 = if name.unicode_len() == 0 {
        0
    } else {
        let c = name.get_char(0);
        if c == 'd' {
            1
        } else if c == 'e' {
            2
        } else if c == 'f' {
            3
        } else if c == 'g' {
            4
        } else if c == 'a' {
            5
        } else if c == 'b' {
            6
        } else {
            0
        }
    };
    (octave as i64) * 7 + step
}

} // verus!
