use scorify::parser::{parse_music, parse_music_with_note_colors};
use scorify::types::{Event, DURATION_BREVE, DURATION_LONGA, DURATION_MAXIMA};
use std::collections::BTreeMap;

fn color_pairs(map: BTreeMap<String, String>) -> Vec<(String, String)> {
    map.into_iter().collect()
}

#[test]
fn parses_two_voice_groups() {
    let events = parse_music("v{c2 g,;c4 e g c}", 4);

    match &events[0] {
        Event::VoiceGroup(vg) => {
            assert_eq!(vg.upper.len(), 2);
            assert_eq!(vg.lower.len(), 4);
            match &vg.upper[0] {
                Event::Note(n) => assert_eq!(n.duration, 2),
                other => panic!("expected upper voice note, got {other:?}"),
            }
            match &vg.lower[0] {
                Event::Note(n) => assert_eq!(n.duration, 4),
                other => panic!("expected lower voice note, got {other:?}"),
            }
        }
        other => panic!("expected voice group, got {other:?}"),
    }
}

#[test]
fn parses_named_longer_than_whole_durations() {
    let events = parse_music(
        "cbreve. d | rlonga <e g>breve slonga cmaxima rmaxima smaxima",
        4,
    );

    match &events[0] {
        Event::Note(n) => {
            assert_eq!(n.duration, DURATION_BREVE);
            assert_eq!(n.dots, 1);
        }
        other => panic!("expected breve note, got {other:?}"),
    }

    match &events[1] {
        Event::Note(n) => assert_eq!(n.duration, DURATION_BREVE),
        other => panic!("expected sticky breve note, got {other:?}"),
    }

    match &events[3] {
        Event::Rest(r) => assert_eq!(r.duration, DURATION_LONGA),
        other => panic!("expected longa rest, got {other:?}"),
    }

    match &events[4] {
        Event::Chord(c) => assert_eq!(c.duration, DURATION_BREVE),
        other => panic!("expected breve chord, got {other:?}"),
    }

    match &events[5] {
        Event::Spacer(s) => assert_eq!(s.duration, DURATION_LONGA),
        other => panic!("expected longa spacer, got {other:?}"),
    }

    match &events[6] {
        Event::Note(n) => assert_eq!(n.duration, DURATION_MAXIMA),
        other => panic!("expected maxima note, got {other:?}"),
    }

    match &events[7] {
        Event::Rest(r) => assert_eq!(r.duration, DURATION_MAXIMA),
        other => panic!("expected maxima rest, got {other:?}"),
    }

    match &events[8] {
        Event::Spacer(s) => assert_eq!(s.duration, DURATION_MAXIMA),
        other => panic!("expected maxima spacer, got {other:?}"),
    }
}

#[test]
fn parses_bold_fingering_marks() {
    let events = parse_music("<c e g>4n[1 *3* 5]", 4);

    match &events[0] {
        Event::Chord(c) => {
            let marks = c.fingering.as_ref().expect("fingering").marks();
            assert_eq!(marks.len(), 3);
            assert_eq!(marks[0].value, 1);
            assert!(!marks[0].bold);
            assert_eq!(marks[1].value, 3);
            assert!(marks[1].bold);
            assert_eq!(marks[2].value, 5);
            assert!(!marks[2].bold);
        }
        other => panic!("expected chord, got {other:?}"),
    }
}

#[test]
fn parses_spaced_text_attachments_without_leaking_music_tokens() {
    let chord_events = parse_music("<e g# b>breve text[breve spacer stress] sbreve", 4);

    assert_eq!(chord_events.len(), 2);
    match &chord_events[0] {
        Event::Chord(c) => {
            assert_eq!(c.duration, DURATION_BREVE);
            assert_eq!(c.staff_text.as_deref(), Some("breve spacer stress"));
        }
        other => panic!("expected chord, got {other:?}"),
    }
    match &chord_events[1] {
        Event::Spacer(s) => assert_eq!(s.duration, DURATION_BREVE),
        other => panic!("expected spacer, got {other:?}"),
    }

    let rest_events = parse_music("rmaxima exp[huge silent duration]", 4);
    assert_eq!(rest_events.len(), 1);
    match &rest_events[0] {
        Event::Rest(r) => {
            assert_eq!(r.duration, DURATION_MAXIMA);
            assert_eq!(r.expression_text.as_deref(), Some("huge silent duration"));
        }
        other => panic!("expected rest, got {other:?}"),
    }
}

#[test]
fn preserves_repeated_spaces_as_gap_events_between_notes() {
    let events = parse_music("c8 d  e f  g  a  b c", 4);

    let gap_amounts: Vec<i32> = events
        .iter()
        .filter_map(|event| match event {
            Event::Gap(gap) => Some(gap.amount),
            _ => None,
        })
        .collect();

    assert_eq!(gap_amounts, vec![1, 1, 1, 1]);
}

#[test]
fn parses_standalone_staff_markers_on_previous_event() {
    let events = parse_music("e'2tr ds e'4 // r4", 4);

    assert_eq!(events.len(), 3);
    match &events[0] {
        Event::Note(n) => {
            assert_eq!(n.name, "e");
            assert_eq!(n.duration, 2);
            assert_eq!(n.staff_markers, vec!["dal-segno"]);
        }
        other => panic!("expected first note, got {other:?}"),
    }
    match &events[1] {
        Event::Note(n) => {
            assert_eq!(n.name, "e");
            assert_eq!(n.duration, 4);
            assert_eq!(n.staff_markers, vec!["caesura"]);
        }
        other => panic!("expected second note, got {other:?}"),
    }
}

#[test]
fn applies_note_color_map_to_notes_and_chord_noteheads() {
    let note_colors = color_pairs(BTreeMap::from([
        ("c".to_string(), "red".to_string()),
        ("e".to_string(), "#123456".to_string()),
    ]));

    let events = parse_music_with_note_colors("c4 <c e g>1", 4, Some(&note_colors), None);

    match &events[0] {
        Event::Note(note) => {
            assert_eq!(note.colors.overall.as_deref(), None);
            assert_eq!(note.colors.noteheads[0].as_deref(), Some("#ff0000"));
        }
        other => panic!("expected note, got {other:?}"),
    }

    match &events[1] {
        Event::Chord(chord) => {
            assert_eq!(chord.notes[0].color.as_deref(), Some("#ff0000"));
            assert_eq!(chord.notes[1].color.as_deref(), Some("#123456"));
            assert_eq!(chord.notes[2].color.as_deref(), None);
        }
        other => panic!("expected chord, got {other:?}"),
    }
}

#[test]
fn note_color_map_respects_staff_override_and_inline_color_precedence() {
    let score_note_colors = color_pairs(BTreeMap::from([("c".to_string(), "red".to_string())]));
    let staff_note_colors = color_pairs(BTreeMap::from([("c".to_string(), "blue".to_string())]));

    let events = parse_music_with_note_colors(
        "ccolor{#00ff00} c",
        4,
        Some(&score_note_colors),
        Some(&staff_note_colors),
    );

    match &events[0] {
        Event::Note(note) => {
            assert_eq!(note.colors.overall.as_deref(), Some("#00ff00"));
            assert!(note.colors.noteheads.is_empty());
        }
        other => panic!("expected first note, got {other:?}"),
    }

    match &events[1] {
        Event::Note(note) => {
            assert_eq!(note.colors.overall.as_deref(), None);
            assert_eq!(note.colors.noteheads[0].as_deref(), Some("#0000ff"));
        }
        other => panic!("expected second note, got {other:?}"),
    }
}

#[test]
fn note_color_map_applies_across_octaves_and_splits_at_explicit_thresholds() {
    let note_colors = color_pairs(BTreeMap::from([
        ("c".to_string(), "red".to_string()),
        ("c'".to_string(), "green".to_string()),
    ]));

    let events = parse_music_with_note_colors("c,,4 c, c c' c''", 4, Some(&note_colors), None);

    let expected = [
        Some("#ff0000"),
        Some("#ff0000"),
        Some("#ff0000"),
        Some("#00ff00"),
        Some("#00ff00"),
    ];

    for (event, expected_color) in events.iter().zip(expected) {
        match event {
            Event::Note(note) => {
                assert_eq!(
                    note.colors.noteheads.first().and_then(|color| color.as_deref()),
                    expected_color
                );
            }
            other => panic!("expected note, got {other:?}"),
        }
    }
}

#[test]
fn durations_carry_over_to_following_notes_rests_and_spacers() {
    let events = parse_music("c8. d r s e2 f", 4);
    let durations: Vec<(i32, i32)> = events.iter().map(|e| (e.duration(), e.dots())).collect();
    assert_eq!(durations, vec![(8, 1), (8, 0), (8, 0), (8, 0), (2, 0), (2, 0)]);
}

#[test]
fn newlines_become_line_breaks_between_events_only() {
    let events = parse_music("\nc4 d\n  \n e\n", 4);
    let kinds: Vec<bool> = events.iter().map(|e| matches!(e, Event::LineBreak)).collect();
    assert_eq!(kinds, vec![false, false, true, false]);
}

#[test]
fn gaps_need_two_blanks_before_more_music() {
    let events = parse_music("c4   d |  e  ", 4);
    let gaps: Vec<i32> = events
        .iter()
        .filter_map(|e| match e {
            Event::Gap(g) => Some(g.amount),
            _ => None,
        })
        .collect();
    assert_eq!(gaps, vec![2]);
}

#[test]
fn barline_tokens_give_their_styles() {
    let events = parse_music("c | c || c |. c |: c :| c :|| c :|: c :||: c ||: c", 4);
    let styles: Vec<String> = events
        .iter()
        .filter_map(|e| match e {
            Event::Barline(b) => Some(b.style.clone()),
            _ => None,
        })
        .collect();
    assert_eq!(
        styles,
        vec![
            "single",
            "double",
            "final",
            "repeat-start",
            "repeat-end",
            "repeat-end",
            "repeat-both",
            "repeat-both",
            "repeat-start"
        ]
    );
}

#[test]
fn note_heads_carry_accidentals_and_octaves() {
    let events = parse_music("f#'4 b&&,, e=", 4);
    match &events[0] {
        Event::Note(n) => {
            assert_eq!(n.accidental.as_deref(), Some("sharp"));
            assert_eq!(n.octave, 5);
        }
        other => panic!("expected note, got {other:?}"),
    }
    match &events[1] {
        Event::Note(n) => {
            assert_eq!(n.accidental.as_deref(), Some("double-flat"));
            assert_eq!(n.octave, 2);
            assert_eq!(n.duration, 4);
        }
        other => panic!("expected note, got {other:?}"),
    }
    match &events[2] {
        Event::Note(n) => assert_eq!(n.accidental.as_deref(), Some("natural")),
        other => panic!("expected note, got {other:?}"),
    }
}

#[test]
fn chords_take_part_in_sticky_durations() {
    let events = parse_music("<c e'>2 d <f a&>", 4);
    let durations: Vec<i32> = events.iter().map(|e| e.duration()).collect();
    assert_eq!(durations, vec![2, 2, 2]);
    match &events[2] {
        Event::Chord(c) => {
            assert_eq!(c.notes.len(), 2);
            assert_eq!(c.notes[1].name, "a");
            assert_eq!(c.notes[1].accidental.as_deref(), Some("flat"));
        }
        other => panic!("expected chord, got {other:?}"),
    }
    match &events[0] {
        Event::Chord(c) => assert_eq!(c.notes[1].octave, 5),
        other => panic!("expected chord, got {other:?}"),
    }
}

#[test]
fn inline_clef_names_move_the_octave_of_later_notes() {
    let events = parse_music("c4 bass c  treble-8a c\nalto d", 4);
    assert_eq!(events.len(), 9);
    match &events[0] {
        Event::Note(n) => assert_eq!(n.octave, 4),
        other => panic!("expected note, got {other:?}"),
    }
    match &events[1] {
        Event::Clef(c) => {
            assert_eq!(c.clef, "bass");
            assert!(c.color.is_none());
        }
        other => panic!("expected clef change, got {other:?}"),
    }
    match &events[2] {
        Event::Note(n) => {
            assert_eq!(n.octave, 3);
            assert_eq!(n.duration, 4);
        }
        other => panic!("expected note, got {other:?}"),
    }
    match &events[3] {
        Event::Gap(g) => assert_eq!(g.amount, 1),
        other => panic!("expected gap, got {other:?}"),
    }
    match &events[4] {
        Event::Clef(c) => assert_eq!(c.clef, "treble-8a"),
        other => panic!("expected clef change, got {other:?}"),
    }
    match &events[5] {
        Event::Note(n) => assert_eq!(n.octave, 5),
        other => panic!("expected note, got {other:?}"),
    }
    assert!(matches!(events[6], Event::LineBreak));
    match &events[7] {
        Event::Clef(c) => assert_eq!(c.clef, "alto"),
        other => panic!("expected clef change, got {other:?}"),
    }
    match &events[8] {
        Event::Note(n) => {
            assert_eq!(n.name, "d");
            assert_eq!(n.octave, 4);
        }
        other => panic!("expected note, got {other:?}"),
    }
}

#[test]
fn inline_time_words_give_time_signatures() {
    let events = parse_music("c2 d | common e1 | cut f", 4);
    assert_eq!(events.len(), 8);
    match &events[3] {
        Event::TimeSig(t) => {
            assert_eq!((t.upper, t.lower), (4, 4));
            assert_eq!(t.symbol.as_deref(), Some("common"));
        }
        other => panic!("expected time signature, got {other:?}"),
    }
    match &events[6] {
        Event::TimeSig(t) => {
            assert_eq!((t.upper, t.lower), (2, 2));
            assert_eq!(t.symbol.as_deref(), Some("cut"));
        }
        other => panic!("expected time signature, got {other:?}"),
    }
    match &events[7] {
        Event::Note(n) => assert_eq!(n.duration, 1),
        other => panic!("expected note, got {other:?}"),
    }
}

#[test]
fn inline_numeric_and_symbol_time_signatures() {
    let events = parse_music("3/4 c d e | C| f2 g | C a1", 4);
    assert_eq!(events.len(), 11);
    match &events[0] {
        Event::TimeSig(t) => {
            assert_eq!((t.upper, t.lower), (3, 4));
            assert!(t.symbol.is_none());
        }
        other => panic!("expected time signature, got {other:?}"),
    }
    match &events[5] {
        Event::TimeSig(t) => {
            assert_eq!((t.upper, t.lower), (2, 2));
            assert_eq!(t.symbol.as_deref(), Some("cut"));
        }
        other => panic!("expected time signature, got {other:?}"),
    }
    match &events[9] {
        Event::TimeSig(t) => {
            assert_eq!((t.upper, t.lower), (4, 4));
            assert_eq!(t.symbol.as_deref(), Some("common"));
        }
        other => panic!("expected time signature, got {other:?}"),
    }
    match &events[10] {
        Event::Note(n) => assert_eq!(n.duration, 1),
        other => panic!("expected note, got {other:?}"),
    }
}

#[test]
fn selection_color_reaches_content_but_not_barlines() {
    let events = parse_music("color{red:d4( e) | bass f}", 4);
    assert_eq!(events.len(), 5);
    match &events[0] {
        Event::Note(n) => {
            assert_eq!(n.colors.overall.as_deref(), Some("#ff0000"));
            assert_eq!(n.colors.slur.as_deref(), Some("#ff0000"));
            assert!(n.colors.tie.is_none());
            assert!(n.colors.noteheads.is_empty());
        }
        other => panic!("expected note, got {other:?}"),
    }
    match &events[2] {
        Event::Barline(b) => assert!(b.color.is_none()),
        other => panic!("expected barline, got {other:?}"),
    }
    match &events[3] {
        Event::Clef(c) => assert_eq!(c.color.as_deref(), Some("#ff0000")),
        other => panic!("expected clef change, got {other:?}"),
    }
}

#[test]
fn element_local_color_targets_the_part_written_last() {
    let events = parse_music("c4~color{blue} c4 d4(color{green} e) |color{red}", 4);
    match &events[0] {
        Event::Note(n) => {
            assert_eq!(n.colors.tie.as_deref(), Some("#0000ff"));
            assert!(n.colors.overall.is_none());
        }
        other => panic!("expected note, got {other:?}"),
    }
    match &events[2] {
        Event::Note(n) => {
            assert_eq!(n.colors.slur.as_deref(), Some("#00ff00"));
            assert!(n.colors.overall.is_none());
        }
        other => panic!("expected note, got {other:?}"),
    }
    match &events[4] {
        Event::Barline(b) => assert_eq!(b.color.as_deref(), Some("#ff0000")),
        other => panic!("expected barline, got {other:?}"),
    }
}

#[test]
fn nested_selection_colors_keep_the_innermost() {
    let events = parse_music("color{red:c color{blue:d} e}", 4);
    let overall: Vec<Option<&str>> = events
        .iter()
        .map(|e| match e {
            Event::Note(n) => n.colors.overall.as_deref(),
            _ => None,
        })
        .collect();
    assert_eq!(overall, vec![Some("#ff0000"), Some("#0000ff"), Some("#ff0000")]);
}

#[test]
fn spans_mark_their_first_and_last_elements() {
    let events = parse_music("cresc{| c d e} tr{f g} end{1.: a b\n|}", 4);
    let hairpin: Vec<(Option<&str>, bool, bool)> = events
        .iter()
        .filter_map(|e| match e {
            Event::Note(n) => Some((n.hairpin.as_deref(), n.hairpin_start, n.hairpin_end)),
            _ => None,
        })
        .collect();
    assert_eq!(
        hairpin,
        vec![
            (Some("cresc"), true, false),
            (Some("cresc"), false, false),
            (Some("cresc"), false, true),
            (None, false, false),
            (None, false, false),
            (None, false, false),
            (None, false, false),
        ]
    );
    match &events[0] {
        Event::Barline(b) => assert!(b.ending.is_none()),
        other => panic!("expected barline, got {other:?}"),
    }
    let trill: Vec<(bool, bool, bool)> = events
        .iter()
        .filter_map(|e| match e {
            Event::Note(n) if n.trill_line => Some((n.trill, n.trill_start, n.trill_end)),
            _ => None,
        })
        .collect();
    assert_eq!(trill, vec![(true, true, false), (true, false, true)]);
    let last = events.len() - 1;
    match &events[last] {
        Event::Barline(b) => {
            assert_eq!(b.ending.as_deref(), Some("1."));
            assert!(!b.ending_start);
            assert!(b.ending_end);
        }
        other => panic!("expected barline, got {other:?}"),
    }
    match &events[last - 3] {
        Event::Note(n) => {
            assert_eq!(n.name, "a");
            assert_eq!(n.ending.as_deref(), Some("1."));
            assert!(n.ending_start);
            assert!(!n.ending_end);
        }
        other => panic!("expected note, got {other:?}"),
    }
    assert!(matches!(events[last - 1], Event::LineBreak));
}

#[test]
fn tuplets_octave_lines_and_grace_groups_mark_their_notes() {
    let events = parse_music("{2,3:d8 e f} 8a{g a} grace{b c/} d4", 4);
    let tuplet: Vec<(i32, i32, i32, bool, bool)> = events[..3]
        .iter()
        .map(|e| match e {
            Event::Note(n) => (n.tuplet_beats, n.tuplet_number, n.tuplet_count, n.tuplet_start, n.tuplet_end),
            other => panic!("expected note, got {other:?}"),
        })
        .collect();
    assert_eq!(tuplet, vec![(2, 3, 3, true, false), (2, 3, 3, false, false), (2, 3, 3, false, true)]);
    let octave: Vec<(i32, Option<&str>, bool, bool)> = events
        .iter()
        .filter_map(|e| match e {
            Event::Note(n) if n.octave_line_number != 0 => Some((
                n.octave_line_number,
                n.octave_line_direction.as_deref(),
                n.octave_line_start,
                n.octave_line_end,
            )),
            _ => None,
        })
        .collect();
    assert_eq!(octave, vec![(8, Some("above"), true, false), (8, Some("above"), false, true)]);
    let grace: Vec<(bool, bool)> = events
        .iter()
        .filter_map(|e| match e {
            Event::Note(n) => Some((n.grace, n.grace_slash)),
            _ => None,
        })
        .collect();
    assert_eq!(
        grace,
        vec![(false, false), (false, false), (false, false), (false, false), (false, false), (true, true), (true, true), (false, false)]
    );
}

#[test]
fn marks_after_notes_rests_and_chords() {
    let events = parse_music("c4~ c8>( d*-) <e g>2_[ r4v[pp] f]", 4);
    assert_eq!(events.len(), 6);
    match &events[0] {
        Event::Note(n) => {
            assert!(n.tie);
            assert!(n.articulations.is_empty());
        }
        other => panic!("expected note, got {other:?}"),
    }
    match &events[1] {
        Event::Note(n) => {
            assert!(!n.tie);
            assert_eq!(n.articulations, vec!["accent".to_string()]);
            assert!(n.slur_start && !n.slur_end);
            assert_eq!(n.duration, 8);
        }
        other => panic!("expected note, got {other:?}"),
    }
    match &events[2] {
        Event::Note(n) => {
            assert_eq!(n.articulations, vec!["staccato".to_string(), "tenuto".to_string()]);
            assert!(n.slur_end);
        }
        other => panic!("expected note, got {other:?}"),
    }
    match &events[3] {
        Event::Chord(c) => {
            assert_eq!(c.articulations, vec!["fermata".to_string()]);
            assert!(c.beam_start);
            assert_eq!(c.duration, 2);
        }
        other => panic!("expected chord, got {other:?}"),
    }
    match &events[4] {
        Event::Rest(r) => assert_eq!(r.dynamic.as_deref(), Some("pp")),
        other => panic!("expected rest, got {other:?}"),
    }
    match &events[5] {
        Event::Note(n) => {
            assert!(n.beam_end);
            assert_eq!(n.duration, 4);
        }
        other => panic!("expected note, got {other:?}"),
    }
}

#[test]
fn text_attachments_after_notes() {
    let events = parse_music("c4l[Hel-] d4-l[lo] r4 text[Solo] e2tr exp[dolce] [Am7] n[3]", 4);
    assert_eq!(events.len(), 4);
    match &events[0] {
        Event::Note(n) => {
            assert_eq!(n.lyrics.len(), 1);
            assert_eq!(n.lyrics[0].text.as_deref(), Some("Hel"));
            assert_eq!(n.lyrics[0].continuation, "hyphen");
        }
        other => panic!("expected note, got {other:?}"),
    }
    match &events[1] {
        Event::Note(n) => {
            assert_eq!(n.articulations, vec!["tenuto".to_string()]);
            assert_eq!(n.lyrics[0].text.as_deref(), Some("lo"));
        }
        other => panic!("expected note, got {other:?}"),
    }
    match &events[2] {
        Event::Rest(r) => assert_eq!(r.staff_text.as_deref(), Some("Solo")),
        other => panic!("expected rest, got {other:?}"),
    }
    match &events[3] {
        Event::Note(n) => {
            assert!(n.trill);
            assert_eq!(n.expression_text.as_deref(), Some("dolce"));
            assert_eq!(n.chord_symbol.as_deref(), Some("Am7"));
            assert!(n.fingering.is_some());
            assert_eq!(n.fingering_position, "above");
        }
        other => panic!("expected note, got {other:?}"),
    }
}

#[test]
fn voice_groups_read_their_voices_with_the_octave_and_duration_in_force() {
    let events = parse_music("bass c2 v { c;c' e } d", 4);
    assert_eq!(events.len(), 4);
    match &events[2] {
        Event::VoiceGroup(vg) => {
            assert_eq!(vg.upper.len(), 1);
            assert_eq!(vg.lower.len(), 2);
            match &vg.upper[0] {
                Event::Note(n) => {
                    assert_eq!(n.octave, 3);
                    assert_eq!(n.duration, 2);
                }
                other => panic!("expected note, got {other:?}"),
            }
            match &vg.lower[0] {
                Event::Note(n) => assert_eq!(n.octave, 4),
                other => panic!("expected note, got {other:?}"),
            }
        }
        other => panic!("expected voice group, got {other:?}"),
    }
    match &events[3] {
        Event::Note(n) => {
            assert_eq!(n.duration, 2);
            assert_eq!(n.octave, 3);
        }
        other => panic!("expected note, got {other:?}"),
    }
}

#[test]
fn leading_and_trailing_newline_runs_give_no_line_breaks() {
    let events = parse_music("\nc4\n\n d4\n", 4);
    assert_eq!(events.len(), 3);
    match &events[0] {
        Event::Note(n) => {
            assert_eq!(n.name, "c");
            assert_eq!(n.duration, 4);
        }
        other => panic!("expected note, got {other:?}"),
    }
    assert!(matches!(events[1], Event::LineBreak));
    match &events[2] {
        Event::Note(n) => {
            assert_eq!(n.name, "d");
            assert_eq!(n.duration, 4);
        }
        other => panic!("expected note, got {other:?}"),
    }
}

#[test]
fn only_blank_lines_give_no_events() {
    assert!(parse_music(" \n\t\n\r\n ", 4).is_empty());
    assert!(parse_music("", 4).is_empty());
}

#[test]
fn spans_left_open_are_closed_at_the_end() {
    let events = parse_music("cresc{c4 d tr{e", 4);
    let marks: Vec<(Option<&str>, bool, bool, bool, bool, bool)> = events
        .iter()
        .map(|e| match e {
            Event::Note(n) => (
                n.hairpin.as_deref(),
                n.hairpin_start,
                n.hairpin_end,
                n.trill_line,
                n.trill_start,
                n.trill_end,
            ),
            other => panic!("expected note, got {other:?}"),
        })
        .collect();
    assert_eq!(
        marks,
        vec![
            (Some("cresc"), true, false, false, false, false),
            (Some("cresc"), false, false, false, false, false),
            (Some("cresc"), false, true, true, true, true),
        ]
    );
}

#[test]
fn endings_and_colours_left_open_are_closed_at_the_end() {
    let events = parse_music("end{2.: f4 color{red: g | a", 4);
    assert_eq!(events.len(), 4);
    let notes: Vec<(&str, Option<&str>, bool, bool, Option<&str>)> = events
        .iter()
        .filter_map(|e| match e {
            Event::Note(n) => Some((
                n.name.as_str(),
                n.ending.as_deref(),
                n.ending_start,
                n.ending_end,
                n.colors.overall.as_deref(),
            )),
            _ => None,
        })
        .collect();
    assert_eq!(
        notes,
        vec![
            ("f", Some("2."), true, false, None),
            ("g", Some("2."), false, false, Some("#ff0000")),
            ("a", Some("2."), false, true, Some("#ff0000")),
        ]
    );
    match &events[2] {
        Event::Barline(b) => {
            assert_eq!(b.ending.as_deref(), Some("2."));
            assert!(b.color.is_none());
        }
        other => panic!("expected barline, got {other:?}"),
    }
}

#[test]
fn cheat_sheet_marks_and_attachments() {
    let events = parse_music("c4>*-_~( dv[mf] e) text[Solo] f exp[dolce] g n_[2] a [Am7]", 4);
    assert_eq!(events.len(), 6);
    let notes: Vec<&scorify::types::Note> = events
        .iter()
        .map(|e| match e {
            Event::Note(n) => n,
            other => panic!("expected note, got {other:?}"),
        })
        .collect();
    assert_eq!(notes[0].name, "c");
    assert_eq!(notes[0].articulations, vec!["accent", "staccato", "tenuto", "fermata"]);
    assert!(notes[0].tie);
    assert!(notes[0].slur_start);
    assert_eq!(notes[1].dynamic.as_deref(), Some("mf"));
    assert!(notes[2].slur_end);
    assert_eq!(notes[2].staff_text.as_deref(), Some("Solo"));
    assert_eq!(notes[3].expression_text.as_deref(), Some("dolce"));
    assert!(matches!(notes[4].fingering, Some(scorify::types::Fingering::Single(2))));
    assert_eq!(notes[4].fingering_position, "below");
    assert_eq!(notes[5].chord_symbol.as_deref(), Some("Am7"));
}

#[test]
fn octave_lines_and_endings_in_one_string() {
    let events = parse_music("end{1.: c4 | d} 8a{e f}", 4);
    assert_eq!(events.len(), 5);
    assert!(matches!(events[1], Event::Barline(_)));
    let notes: Vec<(Option<&str>, bool, bool, i32, Option<&str>, bool, bool)> = events
        .iter()
        .filter_map(|e| match e {
            Event::Note(n) => Some((
                n.ending.as_deref(),
                n.ending_start,
                n.ending_end,
                n.octave_line_number,
                n.octave_line_direction.as_deref(),
                n.octave_line_start,
                n.octave_line_end,
            )),
            _ => None,
        })
        .collect();
    assert_eq!(
        notes,
        vec![
            (Some("1."), true, false, 0, None, false, false),
            (Some("1."), false, true, 0, None, false, false),
            (None, false, false, 8, Some("above"), true, false),
            (None, false, false, 8, Some("above"), false, true),
        ]
    );
}
