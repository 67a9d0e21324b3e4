use scorify::layout::{
    accidental_smufl, alternating_accidental_order, clef_id, clef_smufl_name,
    event_accidental_diatonics, event_has_accidental, event_note_diatonics,
    flagged_note_before_longer_accidental, gap_extra_space_units, has_line_breaks,
    is_boundary_event, is_empty_measure_whole_rest, is_rhythmic_event, mirror_breaks,
    needs_leading_accidental_space, note_cluster_needs_accidental_space,
    note_cluster_stem_needs_accidental_space, plain_note_pair, rest_smufl_name,
    split_at_line_breaks, split_into_measures, systems_by_measure_count,
};
use scorify::parser::parse_music;
use scorify::types::{Event, Gap};

fn events(music: &str) -> Vec<Event> {
    parse_music(music, 4)
}

fn kinds(evs: &[Event]) -> String {
    evs.iter()
        .map(|e| match e {
            Event::Note(n) => n.name.clone(),
            Event::Rest(_) => "r".to_string(),
            Event::Chord(_) => "ch".to_string(),
            Event::Barline(_) => "|".to_string(),
            Event::LineBreak => "/".to_string(),
            Event::Gap(_) => "_".to_string(),
            _ => "?".to_string(),
        })
        .collect::<Vec<_>>()
        .join(" ")
}

#[test]
fn glyph_names_for_clefs_rests_and_accidentals() {
    assert_eq!(clef_smufl_name("treble"), "gClef");
    assert_eq!(clef_smufl_name("tenor"), "cClef");
    assert_eq!(clef_smufl_name("treble8"), "gClef8vb");
    assert_eq!(clef_smufl_name("bass-15b"), "fClef15mb");
    assert_eq!(clef_smufl_name("percussion"), "unpitchedPercussionClef1");
    assert_eq!(clef_smufl_name("mezzo"), "gClef");
    assert_eq!(rest_smufl_name(-8), "restMaxima");
    assert_eq!(rest_smufl_name(-2), "restDoubleWhole");
    assert_eq!(rest_smufl_name(16), "rest16th");
    assert_eq!(rest_smufl_name(3), "restQuarter");
    assert_eq!(accidental_smufl(Some("double-flat")), Some("accidentalDoubleFlat"));
    assert_eq!(accidental_smufl(Some("sharp")), Some("accidentalSharp"));
    assert_eq!(accidental_smufl(Some("quarter-sharp")), None);
    assert_eq!(accidental_smufl(None), None);
}

#[test]
fn accidentals_are_ordered_from_the_outside_in() {
    assert_eq!(alternating_accidental_order(&[]), Vec::<usize>::new());
    assert_eq!(alternating_accidental_order(&[7]), vec![7]);
    assert_eq!(alternating_accidental_order(&[0, 1, 2, 3]), vec![0, 3, 1, 2]);
    assert_eq!(alternating_accidental_order(&[10, 11, 12, 13, 14]), vec![10, 14, 11, 13, 12]);
}

#[test]
fn clef_ids_pack_the_first_four_bytes() {
    assert_eq!(clef_id(""), 0);
    assert_eq!(clef_id("a"), 97);
    assert_eq!(clef_id("bass"), 0x7373_6162);
    assert_eq!(clef_id("treble"), clef_id("treb"));
}

#[test]
fn diatonic_positions_of_notes_and_chords() {
    let evs = events("<c e# g>4 f#4 g4");
    assert_eq!(event_note_diatonics(&evs[0]), vec![28, 30, 32]);
    assert_eq!(event_accidental_diatonics(&evs[0]), vec![30]);
    assert!(event_has_accidental(&evs[0]));
    assert_eq!(event_accidental_diatonics(&evs[1]), vec![31]);
    assert!(event_accidental_diatonics(&evs[2]).is_empty());
    assert!(!event_has_accidental(&evs[2]));
}

#[test]
fn accidental_collisions_need_leading_space() {
    let evs = events("f4 f#4 c2 a#4 r4 g#4");
    // same staff position
    assert!(note_cluster_needs_accidental_space(&evs[0], &evs[1]));
    assert!(needs_leading_accidental_space(&evs[0], &evs[1]));
    // a half-note stem below an accidental a sixth above on a shorter note
    assert!(note_cluster_stem_needs_accidental_space(&evs[2], &evs[3]));
    assert!(needs_leading_accidental_space(&evs[2], &evs[3]));
    // after a rest
    assert!(needs_leading_accidental_space(&evs[4], &evs[5]));
    // no accidental on the next event
    assert!(!needs_leading_accidental_space(&evs[1], &evs[2]));
    assert!(!plain_note_pair(&evs[0], Some(&evs[1])));
    assert!(plain_note_pair(&evs[1], Some(&evs[2])));
    assert!(!plain_note_pair(&evs[1], None));
}

#[test]
fn flagged_note_before_longer_accidental_note() {
    let evs = events("c8 d#4 e8 f4");
    assert!(flagged_note_before_longer_accidental(&evs[0], &evs[1]));
    assert!(!flagged_note_before_longer_accidental(&evs[2], &evs[3]));
}

#[test]
fn gaps_between_short_notes_give_one_unit_less() {
    let evs = events("c8 d e");
    let gap = Gap::new(2);
    assert_eq!(gap_extra_space_units(&gap, Some(&evs[0]), Some(&evs[1])), 1);
    assert_eq!(gap_extra_space_units(&gap, None, Some(&evs[1])), 2);
    let none = Gap::new(0);
    assert_eq!(gap_extra_space_units(&none, Some(&evs[0]), Some(&evs[1])), 0);
    let negative = Gap::new(-3);
    assert_eq!(gap_extra_space_units(&negative, None, None), 0);
}

#[test]
fn whole_rest_alone_in_a_measure() {
    let evs = events("| r1 | r1. | c4");
    assert!(is_empty_measure_whole_rest(&evs[1], Some(&evs[0]), Some(&evs[2])));
    assert!(is_empty_measure_whole_rest(&evs[1], None, None));
    assert!(!is_empty_measure_whole_rest(&evs[3], Some(&evs[2]), Some(&evs[4])));
    assert!(!is_empty_measure_whole_rest(&evs[1], Some(&evs[5]), None));
}

#[test]
fn rhythmic_and_boundary_events() {
    let evs = events("c4 | grace{d16} r4 s4");
    assert!(is_rhythmic_event(&evs[0]));
    assert!(!is_rhythmic_event(&evs[1]));
    assert!(is_boundary_event(&evs[1]));
    assert!(!is_rhythmic_event(&evs[2]));
    assert!(is_rhythmic_event(&evs[3]));
    assert!(is_rhythmic_event(&evs[4]));
    assert!(!is_boundary_event(&evs[0]));
}

#[test]
fn newlines_cut_systems_and_are_dropped() {
    let evs = events("c4 d\n\ne f\ng");
    assert!(has_line_breaks(&evs));
    let systems = split_at_line_breaks(evs);
    let shown: Vec<String> = systems.iter().map(|s| kinds(s)).collect();
    assert_eq!(shown, vec!["c d", "e f", "g"]);
    assert!(!has_line_breaks(&events("c4 d e")));
}

#[test]
fn measures_end_at_their_barlines() {
    let measures = split_into_measures(events("c4 d | e f | g"));
    let shown: Vec<String> = measures.iter().map(|m| kinds(m)).collect();
    assert_eq!(shown, vec!["c d |", "e f |", "g"]);
    assert!(split_into_measures(Vec::new()).is_empty());
}

#[test]
fn fixed_measures_per_line() {
    let systems = systems_by_measure_count(events("c4 | d | e | f | g"), 2);
    let shown: Vec<String> = systems.iter().map(|s| kinds(s)).collect();
    assert_eq!(shown, vec!["c | d |", "e | f |", "g"]);
    let empty = systems_by_measure_count(Vec::new(), 3);
    assert_eq!(empty.len(), 1);
    assert!(empty[0].is_empty());
}

#[test]
fn other_staves_follow_the_first_staff_breaks() {
    let mirrored = mirror_breaks(events("c4 | d | e | f | g"), &[2, 1, 1]);
    let shown: Vec<String> = mirrored.iter().map(|s| kinds(s)).collect();
    assert_eq!(shown, vec!["c | d |", "e |", "f | g"]);

    let leftover = mirror_breaks(events("c4 | d | e"), &[]);
    assert_eq!(leftover.len(), 1);
    assert_eq!(kinds(&leftover[0]), "c | d | e");

    assert!(mirror_breaks(Vec::new(), &[]).is_empty());
}

#[test]
fn alternating_order_keeps_every_entry() {
    let input = [3usize, 3, 1, 2, 9, 9, 0];
    let mut out = alternating_accidental_order(&input);
    assert_eq!(out, vec![3, 0, 3, 9, 1, 9, 2]);
    out.sort();
    let mut sorted = input.to_vec();
    sorted.sort();
    assert_eq!(out, sorted);
}

#[test]
fn mirrored_systems_stop_at_the_barline_completing_their_count() {
    let mirrored = mirror_breaks(events("c4 d | e f | g"), &[1, 1, 1]);
    let shown: Vec<String> = mirrored.iter().map(|s| kinds(s)).collect();
    assert_eq!(shown, vec!["c d |", "e f |", "g"]);

    let short = mirror_breaks(events("c4 | d"), &[3, 1]);
    assert_eq!(short.len(), 2);
    assert_eq!(kinds(&short[0]), "c | d");
    assert!(short[1].is_empty());
}
