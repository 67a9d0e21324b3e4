use scorify::parser::parse_music;
use scorify::score::{
    barline_count, first_staff_breaks, measure_counts, split_like_first_staff, FirstStaffBreaks,
    add_repeat_both_continuations, advance_lyric_states, build_staff_group_ranges,
    collect_staff_group_ranges, default_tuplet_style, has_overlapping_brace_and_bracket,
    has_per_staff_grouping, instrument_name_lines, leading_prefix_event_count,
    legacy_staff_group_kind, normalize_instrument_name, parse_time_sig, prepare_staff_systems,
    starts_with_repeat_start,
};
use scorify::types::{
    Barline, ClefChange, Event, LyricEntry, Note, StaffGroupKind, StaffGroupRange, StaffInput,
    TimeInfo, TimeSig,
};

fn clef(name: &str) -> Event {
    Event::Clef(ClefChange {
        clef: name.to_string(),
        ending: None,
        ending_start: false,
        ending_end: false,
        color: None,
    })
}

fn time_sig(upper: i32, lower: i32) -> Event {
    Event::TimeSig(TimeSig {
        upper,
        lower,
        symbol: None,
        ending: None,
        ending_start: false,
        ending_end: false,
        color: None,
    })
}

fn staff() -> StaffInput {
    StaffInput {
        clef: Some("treble".into()),
        music: "c4 | d4".into(),
        label: None,
        instrument_name: None,
        instrument_name_cont: None,
        instrument_name_shared: false,
        fingering_position: None,
        barline_group_start: false,
        barline_group_end: false,
        bracket_start: false,
        bracket_end: false,
        brace_start: false,
        brace_end: false,
        color: None,
        note_colors: None,
    }
}

fn barline(style: &str) -> Event {
    Event::Barline(Barline::new(style))
}

fn barline_style(e: &Event) -> Option<&str> {
    match e {
        Event::Barline(b) => Some(b.style.as_str()),
        _ => None,
    }
}

#[test]
fn inline_clef_changes_carry_to_following_system() {
    let systems = vec![
        vec![Event::Barline(Barline::new("single")), clef("treble")],
        vec![Event::Barline(Barline::new("single"))],
    ];

    let prepared = prepare_staff_systems(systems, Some("bass"), None, false);

    assert_eq!(prepared[0].clef.as_deref(), Some("bass"));
    assert_eq!(prepared[1].clef.as_deref(), Some("treble"));
}

#[test]
fn inline_time_signature_changes_carry_to_following_system() {
    let systems = vec![
        vec![Event::Barline(Barline::new("single")), time_sig(3, 4)],
        vec![Event::Barline(Barline::new("single"))],
    ];
    let initial_time = TimeInfo {
        upper: 4,
        lower: 4,
        symbol: None,
    };

    let prepared = prepare_staff_systems(systems, Some("treble"), Some(&initial_time), true);

    assert_eq!(
        prepared[0].time.as_ref().map(|t| (t.upper, t.lower)),
        Some((4, 4))
    );
    assert_eq!(
        prepared[1].time.as_ref().map(|t| (t.upper, t.lower)),
        Some((3, 4))
    );
    assert!(!prepared[1].show_time_prefix);
}

#[test]
fn legacy_staff_group_is_used_only_for_explicit_group_values() {
    let separate = vec![staff(), staff()];
    assert!(build_staff_group_ranges(&separate, "none").is_empty());

    let grand = vec![staff(), staff()];
    assert_eq!(
        build_staff_group_ranges(&grand, "grand"),
        vec![StaffGroupRange {
            start: 0,
            end: 1,
            kind: StaffGroupKind::Brace,
        }]
    );
}

#[test]
fn per_staff_grouping_overrides_legacy_staff_group() {
    let mut staves = vec![staff(), staff(), staff(), staff()];
    staves[1].bracket_start = true;
    staves[3].bracket_end = true;

    assert_eq!(
        build_staff_group_ranges(&staves, "grand"),
        vec![StaffGroupRange {
            start: 1,
            end: 3,
            kind: StaffGroupKind::Bracket,
        }]
    );
}

#[test]
fn single_staff_is_never_grouped() {
    assert!(build_staff_group_ranges(&[staff()], "grand").is_empty());
}

#[test]
fn legacy_group_names_map_to_kinds() {
    assert_eq!(legacy_staff_group_kind("grand"), Some(StaffGroupKind::Brace));
    assert_eq!(legacy_staff_group_kind("bracket"), Some(StaffGroupKind::Bracket));
    assert_eq!(legacy_staff_group_kind("barline"), Some(StaffGroupKind::Barline));
    assert_eq!(legacy_staff_group_kind("barlines"), Some(StaffGroupKind::Barline));
    assert_eq!(legacy_staff_group_kind("connected"), Some(StaffGroupKind::Barline));
    assert_eq!(legacy_staff_group_kind("none"), None);
}

#[test]
fn overlapping_bracket_and_brace_groups_are_both_kept() {
    let mut staves = vec![staff(), staff(), staff(), staff()];
    staves[0].bracket_start = true;
    staves[3].bracket_end = true;
    staves[1].brace_start = true;
    staves[2].brace_end = true;
    assert!(has_per_staff_grouping(&staves));
    let ranges = build_staff_group_ranges(&staves, "none");
    assert_eq!(
        ranges,
        vec![
            StaffGroupRange { start: 0, end: 3, kind: StaffGroupKind::Bracket },
            StaffGroupRange { start: 1, end: 2, kind: StaffGroupKind::Brace },
        ]
    );
    assert!(has_overlapping_brace_and_bracket(&ranges));
}

#[test]
fn a_later_group_start_replaces_an_open_one_and_one_staff_groups_are_dropped() {
    let mut staves = vec![staff(), staff(), staff(), staff()];
    staves[0].barline_group_start = true;
    staves[1].barline_group_start = true;
    staves[2].barline_group_end = true;
    staves[3].barline_group_start = true;
    staves[3].barline_group_end = true;
    assert_eq!(
        collect_staff_group_ranges(&staves, StaffGroupKind::Barline),
        vec![StaffGroupRange { start: 1, end: 2, kind: StaffGroupKind::Barline }]
    );
}

#[test]
fn separate_brace_and_bracket_do_not_overlap() {
    let ranges = vec![
        StaffGroupRange { start: 0, end: 1, kind: StaffGroupKind::Brace },
        StaffGroupRange { start: 2, end: 3, kind: StaffGroupKind::Bracket },
    ];
    assert!(!has_overlapping_brace_and_bracket(&ranges));
}

#[test]
fn time_signature_names_and_fractions() {
    let common = parse_time_sig(Some("C")).unwrap();
    assert_eq!((common.upper, common.lower, common.symbol.as_deref()), (4, 4, Some("common")));
    let cut = parse_time_sig(Some("cut")).unwrap();
    assert_eq!((cut.upper, cut.lower, cut.symbol.as_deref()), (2, 2, Some("cut")));
    let six_eight = parse_time_sig(Some(" 6 / 8 ")).unwrap();
    assert_eq!((six_eight.upper, six_eight.lower, six_eight.symbol.as_deref()), (6, 8, None));
    assert!(parse_time_sig(Some("4/4/4")).is_none());
    assert!(parse_time_sig(Some("four/4")).is_none());
    assert!(parse_time_sig(Some("44")).is_none());
    assert!(parse_time_sig(None).is_none());
}

#[test]
fn repeat_both_at_a_system_end_opens_the_next_system_with_a_repeat_start() {
    let systems = vec![
        vec![barline("single"), barline("repeat-both")],
        vec![clef("bass"), barline("single")],
        vec![barline("single")],
    ];
    let result = add_repeat_both_continuations(systems);
    assert_eq!(result.len(), 3);
    assert_eq!(result[1].len(), 3);
    assert!(matches!(result[1][0], Event::Clef(_)));
    assert_eq!(barline_style(&result[1][1]), Some("repeat-start"));
    assert_eq!(barline_style(&result[1][2]), Some("single"));
    assert_eq!(result[2].len(), 1);
}

#[test]
fn an_existing_repeat_start_is_not_doubled() {
    let events = vec![time_sig(3, 4), barline("repeat-start")];
    assert_eq!(leading_prefix_event_count(&events), 1);
    assert!(starts_with_repeat_start(&events));
    let systems = vec![vec![barline("repeat-both")], events];
    let result = add_repeat_both_continuations(systems);
    assert_eq!(result[1].len(), 2);
}

#[test]
fn lyric_states_carry_continue_and_end() {
    let mut note = Note::new("c", 4);
    note.lyrics = vec![
        LyricEntry { text: Some("la".into()), carry: false, continuation: "hyphen".into() },
        LyricEntry { text: None, carry: true, continuation: "none".into() },
    ];
    let states = vec![Some("extender".to_string()), Some("hyphen".to_string())];
    let next = advance_lyric_states(&states, &Event::Note(note));
    assert_eq!(next, vec![Some("hyphen".to_string()), Some("hyphen".to_string())]);

    let mut plain = Note::new("d", 4);
    plain.lyrics = vec![LyricEntry { text: Some("la".into()), carry: false, continuation: "none".into() }];
    let ended = advance_lyric_states(&next, &Event::Note(plain));
    assert!(ended.is_empty());

    let kept = advance_lyric_states(&next, &barline("single"));
    assert_eq!(kept, next);
}

#[test]
fn instrument_names_are_normalized_and_split() {
    assert_eq!(normalize_instrument_name("B& Clarinet #="), "B\u{266d} Clarinet \u{266f}\u{266e}");
    assert_eq!(instrument_name_lines("  Violin  "), vec!["Violin".to_string()]);
    assert_eq!(
        instrument_name_lines("Clarinet in B&"),
        vec!["Clarinet".to_string(), "in B\u{266d}".to_string()]
    );
    assert_eq!(
        instrument_name_lines("Alto Saxophone Solo"),
        vec!["Alto Saxophone".to_string(), "Solo".to_string()]
    );
    assert_eq!(
        instrument_name_lines("Contrabassoonists"),
        vec!["Contrabassoonists".to_string()]
    );
    assert!(instrument_name_lines("   ").is_empty());
}

#[test]
fn tuplet_style_defaults_to_bracket() {
    assert_eq!(default_tuplet_style(), "bracket");
}

fn shape(systems: &[Vec<Event>]) -> Vec<Vec<String>> {
    systems
        .iter()
        .map(|s| {
            s.iter()
                .map(|e| match e {
                    Event::Barline(b) => format!("|{}", b.style),
                    Event::Clef(c) => format!("clef {}", c.clef),
                    Event::Note(n) => n.name.clone(),
                    Event::LineBreak => "/".to_string(),
                    _ => "?".to_string(),
                })
                .collect()
        })
        .collect()
}

#[test]
fn repeat_continuations_are_added_once() {
    let make = || {
        vec![
            vec![barline("repeat-both")],
            vec![clef("bass"), barline("single")],
            vec![],
        ]
    };
    let once = add_repeat_both_continuations(make());
    let once_shape = shape(&once);
    let twice = add_repeat_both_continuations(once);
    assert_eq!(shape(&twice), once_shape);
    assert_eq!(once_shape[1], vec!["clef bass", "|repeat-start", "|single"]);
    assert!(once_shape[2].is_empty());
}

#[test]
fn other_staves_follow_the_first_staff() {
    let first = parse_music("c4 | d | e | f", 4);
    let systems = match first_staff_breaks(first, Some(2), false) {
        FirstStaffBreaks::Decided(s) => s,
        FirstStaffBreaks::ByWidth(_) => panic!("expected a decided break"),
    };
    let counts = measure_counts(&systems);
    assert_eq!(counts, vec![2, 1]);
    assert_eq!(barline_count(&systems[0]), 2);
    let other = split_like_first_staff(false, parse_music("g4 | a | b | c", 4), &counts);
    assert_eq!(shape(&other), vec![vec!["g", "|single", "a", "|single"], vec!["b", "|single", "c"]]);

    let own_breaks = split_like_first_staff(true, parse_music("g4\na | b", 4), &counts);
    assert_eq!(shape(&own_breaks), vec![vec!["g"], vec!["a", "|single", "b"]]);
}

#[test]
fn first_staff_breaking_choices() {
    match first_staff_breaks(parse_music("c4 | d\ne", 4), Some(1), true) {
        FirstStaffBreaks::Decided(s) => assert_eq!(shape(&s), vec![vec!["c", "|single", "d"], vec!["e"]]),
        FirstStaffBreaks::ByWidth(_) => panic!("line breaks decide"),
    }
    match first_staff_breaks(parse_music("c4 | d", 4), None, true) {
        FirstStaffBreaks::ByWidth(e) => assert_eq!(e.len(), 3),
        FirstStaffBreaks::Decided(_) => panic!("width decides"),
    }
    match first_staff_breaks(parse_music("c4 | d", 4), Some(0), true) {
        FirstStaffBreaks::Decided(s) => assert_eq!(shape(&s), vec![vec!["c", "|single", "d"]]),
        FirstStaffBreaks::ByWidth(_) => panic!("a count below one keeps one system"),
    }
    match first_staff_breaks(Vec::new(), None, false) {
        FirstStaffBreaks::Decided(s) => {
            assert_eq!(s.len(), 1);
            assert!(s[0].is_empty());
        }
        FirstStaffBreaks::ByWidth(_) => panic!("no width known"),
    }
}
