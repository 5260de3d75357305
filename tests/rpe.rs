use prpr::anim::Anim;
use prpr::chart::{JudgeLineKind, NoteKind};
use prpr::rpe::{
    parse_events, parse_notes, parse_rpe, parse_speed_events, ChartErrorKind, RpeBpmItem, RpeChart, RpeColorEvent,
    RpeEvent, RpeEventLayer, RpeExtendedEvents, RpeJudgeLine, RpeNote, RpeSpeedEvent, RpeTextEvent,
};
use prpr::tempo::{BpmList, Triple};

const U: i64 = 1_000_000;
const S: i64 = 1_000_000_000;

fn t(b: i32) -> Triple {
    Triple(b, 0, 1)
}

fn note(kind: u8, start: i32, end: i32) -> RpeNote {
    RpeNote {
        kind,
        above: 1,
        start_time: t(start),
        end_time: t(end),
        position_x: 675 * U,
        y_offset: 0,
        alpha: 255,
        size: U,
        speed: U,
        is_fake: 0,
        visible_time: 999_999 * S,
    }
}

fn event(start: i32, end: i32, from: i64, to: i64, easing: u8) -> RpeEvent {
    RpeEvent {
        easing_left: 0,
        easing_right: U,
        easing_type: easing,
        start: from,
        end: to,
        start_time: t(start),
        end_time: t(end),
    }
}

fn speed_layer(speed: i64, end: i32) -> RpeEventLayer {
    RpeEventLayer {
        alpha_events: None,
        move_x_events: None,
        move_y_events: None,
        rotate_events: None,
        speed_events: Some(vec![RpeSpeedEvent { start_time: t(0), end_time: t(end), start: speed, end: speed }]),
    }
}

fn line(name: &str, notes: Vec<RpeNote>) -> RpeJudgeLine {
    RpeJudgeLine {
        name: name.to_string(),
        texture: "line.png".to_string(),
        parent: None,
        event_layers: vec![Some(speed_layer(10 * U, 8)), None],
        extended: None,
        notes: Some(notes),
        is_cover: 1,
    }
}

fn chart(lines: Vec<RpeJudgeLine>) -> RpeChart {
    RpeChart { offset: -250, bpm_list: vec![RpeBpmItem { bpm: 120 * U, start_time: t(0) }], judge_line_list: lines }
}

#[test]
fn unknown_note_kind_is_named() {
    let mut r = BpmList::new(vec![(0, 120 * U)]);
    let mut h: Anim<i64> = Anim::empty();
    let res = parse_notes(&mut r, &vec![note(1, 0, 0), note(5, 1, 1)], &mut h);
    assert!(matches!(res, Err(ChartErrorKind::UnknownNoteKind(5))));
}

#[test]
fn unknown_note_kind_fails_whole_chart() {
    let c = chart(vec![line("first", vec![note(1, 1, 1)]), line("second", vec![note(5, 2, 2)])]);
    match parse_rpe(&c, &vec![]) {
        Err(e) => {
            assert_eq!(e.line, Some(1));
            assert_eq!(e.line_name, "second");
            assert!(matches!(e.kind, ChartErrorKind::UnknownNoteKind(5)));
        }
        Ok(_) => panic!("chart with an unknown note kind assembled"),
    }
}

#[test]
fn notes_get_time_and_height() {
    let c = chart(vec![line("a", vec![note(1, 2, 2), note(2, 4, 6), note(3, 1, 1), note(4, 3, 3)])]);
    let chart = parse_rpe(&c, &vec![]).ok().unwrap();
    assert_eq!(chart.offset, -250_000_000);
    let notes = &chart.lines[0].notes;
    assert_eq!(notes.len(), 4);
    assert_eq!(notes[0].time, S);
    assert_eq!(notes[0].kind, NoteKind::Click);
    // speed 10 scaled by (10 / 45) / 0.83175 for one second
    let per_second = 10 * U * 1_000_000 / 3_742_875;
    assert_eq!(notes[0].height, per_second);
    assert_eq!(notes[1].kind, NoteKind::Hold { end_time: 3 * S, end_height: 3 * per_second });
    assert_eq!(notes[2].kind, NoteKind::Flick);
    assert_eq!(notes[3].kind, NoteKind::Drag);
    assert!(notes[0].above);
    assert!(!notes[0].fake);
    assert!(!chart.lines[0].show_below);
}

#[test]
fn layered_events_are_pooled() {
    let mut l = line("a", vec![]);
    l.event_layers = vec![
        Some(RpeEventLayer {
            alpha_events: Some(vec![event(0, 2, 0, 255 * U, 1)]),
            move_x_events: Some(vec![event(0, 2, 0, 675 * U, 1)]),
            move_y_events: None,
            rotate_events: Some(vec![event(0, 2, 0, 90 * U, 1)]),
            speed_events: None,
        }),
        Some(RpeEventLayer {
            alpha_events: Some(vec![event(4, 6, 255 * U, 0, 1)]),
            move_x_events: None,
            move_y_events: Some(vec![event(0, 2, 0, 450 * U, 1)]),
            rotate_events: None,
            speed_events: None,
        }),
    ];
    let mut c = parse_rpe(&chart(vec![l]), &vec![]).ok().unwrap();
    let obj = &mut c.lines[0].object;
    assert_eq!(obj.alpha.keyframes.len(), 4);
    assert_eq!(obj.alpha.sample(S / 2), U / 2);
    assert_eq!(obj.translation.0.sample(S), U);
    assert_eq!(obj.translation.1.sample(S), U);
    assert_eq!(obj.rotation.sample(S), -90 * U);
    assert_eq!(c.lines[0].height.keyframes.len(), 0);
}

#[test]
fn unsupported_easing_is_reported() {
    let mut r = BpmList::new(vec![(0, 120 * U)]);
    let res = parse_events(&mut r, &vec![event(0, 1, 0, U, 2)]);
    assert!(matches!(res, Err(ChartErrorKind::UnsupportedEventShape(2))));
}

#[test]
fn missing_texture_fails_and_present_texture_is_used() {
    let mut l = line("tex", vec![]);
    l.texture = "cat.png".to_string();
    let c = chart(vec![l]);
    match parse_rpe(&c, &vec![]) {
        Err(e) => match e.kind {
            ChartErrorKind::MissingOrUnreadableTexture(name) => assert_eq!(name, "cat.png"),
            _ => panic!("wrong error"),
        },
        Ok(_) => panic!("missing texture accepted"),
    }
    let ok = parse_rpe(&c, &vec!["cat.png".to_string()]).ok().unwrap();
    assert!(matches!(&ok.lines[0].kind, JudgeLineKind::Texture(n) if n == "cat.png"));
}

#[test]
fn text_and_colour_events() {
    let mut l = line("t", vec![]);
    l.extended = Some(RpeExtendedEvents {
        color_events: Some(vec![RpeColorEvent { color: (10, 20, 30), start_time: t(2), end_time: t(3) }]),
        text_events: Some(vec![RpeTextEvent { text: "hi".to_string(), start_time: t(2), end_time: t(3) }]),
        scale_x_events: None,
        scale_y_events: None,
    });
    let mut c = parse_rpe(&chart(vec![l]), &vec![]).ok().unwrap();
    let line = &mut c.lines[0];
    assert_eq!(line.color.keyframes.len(), 2);
    assert_eq!(line.color.sample(0).r, 255);
    assert_eq!(line.color.sample(2 * S).g, 20);
    match &mut line.kind {
        JudgeLineKind::Text(a) => {
            assert_eq!(a.sample(0), "");
            assert_eq!(a.sample(S), "hi");
        }
        _ => panic!("not a text line"),
    }
}

#[test]
fn parent_cycle_is_rejected() {
    let mut a = line("a", vec![]);
    let mut b = line("b", vec![]);
    a.parent = Some(1);
    b.parent = Some(0);
    match parse_rpe(&chart(vec![a, b]), &vec![]) {
        Err(e) => assert!(matches!(e.kind, ChartErrorKind::ParentCycle)),
        Ok(_) => panic!("cycle accepted"),
    }
}

#[test]
fn parents_are_kept() {
    let a = line("a", vec![]);
    let mut b = line("b", vec![]);
    b.parent = Some(0);
    let mut c = line("c", vec![]);
    c.parent = Some(-1);
    let ch = parse_rpe(&chart(vec![a, b, c]), &vec![]).ok().unwrap();
    assert_eq!(ch.lines[0].parent, None);
    assert_eq!(ch.lines[1].parent, Some(0));
    assert_eq!(ch.lines[2].parent, None);
}

#[test]
fn bad_parent_index_is_malformed() {
    let mut a = line("a", vec![]);
    a.parent = Some(3);
    match parse_rpe(&chart(vec![a]), &vec![]) {
        Err(e) => assert!(matches!(e.kind, ChartErrorKind::MalformedDocument)),
        Ok(_) => panic!("bad parent accepted"),
    }
}

#[test]
fn empty_or_unsorted_tempo_list_is_malformed() {
    let mut c = chart(vec![]);
    c.bpm_list.clear();
    assert!(matches!(parse_rpe(&c, &vec![]).err().unwrap().kind, ChartErrorKind::MalformedDocument));
    let mut c = chart(vec![]);
    c.bpm_list = vec![RpeBpmItem { bpm: 120 * U, start_time: t(4) }, RpeBpmItem { bpm: 60 * U, start_time: t(0) }];
    assert!(matches!(parse_rpe(&c, &vec![]).err().unwrap().kind, ChartErrorKind::MalformedDocument));
}

#[test]
fn zero_denominator_is_out_of_range() {
    let mut n = note(1, 1, 1);
    n.start_time = Triple(1, 1, 0);
    let c = chart(vec![line("z", vec![n])]);
    assert!(matches!(parse_rpe(&c, &vec![]).err().unwrap().kind, ChartErrorKind::ValueOutOfRange));
}

#[test]
fn late_note_gets_fade_in_alpha() {
    let mut n = note(1, 4, 4);
    n.visible_time = S / 2;
    n.alpha = 300;
    let c = chart(vec![line("f", vec![n])]);
    let mut ch = parse_rpe(&c, &vec![]).ok().unwrap();
    let alpha = &mut ch.lines[0].notes[0].object.alpha;
    assert_eq!(alpha.sample(0), 0);
    assert_eq!(alpha.sample(2 * S), U);
}

#[test]
fn scale_events_depend_on_texture() {
    let scale = || RpeExtendedEvents {
        color_events: None,
        text_events: None,
        scale_x_events: Some(vec![event(0, 2, 1350 * U, 1350 * U, 1)]),
        scale_y_events: None,
    };
    let mut plain = line("p", vec![]);
    plain.extended = Some(scale());
    let mut textured = line("t", vec![]);
    textured.texture = "bg.png".to_string();
    textured.extended = Some(scale());
    let mut c = parse_rpe(&chart(vec![plain, textured]), &vec!["bg.png".to_string()]).ok().unwrap();
    assert_eq!(c.lines[0].object.scale.0.sample(S), 1350 * U);
    assert_eq!(c.lines[1].object.scale.0.sample(S), 2 * U);
    assert_eq!(c.lines[1].object.scale.1.keyframes.len(), 0);
}

#[test]
fn overshoot_and_bounce_easings_are_accepted() {
    let mut r = BpmList::new(vec![(0, 120 * U)]);
    for code in [18u8, 19, 20, 21, 22, 23, 26, 27, 28] {
        let mut a = parse_events(&mut r, &vec![event(0, 2, 0, U, code)]).ok().unwrap();
        assert_eq!(a.sample(S), U, "code {code} does not end at its end value");
    }
    let mut a = parse_events(&mut r, &vec![event(0, 2, 0, U, 20)]).ok().unwrap();
    assert_eq!(a.sample(S / 2), 1_087_697);
}

#[test]
fn speed_events_integrate_to_height() {
    let mut r = BpmList::new(vec![(0, 120 * U)]);
    // 2.0 after scaling by (10 / 45) / 0.83175
    let layers = vec![Some(speed_layer(7_485_750, 6))];
    let mut h = parse_speed_events(&mut r, &layers, 3 * S).ok().unwrap();
    assert_eq!(h.sample(3 * S), 6 * U);
    assert_eq!(h.sample(3 * S / 2), 3 * U);
    assert_eq!(h.sample(0), 0);
    let none: Vec<Option<RpeEventLayer>> = vec![None];
    assert_eq!(parse_speed_events(&mut r, &none, 3 * S).ok().unwrap().keyframes.len(), 0);
}
