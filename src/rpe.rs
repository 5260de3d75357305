//! Assembly of a chart from its authoring format: tempo list, line
//! descriptors with layered events, and notes.
//!
//! Every number arrives in fixed point: values, sizes and speeds in
//! millionths, tempos in millionths of a beat per minute, visibility spans in
//! nanoseconds, the music offset in milliseconds.
use vstd::prelude::*;
use vstd::string::StrSliceExecFns;
use crate::anim::{stable_sort, Anim, Color, Keyframe, Tweenable, MAX_VALUE};
use crate::chart::{Chart, JudgeLine, JudgeLineKind, Note, NoteKind, Object};
use crate::fixed::floor_div;
use crate::speed::{heights_over, lemma_sample_bound, speed_at};
use crate::tempo::{BpmList, Triple, MAX_BEATS, MAX_BPM, MAX_TIME, MIN_BPM, SECOND};
use crate::tween::{range_tween, Ease, Power, Shape, Tween, MAX_RANGE, UNIT};

verus! {

/// An authored tempo change.
pub struct RpeBpmItem {
    pub bpm: i64,
    pub start_time: Triple,
}

/// An authored value event: a move from `start` to `end` between two beat
/// positions, eased by curve `easing_type` over `[easing_left, easing_right]`.
pub struct RpeEvent {
    pub easing_left: i64,
    pub easing_right: i64,
    pub easing_type: u8,
    pub start: i64,
    pub end: i64,
    pub start_time: Triple,
    pub end_time: Triple,
}

/// An authored speed event: a linear speed ramp between two beat positions.
pub struct RpeSpeedEvent {
    pub start_time: Triple,
    pub end_time: Triple,
    pub start: i64,
    pub end: i64,
}

/// One layer of events of a line; a line's layers add up.
pub struct RpeEventLayer {
    pub alpha_events: Option<Vec<RpeEvent>>,
    pub move_x_events: Option<Vec<RpeEvent>>,
    pub move_y_events: Option<Vec<RpeEvent>>,
    pub rotate_events: Option<Vec<RpeEvent>>,
    pub speed_events: Option<Vec<RpeSpeedEvent>>,
}

/// An authored text change.
pub struct RpeTextEvent {
    pub text: String,
    pub start_time: Triple,
    pub end_time: Triple,
}

/// An authored colour change.
pub struct RpeColorEvent {
    pub color: (u8, u8, u8),
    pub start_time: Triple,
    pub end_time: Triple,
}

/// Events beyond the basic layers.
pub struct RpeExtendedEvents {
    pub color_events: Option<Vec<RpeColorEvent>>,
    pub text_events: Option<Vec<RpeTextEvent>>,
    pub scale_x_events: Option<Vec<RpeEvent>>,
    pub scale_y_events: Option<Vec<RpeEvent>>,
}

/// An authored note.
pub struct RpeNote {
    pub kind: u8,
    pub above: u8,
    pub start_time: Triple,
    pub end_time: Triple,
    pub position_x: i64,
    pub y_offset: i64,
    pub alpha: u16,
    pub size: i64,
    pub speed: i64,
    pub is_fake: u8,
    pub visible_time: i64,
}

/// An authored judge line.
pub struct RpeJudgeLine {
    pub name: String,
    pub texture: String,
    pub parent: Option<i64>,
    pub event_layers: Vec<Option<RpeEventLayer>>,
    pub extended: Option<RpeExtendedEvents>,
    pub notes: Option<Vec<RpeNote>>,
    pub is_cover: u8,
}

/// An authored chart.
pub struct RpeChart {
    pub offset: i32,
    pub bpm_list: Vec<RpeBpmItem>,
    pub judge_line_list: Vec<RpeJudgeLine>,
}

/// What went wrong in assembling a chart.
pub enum ChartErrorKind {
    /// The document's structure is unusable (no tempo, tempos out of order,
    /// a parent index that names no line).
    MalformedDocument,
    /// A number lies beyond what the fixed-point model holds.
    ValueOutOfRange,
    /// A note kind code other than 1 to 4.
    UnknownNoteKind(u8),
    /// A texture that could not be had.
    MissingOrUnreadableTexture(String),
    /// An easing code whose curve the catalog lacks.
    UnsupportedEventShape(u8),
    /// Following parents from a line comes back to it.
    ParentCycle,
}

/// An assembly failure, with the line it happened in, if any.
pub struct ChartError {
    pub line: Option<usize>,
    pub line_name: String,
    pub kind: ChartErrorKind,
}

/// The catalog curve of an authoring easing code, if the catalog has it.
/// The sine, exponential and elastic curves (codes 2, 3, 6, 16, 17, 24, 25
/// and 29) need transcendental functions and are not in the catalog.
pub open spec fn rpe_ease(code: u8) -> Option<Ease> {
    if code == 0 || code == 1 {
        Some(Ease::Linear)
    } else if code == 4 {
        Some(Ease::Out(Power::Quad))
    } else if code == 5 {
        Some(Ease::In(Power::Quad))
    } else if code == 7 {
        Some(Ease::InOut(Power::Quad))
    } else if code == 8 {
        Some(Ease::Out(Power::Cubic))
    } else if code == 9 {
        Some(Ease::In(Power::Cubic))
    } else if code == 10 {
        Some(Ease::Out(Power::Quart))
    } else if code == 11 {
        Some(Ease::In(Power::Quart))
    } else if code == 12 {
        Some(Ease::InOut(Power::Cubic))
    } else if code == 13 {
        Some(Ease::InOut(Power::Quart))
    } else if code == 14 {
        Some(Ease::Out(Power::Quint))
    } else if code == 15 {
        Some(Ease::In(Power::Quint))
    } else if code == 18 {
        Some(Ease::Circ(Shape::Out))
    } else if code == 19 {
        Some(Ease::Circ(Shape::In))
    } else if code == 20 {
        Some(Ease::Back(Shape::Out))
    } else if code == 21 {
        Some(Ease::Back(Shape::In))
    } else if code == 22 {
        Some(Ease::Circ(Shape::InOut))
    } else if code == 23 {
        Some(Ease::Back(Shape::InOut))
    } else if code == 26 {
        Some(Ease::Bounce(Shape::Out))
    } else if code == 27 {
        Some(Ease::Bounce(Shape::In))
    } else if code == 28 {
        Some(Ease::Bounce(Shape::InOut))
    } else {
        None
    }
}

/// `rpe_ease` computed.
pub fn ease_of_code(code: u8) -> (r: Option<Ease>)
    ensures
        r == rpe_ease(code),
{
    match code {
        0 | 1 => Some(Ease::Linear),
        4 => Some(Ease::Out(Power::Quad)),
        5 => Some(Ease::In(Power::Quad)),
        7 => Some(Ease::InOut(Power::Quad)),
        8 => Some(Ease::Out(Power::Cubic)),
        9 => Some(Ease::In(Power::Cubic)),
        10 => Some(Ease::Out(Power::Quart)),
        11 => Some(Ease::In(Power::Quart)),
        12 => Some(Ease::InOut(Power::Cubic)),
        13 => Some(Ease::InOut(Power::Quart)),
        14 => Some(Ease::Out(Power::Quint)),
        15 => Some(Ease::In(Power::Quint)),
        18 => Some(Ease::Circ(Shape::Out)),
        19 => Some(Ease::Circ(Shape::In)),
        20 => Some(Ease::Back(Shape::Out)),
        21 => Some(Ease::Back(Shape::In)),
        22 => Some(Ease::Circ(Shape::InOut)),
        23 => Some(Ease::Back(Shape::InOut)),
        26 => Some(Ease::Bounce(Shape::Out)),
        27 => Some(Ease::Bounce(Shape::In)),
        28 => Some(Ease::Bounce(Shape::InOut)),
        _ => None,
    }
}

/// A beat position the tempo map can convert.
pub open spec fn triple_ok(t: Triple) -> bool {
    t.2 > 0 && -MAX_BEATS <= t.spec_beats() <= MAX_BEATS
}

/// `triple_ok` computed.
pub fn check_triple(t: &Triple) -> (r: bool)
    ensures
        r == triple_ok(*t),
{
    if t.2 == 0 {
        return false;
    }
    let b = t.beats();
    -MAX_BEATS <= b && b <= MAX_BEATS
}

/// A keyframe value within bounds.
pub open spec fn value_ok(v: i64) -> bool {
    -MAX_VALUE <= v <= MAX_VALUE
}

/// An event whose numbers the model holds.
pub open spec fn event_ok(e: RpeEvent) -> bool {
    &&& triple_ok(e.start_time)
    &&& triple_ok(e.end_time)
    &&& value_ok(e.start)
    &&& value_ok(e.end)
    &&& -MAX_RANGE <= e.easing_left <= MAX_RANGE
    &&& -MAX_RANGE <= e.easing_right <= MAX_RANGE
}

/// The keyframe an event starts with: its start value at its start time,
/// eased toward the next keyframe by its curve over its sub-range.
pub open spec fn start_frame(m: BpmList, e: RpeEvent) -> Keyframe<i64> {
    Keyframe {
        time: m.time_of(e.start_time.spec_beats()) as i64,
        value: e.start,
        tween: range_tween(rpe_ease(e.easing_type).unwrap(), e.easing_left, e.easing_right),
    }
}

/// The keyframe an event ends with: its end value at its end time, held.
pub open spec fn end_frame(m: BpmList, e: RpeEvent) -> Keyframe<i64> {
    Keyframe {
        time: m.time_of(e.end_time.spec_beats()) as i64,
        value: e.end,
        tween: Tween::Plain(Ease::Hold),
    }
}

/// The keyframes of a list of events, two per event, in list order.
pub open spec fn event_frames(m: BpmList, evs: Seq<RpeEvent>) -> Seq<Keyframe<i64>>
    decreases evs.len(),
{
    if evs.len() == 0 {
        Seq::empty()
    } else {
        event_frames(m, evs.drop_last()) + seq![start_frame(m, evs.last()), end_frame(m, evs.last())]
    }
}

/// The events are all within bounds and of supported curves.
pub open spec fn events_ok(evs: Seq<RpeEvent>) -> bool {
    forall|i: int| 0 <= i < evs.len() ==> event_ok(#[trigger] evs[i]) && rpe_ease(evs[i].easing_type) is Some
}

/// The error a list of events gives, if any: among events out of bounds or of
/// an unsupported curve, the first decides.
pub open spec fn events_error(evs: Seq<RpeEvent>) -> Option<ChartErrorKind>
    decreases evs.len(),
{
    if evs.len() == 0 {
        None
    } else {
        match events_error(evs.drop_last()) {
            Some(k) => Some(k),
            None => {
                let e = evs.last();
                if !event_ok(e) {
                    Some(ChartErrorKind::ValueOutOfRange)
                } else if rpe_ease(e.easing_type) is None {
                    Some(ChartErrorKind::UnsupportedEventShape(e.easing_type))
                } else {
                    None
                }
            }
        }
    }
}

/// `events_error` is `None` exactly when all events are usable.
proof fn lemma_events_error_none(evs: Seq<RpeEvent>)
    ensures
        events_error(evs) is None <==> events_ok(evs),
    decreases evs.len(),
{
    if evs.len() > 0 {
        lemma_events_error_none(evs.drop_last());
        assert(evs.drop_last().len() == evs.len() - 1);
        if events_ok(evs) {
            assert(events_ok(evs.drop_last())) by {
                assert forall|i: int| 0 <= i < evs.drop_last().len() implies event_ok(
                    #[trigger] evs.drop_last()[i],
                ) && rpe_ease(evs.drop_last()[i].easing_type) is Some by {
                    assert(evs.drop_last()[i] == evs[i]);
                }
            }
            assert(event_ok(evs[evs.len() - 1]));
        }
        if events_error(evs) is None {
            assert forall|i: int| 0 <= i < evs.len() implies event_ok(#[trigger] evs[i])
                && rpe_ease(evs[i].easing_type) is Some by {
                if i < evs.len() - 1 {
                    assert(evs.drop_last()[i] == evs[i]);
                }
            }
        }
    }
}

/// Turns one line's events for one property into a timeline of their
/// keyframes in time order.
pub fn parse_events(r: &mut BpmList, rpe: &Vec<RpeEvent>) -> (res: Result<Anim<i64>, ChartErrorKind>)
    requires
        old(r).wf(),
    ensures
        final(r).wf(),
        final(r).elements@ == old(r).elements@,
        res is Err <==> events_error(rpe@) is Some,
        res matches Err(k) ==> events_error(rpe@) == Some(k),
        res matches Ok(a) ==> a.wf() && a.keyframes@ == stable_sort(event_frames(*old(r), rpe@))
            && a.keyframes@.to_multiset() == event_frames(*old(r), rpe@).to_multiset(),
{
    let ghost m = *r;
    let mut kfs: Vec<Keyframe<i64>> = Vec::new();
    let mut i: usize = 0;
    while i < rpe.len()
        invariant
            r.wf(),
            r.elements@ == m.elements@,
            m == *old(r),
            i <= rpe@.len(),
            events_error(rpe@.take(i as int)) is None,
            kfs@ == event_frames(m, rpe@.take(i as int)),
            forall|j: int|
                0 <= j < kfs@.len() ==> {
                    &&& -MAX_TIME <= #[trigger] kfs@[j].time <= MAX_TIME
                    &&& kfs@[j].value.fits()
                    &&& kfs@[j].tween.wf()
                },
        decreases rpe@.len() - i,
    {
        let e = &rpe[i];
        proof {
            assert(rpe@.take(i + 1).drop_last() =~= rpe@.take(i as int));
            assert(rpe@.take(i + 1).last() == rpe@[i as int]);
        }
        if !check_triple(&e.start_time) || !check_triple(&e.end_time) || e.start < -MAX_VALUE
            || e.start > MAX_VALUE || e.end < -MAX_VALUE || e.end > MAX_VALUE || e.easing_left
            < -MAX_RANGE || e.easing_left > MAX_RANGE || e.easing_right < -MAX_RANGE
            || e.easing_right > MAX_RANGE {
            proof {
                lemma_error_persists(rpe@, i as int + 1);
            }
            return Err(ChartErrorKind::ValueOutOfRange);
        }
        let ease = match ease_of_code(e.easing_type) {
            Some(x) => x,
            None => {
                proof {
                    lemma_error_persists(rpe@, i as int + 1);
                }
                return Err(ChartErrorKind::UnsupportedEventShape(e.easing_type));
            },
        };
        let t0 = r.time(&e.start_time);
        let tween = Tween::clamped(ease, e.easing_left, e.easing_right);
        kfs.push(Keyframe { time: t0, value: e.start, tween });
        let t1 = r.time(&e.end_time);
        kfs.push(Keyframe { time: t1, value: e.end, tween: Tween::Plain(Ease::Hold) });
        proof {
            assert(kfs@ =~= event_frames(m, rpe@.take(i as int)) + seq![
                start_frame(m, rpe@[i as int]),
                end_frame(m, rpe@[i as int]),
            ]);
        }
        i += 1;
    }
    proof {
        assert(rpe@.take(rpe@.len() as int) =~= rpe@);
    }
    Ok(Anim::sorted(kfs))
}

/// Once a prefix of the events gives an error, the whole list gives it.
proof fn lemma_error_persists(evs: Seq<RpeEvent>, n: int)
    requires
        0 <= n <= evs.len(),
        events_error(evs.take(n)) is Some,
    ensures
        events_error(evs) == events_error(evs.take(n)),
    decreases evs.len() - n,
{
    if n < evs.len() {
        assert(evs.take(n + 1).drop_last() =~= evs.take(n));
        lemma_error_persists(evs, n + 1);
    } else {
        assert(evs.take(n) =~= evs);
    }
}

/// Width of the authoring canvas, in its own units.
pub const RPE_WIDTH: i64 = 1350;

/// Height of the authoring canvas, in its own units.
pub const RPE_HEIGHT: i64 = 900;

/// A note whose numbers the model holds.
pub open spec fn note_ok(n: RpeNote) -> bool {
    &&& triple_ok(n.start_time)
    &&& triple_ok(n.end_time)
    &&& value_ok(n.position_x)
    &&& value_ok(n.y_offset)
    &&& value_ok(n.size)
    &&& value_ok(n.speed)
    &&& 0 <= n.visible_time <= MAX_TIME
}

/// A note's vertical offset on the canvas, as a share of half its height.
pub open spec fn y_offset_of(n: RpeNote) -> int {
    n.y_offset * 2 / RPE_HEIGHT as int
}

/// The height of timeline `h` at `t`: 0 when it has no keyframes.
pub open spec fn height_at(h: Anim<i64>, t: int) -> int {
    speed_at(h, t)
}

/// The kind of a note, with its end for a hold, or `None` for an unknown code.
pub open spec fn note_kind_of(m: BpmList, h: Anim<i64>, n: RpeNote) -> Option<NoteKind> {
    if n.kind == 1 {
        Some(NoteKind::Click)
    } else if n.kind == 2 {
        let end_time = m.time_of(n.end_time.spec_beats());
        Some(
            NoteKind::Hold {
                end_time: end_time as i64,
                end_height: (height_at(h, end_time) + y_offset_of(n)) as i64,
            },
        )
    } else if n.kind == 3 {
        Some(NoteKind::Flick)
    } else if n.kind == 4 {
        Some(NoteKind::Drag)
    } else {
        None
    }
}

/// The error a list of notes gives, if any: among notes out of bounds or of an
/// unknown kind, the first decides.
pub open spec fn notes_error(ns: Seq<RpeNote>) -> Option<ChartErrorKind>
    decreases ns.len(),
{
    if ns.len() == 0 {
        None
    } else {
        match notes_error(ns.drop_last()) {
            Some(k) => Some(k),
            None => {
                let n = ns.last();
                if !note_ok(n) {
                    Some(ChartErrorKind::ValueOutOfRange)
                } else if !(1 <= n.kind <= 4) {
                    Some(ChartErrorKind::UnknownNoteKind(n.kind))
                } else {
                    None
                }
            }
        }
    }
}

/// Once a prefix of the notes gives an error, the whole list gives it.
proof fn lemma_notes_error_persists(ns: Seq<RpeNote>, n: int)
    requires
        0 <= n <= ns.len(),
        notes_error(ns.take(n)) is Some,
    ensures
        notes_error(ns) == notes_error(ns.take(n)),
    decreases ns.len() - n,
{
    if n < ns.len() {
        assert(ns.take(n + 1).drop_last() =~= ns.take(n));
        lemma_notes_error_persists(ns, n + 1);
    } else {
        assert(ns.take(n) =~= ns);
    }
}

/// A note assembled from `n` against tempo map `m` and line height `h`.
pub open spec fn note_matches(note: Note, m: BpmList, h: Anim<i64>, n: RpeNote) -> bool {
    let time = m.time_of(n.start_time.spec_beats());
    &&& note.time == time
    &&& note.height == height_at(h, time) + y_offset_of(n)
    &&& Some(note.kind) == note_kind_of(m, h, n)
    &&& note.speed == n.speed
    &&& note.above == (n.above == 1)
    &&& note.fake == (n.is_fake != 0)
    &&& !note.multiple_hint
    &&& note.object.wf()
    &&& note.object.translation.0.keyframes@.len() == 1
    &&& note.object.translation.0.keyframes@[0].value == n.position_x * 2 / RPE_WIDTH as int
    &&& note.object.translation.1.keyframes@.len() == 0
    &&& note.object.rotation.keyframes@.len() == 0
    &&& note.object.scale.1.keyframes@.len() == 0
    &&& (n.size == UNIT ==> note.object.scale.0.keyframes@.len() == 0)
    &&& (n.size != UNIT ==> note.object.scale.0.keyframes@ == seq![held(0, n.size)])
    &&& note_alpha(note.object.alpha, time, n)
}

/// A keyframe holding `value` from `time`.
pub open spec fn held(time: i64, value: i64) -> Keyframe<i64> {
    Keyframe { time, value, tween: Tween::Plain(Ease::Hold) }
}

/// A note's alpha timeline: when the note is visible from its start on, its
/// alpha out of 255 throughout (nothing at all when fully opaque); otherwise
/// transparent from time 0 and its alpha, at most 255, from `visible_time`
/// before it is hit.
pub open spec fn note_alpha(a: Anim<i64>, time: int, n: RpeNote) -> bool {
    if n.visible_time >= time {
        if n.alpha >= 255 {
            a.keyframes@.len() == 0
        } else {
            a.keyframes@ == seq![held(0, (n.alpha * UNIT / 255) as i64)]
        }
    } else {
        let alpha: int = if n.alpha > 255 {
            255
        } else {
            n.alpha as int
        };
        a.keyframes@ == seq![held(0, 0), held((time - n.visible_time) as i64, (alpha * UNIT / 255) as i64)]
    }
}

/// Assembles one note: its time from the tempo map, its height from the
/// line's height timeline at that time (and at its end, for a hold).
fn parse_note(r: &mut BpmList, note: &RpeNote, height: &mut Anim<i64>) -> (res: Result<
    Note,
    ChartErrorKind,
>)
    requires
        old(r).wf(),
        old(height).wf(),
    ensures
        final(r).wf(),
        final(r).elements@ == old(r).elements@,
        final(height).wf(),
        final(height).keyframes@ == old(height).keyframes@,
        res is Err <==> !(note_ok(*note) && 1 <= note.kind <= 4),
        res matches Err(k) ==> k == if !note_ok(*note) {
            ChartErrorKind::ValueOutOfRange
        } else {
            ChartErrorKind::UnknownNoteKind(note.kind)
        },
        res matches Ok(v) ==> note_matches(v, *old(r), *old(height), *note),
{
    let ghost m = *r;
    let ghost h = *height;
    if !check_triple(&note.start_time) || !check_triple(&note.end_time) || note.position_x
        < -MAX_VALUE || note.position_x > MAX_VALUE || note.y_offset < -MAX_VALUE || note.y_offset
        > MAX_VALUE || note.size < -MAX_VALUE || note.size > MAX_VALUE || note.speed < -MAX_VALUE
        || note.speed > MAX_VALUE || note.visible_time < 0 || note.visible_time > MAX_TIME {
        return Err(ChartErrorKind::ValueOutOfRange);
    }
    if note.kind < 1 || note.kind > 4 {
        return Err(ChartErrorKind::UnknownNoteKind(note.kind));
    }
    let time = r.time(&note.start_time);
    let note_height = height.sample(time);
    proof {
        if h.keyframes@.len() > 0 {
            lemma_sample_bound(h, time as int);
        }
    }
    let y_offset = floor_div(note.y_offset as i128 * 2, RPE_HEIGHT as i128) as i64;
    let kind = if note.kind == 1 {
        NoteKind::Click
    } else if note.kind == 2 {
        let end_time = r.time(&note.end_time);
        let end_height = height.sample(end_time);
        proof {
            if h.keyframes@.len() > 0 {
                lemma_sample_bound(h, end_time as int);
            }
        }
        NoteKind::Hold { end_time, end_height: end_height + y_offset }
    } else if note.kind == 3 {
        NoteKind::Flick
    } else {
        NoteKind::Drag
    };
    let alpha = if note.visible_time >= time {
        if note.alpha >= 255 {
            Anim::empty()
        } else {
            Anim::fixed(note.alpha as i64 * UNIT / 255)
        }
    } else {
        let a: i64 = if note.alpha > 255 {
            255
        } else {
            note.alpha as i64
        };
        let mut kfs: Vec<Keyframe<i64>> = Vec::new();
        kfs.push(Keyframe { time: 0, value: 0, tween: Tween::Plain(Ease::Hold) });
        kfs.push(Keyframe { time: time - note.visible_time, value: a * UNIT / 255, tween: Tween::Plain(Ease::Hold) });
        proof {
            let keys = crate::anim::time_keys(kfs@);
            assert(keys[0] == 0 && keys[1] == time - note.visible_time);
            assert(kfs@ =~= seq![held(0, 0), held((time - note.visible_time) as i64, (a * UNIT / 255) as i64)]);
        }
        Anim::new(kfs)
    };
    let scale_x = if note.size == UNIT {
        Anim::empty()
    } else {
        Anim::fixed(note.size)
    };
    let object = Object {
        alpha,
        rotation: Anim::empty(),
        translation: (
            Anim::fixed(floor_div(note.position_x as i128 * 2, RPE_WIDTH as i128) as i64),
            Anim::empty(),
        ),
        scale: (scale_x, Anim::empty()),
    };
    Ok(
        Note {
            object,
            kind,
            time,
            height: note_height + y_offset,
            speed: note.speed,
            above: note.above == 1,
            multiple_hint: false,
            fake: note.is_fake != 0,
        },
    )
}

/// Assembles a line's notes in order; the first note out of bounds or of an
/// unknown kind fails the whole list.
pub fn parse_notes(r: &mut BpmList, rpe: &Vec<RpeNote>, height: &mut Anim<i64>) -> (res: Result<
    Vec<Note>,
    ChartErrorKind,
>)
    requires
        old(r).wf(),
        old(height).wf(),
    ensures
        final(r).wf(),
        final(r).elements@ == old(r).elements@,
        final(height).wf(),
        final(height).keyframes@ == old(height).keyframes@,
        res is Err <==> notes_error(rpe@) is Some,
        res matches Err(k) ==> notes_error(rpe@) == Some(k),
        res matches Ok(v) ==> v@.len() == rpe@.len() && forall|i: int|
            0 <= i < rpe@.len() ==> note_matches(#[trigger] v@[i], *old(r), *old(height), rpe@[i]),
{
    let ghost m = *r;
    let ghost h = *height;
    let mut out: Vec<Note> = Vec::new();
    let mut i: usize = 0;
    while i < rpe.len()
        invariant
            r.wf(),
            r.elements@ == m.elements@,
            m == *old(r),
            height.wf(),
            height.keyframes@ == h.keyframes@,
            h == *old(height),
            i <= rpe@.len(),
            notes_error(rpe@.take(i as int)) is None,
            out@.len() == i,
            forall|j: int| 0 <= j < i ==> note_matches(#[trigger] out@[j], m, h, rpe@[j]),
        decreases rpe@.len() - i,
    {
        proof {
            assert(rpe@.take(i + 1).drop_last() =~= rpe@.take(i as int));
            assert(rpe@.take(i + 1).last() == rpe@[i as int]);
        }
        match parse_note(r, &rpe[i], height) {
            Ok(n) => {
                out.push(n);
            },
            Err(k) => {
                proof {
                    lemma_notes_error_persists(rpe@, i as int + 1);
                }
                return Err(k);
            },
        }
        i += 1;
    }
    proof {
        assert(rpe@.take(rpe@.len() as int) =~= rpe@);
    }
    Ok(out)
}

/// The share of an authored speed that becomes scroll speed:
/// `(10 / 45) / 0.83175`, as a fraction.
pub const SPEED_RATIO_NUM: i64 = 1_000_000;
pub const SPEED_RATIO_DEN: i64 = 3_742_875;

/// An authored speed scaled to scroll speed.
pub fn scale_speed(v: i64) -> (w: i64)
    requires
        v.fits(),
    ensures
        w == v * SPEED_RATIO_NUM / SPEED_RATIO_DEN as int,
        w.fits(),
{
    proof {
        crate::fixed::lemma_div_abs_bound(
            v * SPEED_RATIO_NUM,
            SPEED_RATIO_DEN as int,
            SPEED_RATIO_DEN as int,
            MAX_VALUE as int,
        );
    }
    floor_div(v as i128 * SPEED_RATIO_NUM as i128, SPEED_RATIO_DEN as i128) as i64
}

/// Strictly increasing times.
pub open spec fn strictly_sorted(p: Seq<i64>) -> bool {
    forall|i: int, j: int| 0 <= i < j < p.len() ==> p[i] < p[j]
}

/// Times far enough from the bounds that reading just before each stays in range.
pub open spec fn points_in_range(p: Seq<i64>) -> bool {
    forall|k: int| 0 <= k < p.len() ==> crate::speed::SAMPLE_GAP - MAX_TIME <= #[trigger] p[k] <= MAX_TIME
}

/// Adds `x` to strictly increasing times, unless it is there already.
pub fn insert_point(pts: &mut Vec<i64>, x: i64)
    requires
        strictly_sorted(old(pts)@),
    ensures
        strictly_sorted(final(pts)@),
        final(pts)@.to_set() == old(pts)@.to_set().insert(x),
        forall|k: int| 0 <= k < final(pts)@.len() ==> #[trigger] final(pts)@[k] == x || old(pts)@.contains(final(pts)@[k]),
{
    let ghost prev = pts@;
    let mut pos: usize = 0;
    while pos < pts.len() && pts[pos] < x
        invariant
            pos <= pts@.len(),
            pts@ == prev,
            forall|j: int| 0 <= j < pos ==> #[trigger] pts@[j] < x,
        decreases pts@.len() - pos,
    {
        pos += 1;
    }
    if pos < pts.len() && pts[pos] == x {
        proof {
            assert(pts@.to_set() =~= prev.to_set().insert(x)) by {
                assert(prev.contains(x)) by {
                    assert(prev[pos as int] == x);
                }
            }
            assert forall|k: int| 0 <= k < pts@.len() implies #[trigger] pts@[k] == x || prev.contains(pts@[k]) by {
                assert(prev[k] == pts@[k]);
            }
        }
        return;
    }
    pts.insert(pos, x);
    proof {
        assert forall|i: int, j: int| 0 <= i < j < pts@.len() implies pts@[i] < pts@[j] by {
            if j < pos {
                assert(prev[i] < prev[j]);
            } else if i < pos && j == pos {
            } else if i < pos && j > pos {
                assert(prev[j - 1] >= x) by {
                    if prev[j - 1] < x {
                        assert(prev[pos as int] <= prev[j - 1]) by {
                            if pos < j - 1 {
                                assert(prev[pos as int] < prev[j - 1]);
                            }
                        }
                    }
                }
            } else if i == pos {
                assert(prev[pos as int] > x);
                if j - 1 > pos {
                    assert(prev[pos as int] < prev[j - 1]);
                }
            } else {
                assert(prev[i - 1] < prev[j - 1]);
            }
        }
        assert(pts@.to_set() =~= prev.to_set().insert(x)) by {
            assert forall|y: i64| pts@.contains(y) implies prev.contains(y) || y == x by {
                let k = choose|k: int| 0 <= k < pts@.len() && pts@[k] == y;
                if k < pos {
                    assert(prev[k] == y);
                } else if k > pos {
                    assert(prev[k - 1] == y);
                }
            }
            assert forall|y: i64| prev.contains(y) implies pts@.contains(y) by {
                let k = choose|k: int| 0 <= k < prev.len() && prev[k] == y;
                if k < pos {
                    assert(pts@[k] == y);
                } else {
                    assert(pts@[k + 1] == y);
                }
            }
            assert(pts@[pos as int] == x);
        }
        assert forall|k: int| 0 <= k < pts@.len() implies #[trigger] pts@[k] == x || prev.contains(pts@[k]) by {
            if k < pos {
                assert(prev[k] == pts@[k]);
            } else if k > pos {
                assert(prev[k - 1] == pts@[k]);
            }
        }
    }
}

/// A speed event whose numbers the model holds.
pub open spec fn speed_event_ok(e: RpeSpeedEvent) -> bool {
    triple_ok(e.start_time) && triple_ok(e.end_time) && value_ok(e.start) && value_ok(e.end)
}

/// All speed events of all layers are within bounds.
pub open spec fn speed_layers_ok(layers: Seq<Option<RpeEventLayer>>) -> bool {
    forall|i: int, j: int|
        0 <= i < layers.len() && layers[i] is Some && layers[i].unwrap().speed_events is Some && 0 <= j
            < layers[i].unwrap().speed_events.unwrap()@.len() ==> speed_event_ok(
            #[trigger] layers[i].unwrap().speed_events.unwrap()@[j],
        )
}

/// Some layer has speed events.
pub open spec fn has_speed(layers: Seq<Option<RpeEventLayer>>) -> bool {
    exists|i: int| 0 <= i < layers.len() && (#[trigger] layers[i]) is Some && layers[i].unwrap().speed_events is Some
}

/// The keyframes of speed events, in list order: each event ramps linearly
/// from its start speed to its end speed, which then holds.
pub open spec fn speed_frames_of(m: BpmList, evs: Seq<RpeSpeedEvent>) -> Seq<Keyframe<i64>>
    decreases evs.len(),
{
    if evs.len() == 0 {
        Seq::empty()
    } else {
        let e = evs.last();
        speed_frames_of(m, evs.drop_last()) + seq![
            Keyframe {
                time: m.time_of(e.start_time.spec_beats()) as i64,
                value: e.start,
                tween: Tween::Plain(Ease::Linear),
            },
            Keyframe {
                time: m.time_of(e.end_time.spec_beats()) as i64,
                value: e.end,
                tween: Tween::Plain(Ease::Hold),
            },
        ]
    }
}

/// The speed keyframes of all layers, layer after layer.
pub open spec fn layer_speed_frames(m: BpmList, layers: Seq<Option<RpeEventLayer>>) -> Seq<
    Keyframe<i64>,
>
    decreases layers.len(),
{
    if layers.len() == 0 {
        Seq::empty()
    } else {
        let rest = layer_speed_frames(m, layers.drop_last());
        match layers.last() {
            Some(l) => match l.speed_events {
                Some(evs) => rest + speed_frames_of(m, evs@),
                None => rest,
            },
            None => rest,
        }
    }
}

/// The times of keyframes.
pub open spec fn frame_times(k: Seq<Keyframe<i64>>) -> Seq<i64> {
    k.map_values(|f: Keyframe<i64>| f.time)
}

/// A speed keyframe with its speed scaled to scroll speed.
pub open spec fn scaled_frame(k: Keyframe<i64>) -> Keyframe<i64> {
    Keyframe {
        time: k.time,
        value: (k.value * SPEED_RATIO_NUM / SPEED_RATIO_DEN as int) as i64,
        tween: k.tween,
    }
}

/// Speed keyframes depend on the tempo map's segments alone.
proof fn lemma_speed_frames_segments(a: BpmList, b: BpmList, evs: Seq<RpeSpeedEvent>)
    requires
        a.elements@ == b.elements@,
    ensures
        speed_frames_of(a, evs) == speed_frames_of(b, evs),
    decreases evs.len(),
{
    if evs.len() > 0 {
        lemma_speed_frames_segments(a, b, evs.drop_last());
    }
}

/// Set of the times of `a` and `b` together is that of `a` joined with that of `b`.
proof fn lemma_times_concat(a: Seq<Keyframe<i64>>, b: Seq<Keyframe<i64>>)
    ensures
        frame_times(a + b).to_set() == frame_times(a).to_set().union(frame_times(b).to_set()),
{
    let ta = frame_times(a);
    let tb = frame_times(b);
    let t = frame_times(a + b);
    assert(t =~= ta + tb);
    assert forall|x: i64| t.contains(x) implies ta.contains(x) || tb.contains(x) by {
        let k = choose|k: int| 0 <= k < t.len() && t[k] == x;
        if k < ta.len() {
            assert(ta[k] == x);
        } else {
            assert(tb[k - ta.len()] == x);
        }
    }
    assert forall|x: i64| ta.contains(x) || tb.contains(x) implies t.contains(x) by {
        if ta.contains(x) {
            let k = choose|k: int| 0 <= k < ta.len() && ta[k] == x;
            assert(t[k] == x);
        } else {
            let k = choose|k: int| 0 <= k < tb.len() && tb[k] == x;
            assert(t[k + ta.len()] == x);
        }
    }
    assert(t.to_set() =~= ta.to_set().union(tb.to_set()));
}

/// The speed timeline of one layer's speed events: each event ramps linearly
/// from its start speed to its end speed.
fn speed_layer(r: &mut BpmList, events: &Vec<RpeSpeedEvent>, pts: &mut Vec<i64>) -> (res: Option<
    Anim<i64>,
>)
    requires
        old(r).wf(),
        strictly_sorted(old(pts)@),
        points_in_range(old(pts)@),
    ensures
        final(r).wf(),
        final(r).elements@ == old(r).elements@,
        strictly_sorted(final(pts)@),
        points_in_range(final(pts)@),
        res is None <==> exists|j: int|
            0 <= j < events@.len() && !speed_event_ok(#[trigger] events@[j]),
        res matches Some(a) ==> a.wf() && a.keyframes@.to_multiset() == speed_frames_of(
            *old(r),
            events@,
        ).to_multiset(),
        res is Some ==> final(pts)@.to_set() == old(pts)@.to_set().union(
            frame_times(speed_frames_of(*old(r), events@)).to_set(),
        ),
{
    let ghost m = *r;
    let ghost pts0 = pts@;
    let mut kfs: Vec<Keyframe<i64>> = Vec::new();
    let mut i: usize = 0;
    while i < events.len()
        invariant
            r.wf(),
            r.elements@ == m.elements@,
            m == *old(r),
            i <= events@.len(),
            strictly_sorted(pts@),
            points_in_range(pts@),
            forall|j: int| 0 <= j < i ==> speed_event_ok(#[trigger] events@[j]),
            forall|j: int|
                0 <= j < kfs@.len() ==> crate::speed::SAMPLE_GAP - MAX_TIME <= #[trigger] kfs@[j].time
                    <= MAX_TIME && kfs@[j].value.fits() && kfs@[j].tween.wf(),
            kfs@ == speed_frames_of(m, events@.take(i as int)),
            pts0 == old(pts)@,
            pts@.to_set() == pts0.to_set().union(frame_times(kfs@).to_set()),
        decreases events@.len() - i,
    {
        let e = &events[i];
        if !check_triple(&e.start_time) || !check_triple(&e.end_time) || e.start < -MAX_VALUE
            || e.start > MAX_VALUE || e.end < -MAX_VALUE || e.end > MAX_VALUE {
            return None;
        }
        let t0 = r.time(&e.start_time);
        let t1 = r.time(&e.end_time);
        assert(crate::speed::SAMPLE_GAP - MAX_TIME <= t0 <= MAX_TIME);
        assert(crate::speed::SAMPLE_GAP - MAX_TIME <= t1 <= MAX_TIME);
        assert(e.start.fits() && e.end.fits());
        let ghost k0 = kfs@;
        kfs.push(Keyframe { time: t0, value: e.start, tween: Tween::Plain(Ease::Linear) });
        kfs.push(Keyframe { time: t1, value: e.end, tween: Tween::Plain(Ease::Hold) });
        proof {
            assert(events@.take(i + 1).drop_last() =~= events@.take(i as int));
            assert(kfs@ =~= k0 + seq![kfs@[k0.len() as int], kfs@[k0.len() as int + 1]]);
            lemma_times_concat(k0, seq![kfs@[k0.len() as int], kfs@[k0.len() as int + 1]]);
            assert(frame_times(seq![kfs@[k0.len() as int], kfs@[k0.len() as int + 1]]).to_set() =~= set![
                t0,
                t1,
            ]) by {
                let two = frame_times(seq![kfs@[k0.len() as int], kfs@[k0.len() as int + 1]]);
                assert(two[0] == t0 && two[1] == t1);
            }
        }
        let ghost p0 = pts@;
        insert_point(pts, t0);
        proof {
            assert forall|k: int| 0 <= k < pts@.len() implies crate::speed::SAMPLE_GAP - MAX_TIME
                <= #[trigger] pts@[k] <= MAX_TIME by {
                if pts@[k] != t0 {
                    let j = choose|j: int| 0 <= j < p0.len() && p0[j] == pts@[k];
                    assert(crate::speed::SAMPLE_GAP - MAX_TIME <= p0[j]);
                }
            }
        }
        let ghost p1 = pts@;
        insert_point(pts, t1);
        proof {
            assert forall|k: int| 0 <= k < pts@.len() implies crate::speed::SAMPLE_GAP - MAX_TIME
                <= #[trigger] pts@[k] <= MAX_TIME by {
                if pts@[k] != t1 {
                    let j = choose|j: int| 0 <= j < p1.len() && p1[j] == pts@[k];
                    assert(crate::speed::SAMPLE_GAP - MAX_TIME <= p1[j]);
                }
            }
            assert(pts@.to_set() =~= pts0.to_set().union(frame_times(kfs@).to_set()));
        }
        i += 1;
    }
    proof {
        assert(events@.take(events@.len() as int) =~= events@);
    }
    Some(Anim::sorted(kfs))
}

/// `s` and `pts` are what a line's height is integrated over: `s` holds the
/// scaled speed keyframes of all layers' speed events, in time order, and
/// `pts` the times at which any of them starts or ends, and `max_time`, in
/// increasing order.
pub open spec fn speed_source(
    s: Anim<i64>,
    pts: Seq<i64>,
    m: BpmList,
    layers: Seq<Option<RpeEventLayer>>,
    max_time: i64,
) -> bool {
    &&& s.wf()
    &&& s.keyframes@.to_multiset() == layer_speed_frames(m, layers).map_values(
        |k: Keyframe<i64>| scaled_frame(k),
    ).to_multiset()
    &&& crate::speed::breakpoints_ok(pts)
    &&& pts.to_set() == frame_times(layer_speed_frames(m, layers)).to_set().insert(max_time)
}

/// The speed events of `layers` are within bounds and, integrated over the
/// times they give and `max_time`, keep every height within bounds.
pub open spec fn speed_ok(m: BpmList, layers: Seq<Option<RpeEventLayer>>, max_time: i64) -> bool {
    &&& speed_layers_ok(layers)
    &&& (has_speed(layers) ==> forall|s: Anim<i64>, pts: Seq<i64>|
        #[trigger] speed_source(s, pts, m, layers, max_time) ==> crate::speed::heights_fit(
            s,
            pts,
            pts.len() as int,
        ))
}

/// `h` is the height timeline integrated from the speed events of `layers`.
pub open spec fn integrates_speed_of(
    h: Anim<i64>,
    m: BpmList,
    layers: Seq<Option<RpeEventLayer>>,
    max_time: i64,
) -> bool {
    exists|s: Anim<i64>, pts: Seq<i64>|
        speed_source(s, pts, m, layers, max_time) && #[trigger] heights_over(h, s, pts)
}

/// Every speed event of every layer has non-negative start and end speeds.
pub open spec fn speeds_non_negative(layers: Seq<Option<RpeEventLayer>>) -> bool {
    forall|i: int, j: int|
        0 <= i < layers.len() && layers[i] is Some && layers[i].unwrap().speed_events is Some && 0 <= j
            < layers[i].unwrap().speed_events.unwrap()@.len() ==> {
            let e = #[trigger] layers[i].unwrap().speed_events.unwrap()@[j];
            e.start >= 0 && e.end >= 0
        }
}

/// A speed keyframe that never goes below zero and ramps or holds.
pub open spec fn ramp_frame(k: Keyframe<i64>) -> bool {
    k.value >= 0 && (k.tween == Tween::Plain(Ease::Linear) || k.tween == Tween::Plain(Ease::Hold))
}

proof fn lemma_speed_frames_ramps(m: BpmList, evs: Seq<RpeSpeedEvent>)
    requires
        forall|j: int| 0 <= j < evs.len() ==> (#[trigger] evs[j]).start >= 0 && evs[j].end >= 0,
    ensures
        forall|k: int| 0 <= k < speed_frames_of(m, evs).len() ==> ramp_frame(#[trigger] speed_frames_of(m, evs)[k]),
    decreases evs.len(),
{
    if evs.len() > 0 {
        let p = evs.drop_last();
        assert forall|j: int| 0 <= j < p.len() implies (#[trigger] p[j]).start >= 0 && p[j].end >= 0 by {
            assert(p[j] == evs[j]);
        }
        lemma_speed_frames_ramps(m, p);
        assert(evs.last() == evs[evs.len() - 1]);
        let a = speed_frames_of(m, p);
        let all = speed_frames_of(m, evs);
        assert forall|k: int| 0 <= k < all.len() implies ramp_frame(#[trigger] all[k]) by {
            if k < a.len() {
                assert(all[k] == a[k]);
            }
        }
    }
}

proof fn lemma_layer_speed_frames_ramps(m: BpmList, layers: Seq<Option<RpeEventLayer>>)
    requires
        speeds_non_negative(layers),
    ensures
        forall|k: int|
            0 <= k < layer_speed_frames(m, layers).len() ==> ramp_frame(
                #[trigger] layer_speed_frames(m, layers)[k],
            ),
    decreases layers.len(),
{
    if layers.len() > 0 {
        let p = layers.drop_last();
        assert(speeds_non_negative(p)) by {
            assert forall|i: int, j: int|
                0 <= i < p.len() && p[i] is Some && p[i].unwrap().speed_events is Some && 0 <= j
                    < p[i].unwrap().speed_events.unwrap()@.len() implies {
                    let e = #[trigger] p[i].unwrap().speed_events.unwrap()@[j];
                    e.start >= 0 && e.end >= 0
                } by {
                assert(p[i] == layers[i]);
            }
        }
        lemma_layer_speed_frames_ramps(m, p);
        let n = layers.len() - 1;
        let total = layer_speed_frames(m, layers);
        if let Some(l) = layers.last() {
            if let Some(evs) = l.speed_events {
                assert forall|j: int| 0 <= j < evs@.len() implies (#[trigger] evs@[j]).start >= 0
                    && evs@[j].end >= 0 by {
                    assert(layers[n].unwrap().speed_events.unwrap()@[j] == evs@[j]);
                }
                lemma_speed_frames_ramps(m, evs@);
                let a = layer_speed_frames(m, p);
                let b = speed_frames_of(m, evs@);
                assert(total == a + b);
                assert forall|k: int| 0 <= k < total.len() implies ramp_frame(#[trigger] total[k]) by {
                    if k >= a.len() {
                        assert(total[k] == b[k - a.len()]);
                    } else {
                        assert(total[k] == a[k]);
                    }
                }
            } else {
                assert(total == layer_speed_frames(m, p));
            }
        } else {
            assert(total == layer_speed_frames(m, p));
        }
    }
}

/// With speed events that never go below zero, a height timeline integrated
/// from them never falls: sampled at a later time it gives at least as much.
pub proof fn lemma_parsed_height_non_decreasing(
    h: Anim<i64>,
    m: BpmList,
    layers: Seq<Option<RpeEventLayer>>,
    max_time: i64,
    t1: int,
    t2: int,
)
    requires
        speeds_non_negative(layers),
        integrates_speed_of(h, m, layers, max_time),
        t1 <= t2,
    ensures
        h.value_at(t1) <= h.value_at(t2),
{
    broadcast use vstd::seq_lib::group_to_multiset_ensures;

    let (s, pts) = choose|s: Anim<i64>, pts: Seq<i64>|
        speed_source(s, pts, m, layers, max_time) && #[trigger] heights_over(h, s, pts);
    let frames = layer_speed_frames(m, layers);
    let mapped = frames.map_values(|k: Keyframe<i64>| scaled_frame(k));
    lemma_layer_speed_frames_ramps(m, layers);
    assert forall|i: int| 0 <= i < s.keyframes@.len() implies {
        &&& #[trigger] s.keyframes@[i].value >= 0
        &&& (s.keyframes@[i].tween == Tween::Plain(Ease::Linear) || s.keyframes@[i].tween
            == Tween::Plain(Ease::Hold))
    } by {
        let x = s.keyframes@[i];
        s.keyframes@.to_multiset_ensures();
        mapped.to_multiset_ensures();
        assert(s.keyframes@.contains(x));
        assert(s.keyframes@.to_multiset().count(x) > 0);
        assert(mapped.to_multiset().count(x) > 0);
        assert(mapped.contains(x));
        let j = choose|j: int| 0 <= j < mapped.len() && mapped[j] == x;
        assert(ramp_frame(frames[j]));
        let v = frames[j].value as int;
        vstd::arithmetic::div_mod::lemma_div_pos_is_pos(v * SPEED_RATIO_NUM, SPEED_RATIO_DEN as int);
        crate::fixed::lemma_div_abs_bound(
            v * SPEED_RATIO_NUM,
            SPEED_RATIO_DEN as int,
            SPEED_RATIO_DEN as int,
            i64::MAX as int,
        );
    }
    crate::speed::lemma_height_sampling_non_decreasing(s, pts, h, t1, t2);
}

/// Builds a line's height timeline from the speed events of its layers: the
/// layers' speed timelines are merged and scaled, then integrated over the
/// times at which any speed event starts or ends and over `max_time`.
/// Without speed events the height timeline is empty.
pub fn parse_speed_events(r: &mut BpmList, rpe: &Vec<Option<RpeEventLayer>>, max_time: i64) -> (res: Result<
    Anim<i64>,
    ChartErrorKind,
>)
    requires
        old(r).wf(),
        crate::speed::SAMPLE_GAP - MAX_TIME <= max_time <= MAX_TIME,
    ensures
        final(r).wf(),
        final(r).elements@ == old(r).elements@,
        !speed_layers_ok(rpe@) ==> res is Err,
        speed_ok(*old(r), rpe@, max_time) ==> res is Ok,
        res matches Err(k) ==> k == ChartErrorKind::ValueOutOfRange,
        res matches Ok(h) ==> h.wf(),
        res matches Ok(h) ==> (h.keyframes@.len() == 0 <==> !has_speed(rpe@)),
        res matches Ok(h) ==> has_speed(rpe@) ==> integrates_speed_of(h, *old(r), rpe@, max_time),
{
    let ghost m = *r;
    let mut anis: Vec<Anim<i64>> = Vec::new();
    let mut pts: Vec<i64> = Vec::new();
    let mut i: usize = 0;
    while i < rpe.len()
        invariant
            r.wf(),
            r.elements@ == m.elements@,
            m == *old(r),
            i <= rpe@.len(),
            strictly_sorted(pts@),
            points_in_range(pts@),
            forall|a: int| 0 <= a < anis@.len() ==> (#[trigger] anis@[a]).wf(),
            forall|a: int, j: int|
                0 <= a < i && rpe@[a] is Some && rpe@[a].unwrap().speed_events is Some && 0 <= j
                    < rpe@[a].unwrap().speed_events.unwrap()@.len() ==> speed_event_ok(
                    #[trigger] rpe@[a].unwrap().speed_events.unwrap()@[j],
                ),
            (anis@.len() > 0) <==> exists|a: int| 0 <= a < i && (#[trigger] rpe@[a]) is Some && rpe@[a].unwrap().speed_events is Some,
            crate::anim::pooled(anis@).to_multiset() == layer_speed_frames(m, rpe@.take(i as int)).to_multiset(),
            pts@.to_set() == frame_times(layer_speed_frames(m, rpe@.take(i as int))).to_set(),
        decreases rpe@.len() - i,
    {
        proof {
            assert(rpe@.take(i + 1).drop_last() =~= rpe@.take(i as int));
        }
        if let Some(layer) = &rpe[i] {
            if let Some(events) = &layer.speed_events {
                let ghost before = anis@;
                let ghost r_call = *r;
                match speed_layer(r, events, &mut pts) {
                    Some(a) => {
                        anis.push(a);
                        proof {
                            lemma_speed_frames_segments(r_call, m, events@);
                            assert(anis@.drop_last() =~= before);
                            vstd::seq_lib::lemma_multiset_commutative(crate::anim::pooled(before), a.keyframes@);
                            vstd::seq_lib::lemma_multiset_commutative(
                                layer_speed_frames(m, rpe@.take(i as int)),
                                speed_frames_of(m, events@),
                            );
                            lemma_times_concat(layer_speed_frames(m, rpe@.take(i as int)), speed_frames_of(m, events@));
                            assert(layer_speed_frames(m, rpe@.take(i + 1)) == layer_speed_frames(m, rpe@.take(i as int))
                                + speed_frames_of(m, events@));
                            assert(crate::anim::pooled(anis@) == crate::anim::pooled(before) + a.keyframes@);
                        }
                    },
                    None => {
                        proof {
                            let j = choose|j: int|
                                0 <= j < events@.len() && !speed_event_ok(#[trigger] events@[j]);
                            assert(!speed_event_ok(rpe@[i as int].unwrap().speed_events.unwrap()@[j]));
                        }
                        return Err(ChartErrorKind::ValueOutOfRange);
                    },
                }
            } else {
                assert(layer_speed_frames(m, rpe@.take(i + 1)) == layer_speed_frames(m, rpe@.take(i as int)));
            }
        } else {
            assert(layer_speed_frames(m, rpe@.take(i + 1)) == layer_speed_frames(m, rpe@.take(i as int)));
        }
        i += 1;
    }
    if anis.len() == 0 {
        return Ok(Anim::empty());
    }
    let ghost p0 = pts@;
    insert_point(&mut pts, max_time);
    proof {
        assert forall|k: int| 0 <= k < pts@.len() implies crate::speed::SAMPLE_GAP - MAX_TIME
            <= #[trigger] pts@[k] <= MAX_TIME by {
            if pts@[k] != max_time {
                let j = choose|j: int| 0 <= j < p0.len() && p0[j] == pts@[k];
                assert(crate::speed::SAMPLE_GAP - MAX_TIME <= p0[j]);
            }
        }
    }
    proof {
        assert(rpe@.take(rpe@.len() as int) =~= rpe@);
        assert(pts@.contains(max_time)) by {
            assert(pts@.to_set().contains(max_time));
        }
    }
    let mut sani = Anim::chain(anis);
    let ghost merged = sani.keyframes@;
    sani.map_value(scale_speed);
    proof {
        assert(sani.keyframes@ =~= merged.map_values(|k: Keyframe<i64>| scaled_frame(k)));
        crate::anim::lemma_map_multiset(
            merged,
            layer_speed_frames(m, rpe@),
            |k: Keyframe<i64>| scaled_frame(k),
        );
    }
    let ghost s0 = sani;
    match crate::speed::integrate_speed(&mut sani, &pts) {
        Some(h) => {
            proof {
                assert(speed_source(s0, pts@, m, rpe@, max_time));
                assert(heights_over(h, s0, pts@));
                assert(integrates_speed_of(h, m, rpe@, max_time));
            }
            Ok(h)
        },
        None => {
            proof {
                assert(speed_source(s0, pts@, m, rpe@, max_time));
            }
            Err(ChartErrorKind::ValueOutOfRange)
        },
    }
}

/// The colour a line has before its first colour event.
pub open spec fn perfect_color() -> Color {
    Color { r: 255, g: 235, b: 159, a: 225 }
}

/// The keyframe of a colour event: its colour, with alpha 0, held from its start.
pub open spec fn color_frame(m: BpmList, e: RpeColorEvent) -> Keyframe<Color> {
    Keyframe {
        time: m.time_of(e.start_time.spec_beats()) as i64,
        value: Color { r: e.color.0, g: e.color.1, b: e.color.2, a: 0 },
        tween: Tween::Plain(Ease::Hold),
    }
}

/// The keyframes of colour events, in list order.
pub open spec fn color_event_frames(m: BpmList, evs: Seq<RpeColorEvent>) -> Seq<Keyframe<Color>>
    decreases evs.len(),
{
    if evs.len() == 0 {
        Seq::empty()
    } else {
        color_event_frames(m, evs.drop_last()).push(color_frame(m, evs.last()))
    }
}

/// The keyframes of a line's colour timeline: the default colour from time 0
/// when the first event starts later than beat 0, then one per event.
pub open spec fn color_frames(m: BpmList, evs: Seq<RpeColorEvent>) -> Seq<Keyframe<Color>> {
    if evs.len() > 0 && evs[0].start_time.spec_beats() != 0 {
        seq![Keyframe { time: 0, value: perfect_color(), tween: Tween::Plain(Ease::Hold) }]
            + color_event_frames(m, evs)
    } else {
        color_event_frames(m, evs)
    }
}

/// Builds a line's colour timeline; an event time out of bounds fails it.
pub fn parse_color_events(r: &mut BpmList, rpe: &Vec<RpeColorEvent>) -> (res: Result<
    Anim<Color>,
    ChartErrorKind,
>)
    requires
        old(r).wf(),
    ensures
        final(r).wf(),
        final(r).elements@ == old(r).elements@,
        res is Err <==> exists|i: int| 0 <= i < rpe@.len() && !triple_ok(#[trigger] rpe@[i].start_time),
        res matches Err(k) ==> k == ChartErrorKind::ValueOutOfRange,
        res matches Ok(a) ==> a.wf() && a.keyframes@ == stable_sort(color_frames(*old(r), rpe@))
            && a.keyframes@.to_multiset() == color_frames(*old(r), rpe@).to_multiset(),
{
    let ghost m = *r;
    let mut kfs: Vec<Keyframe<Color>> = Vec::new();
    let mut i: usize = 0;
    while i < rpe.len()
        invariant
            r.wf(),
            r.elements@ == m.elements@,
            m == *old(r),
            i <= rpe@.len(),
            forall|j: int| 0 <= j < i ==> triple_ok(#[trigger] rpe@[j].start_time),
            kfs@ == color_event_frames(m, rpe@.take(i as int)),
            forall|j: int|
                0 <= j < kfs@.len() ==> -MAX_TIME <= #[trigger] kfs@[j].time <= MAX_TIME
                    && kfs@[j].tween.wf(),
        decreases rpe@.len() - i,
    {
        let e = &rpe[i];
        if !check_triple(&e.start_time) {
            return Err(ChartErrorKind::ValueOutOfRange);
        }
        let t = r.time(&e.start_time);
        let ghost before = kfs@;
        kfs.push(
            Keyframe {
                time: t,
                value: Color { r: e.color.0, g: e.color.1, b: e.color.2, a: 0 },
                tween: Tween::Plain(Ease::Hold),
            },
        );
        proof {
            assert(rpe@.take(i + 1).drop_last() =~= rpe@.take(i as int));
            assert forall|j: int| 0 <= j < kfs@.len() implies -MAX_TIME <= #[trigger] kfs@[j].time
                <= MAX_TIME && kfs@[j].tween.wf() by {
                if j < before.len() {
                    assert(kfs@[j] == before[j]);
                }
            }
        }
        i += 1;
    }
    proof {
        assert(rpe@.take(rpe@.len() as int) =~= rpe@);
    }
    if rpe.len() > 0 && rpe[0].start_time.beats() != 0 {
        let ghost tail = kfs@;
        kfs.insert(
            0,
            Keyframe {
                time: 0,
                value: Color { r: 255, g: 235, b: 159, a: 225 },
                tween: Tween::Plain(Ease::Hold),
            },
        );
        proof {
            assert(kfs@ =~= seq![
                Keyframe { time: 0, value: perfect_color(), tween: Tween::Plain(Ease::Hold) },
            ] + tail);
        }
    }
    Ok(Anim::sorted(kfs))
}

/// The keyframe of a text event: its text, held from its start.
pub open spec fn text_frame(m: BpmList, e: RpeTextEvent) -> Keyframe<String> {
    Keyframe {
        time: m.time_of(e.start_time.spec_beats()) as i64,
        value: e.text,
        tween: Tween::Plain(Ease::Hold),
    }
}

/// The keyframes of text events, in list order.
pub open spec fn text_event_frames(m: BpmList, evs: Seq<RpeTextEvent>) -> Seq<Keyframe<String>>
    decreases evs.len(),
{
    if evs.len() == 0 {
        Seq::empty()
    } else {
        text_event_frames(m, evs.drop_last()).push(text_frame(m, evs.last()))
    }
}

/// The keyframes of a line's text timeline: empty text from time 0 when the
/// first event starts later than beat 0, then one per event.
/// `empty` stands for the empty text.
pub open spec fn text_frames(m: BpmList, evs: Seq<RpeTextEvent>, empty: String) -> Seq<Keyframe<String>> {
    if evs.len() > 0 && evs[0].start_time.spec_beats() != 0 {
        seq![Keyframe { time: 0, value: empty, tween: Tween::Plain(Ease::Hold) }]
            + text_event_frames(m, evs)
    } else {
        text_event_frames(m, evs)
    }
}

/// Builds a line's text timeline: empty text from time 0 when the first
/// event starts later than beat 0, then each event's text from its start.
pub fn parse_text_events(r: &mut BpmList, rpe: &Vec<RpeTextEvent>) -> (res: Result<
    Anim<String>,
    ChartErrorKind,
>)
    requires
        old(r).wf(),
    ensures
        final(r).wf(),
        final(r).elements@ == old(r).elements@,
        res is Err <==> exists|i: int| 0 <= i < rpe@.len() && !triple_ok(#[trigger] rpe@[i].start_time),
        res matches Err(k) ==> k == ChartErrorKind::ValueOutOfRange,
        res matches Ok(a) ==> {
            &&& a.wf()
            &&& a.keyframes@.len() == rpe@.len() + (if rpe@.len() > 0
                && rpe@[0].start_time.spec_beats() != 0 {
                1int
            } else {
                0int
            })
            &&& forall|i: int|
                0 <= i < rpe@.len() ==> a.keyframes@.to_multiset().count(
                    text_frame(*old(r), #[trigger] rpe@[i]),
                ) > 0
            &&& exists|empty: String|
                empty@.len() == 0 && a.keyframes@ == stable_sort(#[trigger] text_frames(*old(r), rpe@, empty))
        },
{
    let ghost m = *r;
    let mut kfs: Vec<Keyframe<String>> = Vec::new();
    let mut i: usize = 0;
    while i < rpe.len()
        invariant
            r.wf(),
            r.elements@ == m.elements@,
            m == *old(r),
            i <= rpe@.len(),
            forall|j: int| 0 <= j < i ==> triple_ok(#[trigger] rpe@[j].start_time),
            kfs@ == text_event_frames(m, rpe@.take(i as int)),
            forall|j: int|
                0 <= j < kfs@.len() ==> -MAX_TIME <= #[trigger] kfs@[j].time <= MAX_TIME
                    && kfs@[j].tween.wf(),
        decreases rpe@.len() - i,
    {
        let e = &rpe[i];
        if !check_triple(&e.start_time) {
            return Err(ChartErrorKind::ValueOutOfRange);
        }
        let t = r.time(&e.start_time);
        let ghost before = kfs@;
        kfs.push(Keyframe { time: t, value: e.text.clone(), tween: Tween::Plain(Ease::Hold) });
        proof {
            assert(rpe@.take(i + 1).drop_last() =~= rpe@.take(i as int));
            assert forall|j: int| 0 <= j < kfs@.len() implies -MAX_TIME <= #[trigger] kfs@[j].time
                <= MAX_TIME && kfs@[j].tween.wf() by {
                if j < before.len() {
                    assert(kfs@[j] == before[j]);
                }
            }
        }
        i += 1;
    }
    proof {
        assert(rpe@.take(rpe@.len() as int) =~= rpe@);
        lemma_text_frames(m, rpe@);
    }
    let ghost events_part = kfs@;
    let empty = String::new();
    let ghost empty_text = empty;
    if rpe.len() > 0 && rpe[0].start_time.beats() != 0 {
        kfs.insert(0, Keyframe { time: 0, value: empty, tween: Tween::Plain(Ease::Hold) });
        proof {
            assert(kfs@ =~= seq![Keyframe { time: 0, value: empty_text, tween: Tween::Plain(Ease::Hold) }]
                + events_part);
        }
    }
    assert(kfs@ == text_frames(m, rpe@, empty_text));
    proof {
        broadcast use vstd::seq_lib::group_to_multiset_ensures;

        assert forall|i: int| 0 <= i < rpe@.len() implies kfs@.to_multiset().count(
            text_frame(m, #[trigger] rpe@[i]),
        ) > 0 by {
            assert(events_part[i] == text_frame(m, rpe@[i]));
            assert(kfs@.contains(text_frame(m, rpe@[i]))) by {
                if kfs@.len() > events_part.len() {
                    assert(kfs@[i + 1] == events_part[i]);
                } else {
                    assert(kfs@[i] == events_part[i]);
                }
            }
            kfs@.to_multiset_ensures();
        }
    }
    let ghost pre = kfs@;
    let a = Anim::sorted(kfs);
    proof {
        pre.to_multiset_ensures();
        a.keyframes@.to_multiset_ensures();
        assert(a.keyframes@.len() == pre.len());
    }
    Ok(a)
}

/// The text keyframes follow the events one for one.
proof fn lemma_text_frames(m: BpmList, evs: Seq<RpeTextEvent>)
    ensures
        text_event_frames(m, evs).len() == evs.len(),
        forall|i: int| 0 <= i < evs.len() ==> text_event_frames(m, evs)[i] == text_frame(m, #[trigger] evs[i]),
    decreases evs.len(),
{
    if evs.len() > 0 {
        lemma_text_frames(m, evs.drop_last());
        assert forall|i: int| 0 <= i < evs.len() implies text_event_frames(m, evs)[i] == text_frame(m, #[trigger] evs[i]) by {
            if i < evs.len() - 1 {
                assert(evs.drop_last()[i] == evs[i]);
            }
        }
    }
}

/// A property of a line that event layers animate.
#[derive(PartialEq, Eq, Structural, Clone, Copy, Debug)]
pub enum LayerProperty {
    Alpha,
    MoveX,
    MoveY,
    Rotate,
}

/// The events of a layer for one property.
pub open spec fn property_events(l: RpeEventLayer, p: LayerProperty) -> Option<Vec<RpeEvent>> {
    match p {
        LayerProperty::Alpha => l.alpha_events,
        LayerProperty::MoveX => l.move_x_events,
        LayerProperty::MoveY => l.move_y_events,
        LayerProperty::Rotate => l.rotate_events,
    }
}

fn events_of(l: &RpeEventLayer, p: LayerProperty) -> (r: &Option<Vec<RpeEvent>>)
    ensures
        *r == property_events(*l, p),
{
    match p {
        LayerProperty::Alpha => &l.alpha_events,
        LayerProperty::MoveX => &l.move_x_events,
        LayerProperty::MoveY => &l.move_y_events,
        LayerProperty::Rotate => &l.rotate_events,
    }
}

/// The events of every layer for one property are usable.
pub open spec fn layers_ok(layers: Seq<Option<RpeEventLayer>>, p: LayerProperty) -> bool {
    forall|i: int|
        0 <= i < layers.len() && layers[i] is Some && property_events(layers[i].unwrap(), p) is Some
            ==> events_ok(#[trigger] property_events(layers[i].unwrap(), p).unwrap()@)
}

/// The value an authored property value stands for: alpha out of 255
/// (negative alphas kept as they are), rotation turned the other way, moves as
/// shares of half the canvas.
pub open spec fn convert_value(p: LayerProperty, v: int) -> int {
    match p {
        LayerProperty::Alpha => if v >= 0 {
            v / 255
        } else {
            v
        },
        LayerProperty::MoveX => v * 2 / RPE_WIDTH as int,
        LayerProperty::MoveY => v * 2 / RPE_HEIGHT as int,
        LayerProperty::Rotate => -v,
    }
}

pub fn alpha_value(v: i64) -> (w: i64)
    requires
        v.fits(),
    ensures
        w == convert_value(LayerProperty::Alpha, v as int),
        w.fits(),
{
    if v >= 0 {
        v / 255
    } else {
        v
    }
}

pub fn move_x_value(v: i64) -> (w: i64)
    requires
        v.fits(),
    ensures
        w == convert_value(LayerProperty::MoveX, v as int),
        w.fits(),
{
    proof {
        crate::fixed::lemma_div_abs_bound(v * 2, RPE_WIDTH as int, RPE_WIDTH as int, MAX_VALUE as int);
    }
    floor_div(v as i128 * 2, RPE_WIDTH as i128) as i64
}

pub fn move_y_value(v: i64) -> (w: i64)
    requires
        v.fits(),
    ensures
        w == convert_value(LayerProperty::MoveY, v as int),
        w.fits(),
{
    proof {
        crate::fixed::lemma_div_abs_bound(v * 2, RPE_HEIGHT as int, RPE_HEIGHT as int, MAX_VALUE as int);
    }
    floor_div(v as i128 * 2, RPE_HEIGHT as i128) as i64
}

pub fn rotate_value(v: i64) -> (w: i64)
    requires
        v.fits(),
    ensures
        w == convert_value(LayerProperty::Rotate, v as int),
        w.fits(),
{
    -v
}

/// The keyframes of all layers' events for property `p`, layer after layer.
pub open spec fn layer_frames(m: BpmList, layers: Seq<Option<RpeEventLayer>>, p: LayerProperty) -> Seq<
    Keyframe<i64>,
>
    decreases layers.len(),
{
    if layers.len() == 0 {
        Seq::empty()
    } else {
        let rest = layer_frames(m, layers.drop_last(), p);
        match layers.last() {
            Some(l) => match property_events(l, p) {
                Some(evs) => rest + event_frames(m, evs@),
                None => rest,
            },
            None => rest,
        }
    }
}

/// A keyframe with its value converted as property `p` asks.
pub open spec fn converted_frame(p: LayerProperty, k: Keyframe<i64>) -> Keyframe<i64> {
    Keyframe { time: k.time, value: convert_value(p, k.value as int) as i64, tween: k.tween }
}

/// Event keyframes depend on the tempo map's segments alone.
proof fn lemma_event_frames_segments(a: BpmList, b: BpmList, evs: Seq<RpeEvent>)
    requires
        a.elements@ == b.elements@,
    ensures
        event_frames(a, evs) == event_frames(b, evs),
    decreases evs.len(),
{
    if evs.len() > 0 {
        lemma_event_frames_segments(a, b, evs.drop_last());
    }
}

/// Layer keyframes depend on the tempo map's segments alone.
proof fn lemma_layer_frames_segments(
    a: BpmList,
    b: BpmList,
    layers: Seq<Option<RpeEventLayer>>,
    p: LayerProperty,
)
    requires
        a.elements@ == b.elements@,
    ensures
        layer_frames(a, layers, p) == layer_frames(b, layers, p),
    decreases layers.len(),
{
    if layers.len() > 0 {
        lemma_layer_frames_segments(a, b, layers.drop_last(), p);
        if let Some(l) = layers.last() {
            if let Some(evs) = property_events(l, p) {
                lemma_event_frames_segments(a, b, evs@);
            }
        }
    }
}

/// The timeline of property `p` merged from all layers and converted.
pub open spec fn merged_property(a: Anim<i64>, m: BpmList, layers: Seq<Option<RpeEventLayer>>, p: LayerProperty) -> bool {
    a.wf() && a.keyframes@.to_multiset() == layer_frames(m, layers, p).map_values(
        |k: Keyframe<i64>| converted_frame(p, k),
    ).to_multiset()
}

/// Merges the events of all layers for property `p` into one timeline and
/// converts its values; the first unusable event list fails it.
pub fn layer_events(r: &mut BpmList, layers: &Vec<Option<RpeEventLayer>>, p: LayerProperty) -> (res:
    Result<Anim<i64>, ChartErrorKind>)
    requires
        old(r).wf(),
    ensures
        final(r).wf(),
        final(r).elements@ == old(r).elements@,
        res is Ok <==> layers_ok(layers@, p),
        res matches Err(k) ==> exists|i: int|
            0 <= i < layers@.len() && layers@[i] is Some && property_events(layers@[i].unwrap(), p)
                is Some && events_error(
                #[trigger] property_events(layers@[i].unwrap(), p).unwrap()@,
            ) == Some(k),
        res matches Ok(a) ==> merged_property(a, *old(r), layers@, p),
{
    let ghost m = *r;
    let mut anis: Vec<Anim<i64>> = Vec::new();
    let mut i: usize = 0;
    while i < layers.len()
        invariant
            r.wf(),
            r.elements@ == m.elements@,
            m == *old(r),
            i <= layers@.len(),
            forall|a: int| 0 <= a < anis@.len() ==> (#[trigger] anis@[a]).wf(),
            forall|a: int|
                0 <= a < i && layers@[a] is Some && property_events(layers@[a].unwrap(), p) is Some
                    ==> events_ok(#[trigger] property_events(layers@[a].unwrap(), p).unwrap()@),
            crate::anim::pooled(anis@).to_multiset() == layer_frames(m, layers@.take(i as int), p).to_multiset(),
        decreases layers@.len() - i,
    {
        proof {
            assert(layers@.take(i + 1).drop_last() =~= layers@.take(i as int));
        }
        if let Some(layer) = &layers[i] {
            if let Some(events) = events_of(layer, p) {
                proof {
                    lemma_events_error_none(events@);
                }
                let ghost before = anis@;
                let ghost r_call = *r;
                match parse_events(r, events) {
                    Ok(a) => {
                        anis.push(a);
                        proof {
                            lemma_event_frames_segments(r_call, m, events@);
                            assert(anis@.drop_last() =~= before);
                            vstd::seq_lib::lemma_multiset_commutative(crate::anim::pooled(before), a.keyframes@);
                            vstd::seq_lib::lemma_multiset_commutative(
                                layer_frames(m, layers@.take(i as int), p),
                                event_frames(m, events@),
                            );
                            assert(layer_frames(m, layers@.take(i + 1), p) == layer_frames(m, layers@.take(i as int), p)
                                + event_frames(m, events@));
                            assert(crate::anim::pooled(anis@) == crate::anim::pooled(before) + a.keyframes@);
                        }
                    },
                    Err(k) => {
                        proof {
                            assert(!layers_ok(layers@, p)) by {
                                assert(!events_ok(property_events(layers@[i as int].unwrap(), p).unwrap()@));
                            }
                        }
                        return Err(k);
                    },
                }
            } else {
                assert(layer_frames(m, layers@.take(i + 1), p) == layer_frames(m, layers@.take(i as int), p));
            }
        } else {
            assert(layer_frames(m, layers@.take(i + 1), p) == layer_frames(m, layers@.take(i as int), p));
        }
        i += 1;
    }
    proof {
        assert(layers@.take(layers@.len() as int) =~= layers@);
    }
    let mut res = Anim::chain(anis);
    let ghost merged = res.keyframes@;
    match p {
        LayerProperty::Alpha => res.map_value(alpha_value),
        LayerProperty::MoveX => res.map_value(move_x_value),
        LayerProperty::MoveY => res.map_value(move_y_value),
        LayerProperty::Rotate => res.map_value(rotate_value),
    }
    proof {
        assert(res.keyframes@ =~= merged.map_values(|k: Keyframe<i64>| converted_frame(p, k)));
        crate::anim::lemma_map_multiset(
            merged,
            layer_frames(m, layers@, p),
            |k: Keyframe<i64>| converted_frame(p, k),
        );
    }
    Ok(res)
}

/// The texture name that stands for a plain line.
pub open spec fn plain_texture_name() -> Seq<char> {
    seq!['l', 'i', 'n', 'e', '.', 'p', 'n', 'g']
}

/// Whether `name` is the plain-line texture name.
pub fn is_plain_texture(name: &String) -> (r: bool)
    ensures
        r == (name@ == plain_texture_name()),
{
    let s = name.as_str();
    if s.unicode_len() != 8 {
        return false;
    }
    let r = s.get_char(0) == 'l' && s.get_char(1) == 'i' && s.get_char(2) == 'n' && s.get_char(3)
        == 'e' && s.get_char(4) == '.' && s.get_char(5) == 'p' && s.get_char(6) == 'n'
        && s.get_char(7) == 'g';
    proof {
        if r {
            assert(name@ =~= plain_texture_name());
        }
    }
    r
}

/// Whether `name` is among the textures that could be had.
pub fn has_texture(textures: &Vec<String>, name: &String) -> (r: bool)
    ensures
        r == exists|i: int| 0 <= i < textures@.len() && (#[trigger] textures@[i])@ == name@,
{
    let mut i: usize = 0;
    while i < textures.len()
        invariant
            i <= textures@.len(),
            forall|j: int| 0 <= j < i ==> (#[trigger] textures@[j])@ != name@,
        decreases textures@.len() - i,
    {
        if textures[i] == *name {
            return true;
        }
        i += 1;
    }
    false
}

/// The parent a line names: none for a missing or negative index.
pub open spec fn parent_of(p: Option<i64>) -> Option<usize> {
    match p {
        None => None,
        Some(v) => if v < 0 || v > usize::MAX {
            None
        } else {
            Some(v as usize)
        },
    }
}

/// A parent index is missing, -1, or names one of `n` lines.
pub open spec fn parent_index_ok(p: Option<i64>, n: int) -> bool {
    match p {
        None => true,
        Some(v) => v == -1 || 0 <= v < n,
    }
}

/// The parent of a line, as `parent_of` says.
fn parent_exec(p: Option<i64>) -> (r: Option<usize>)
    ensures
        r == parent_of(p),
{
    match p {
        None => None,
        Some(v) => if v < 0 || v as u64 > usize::MAX as u64 {
            None
        } else {
            Some(v as usize)
        },
    }
}

/// How a line is drawn, or the error of a texture that could not be had.
pub open spec fn kind_ok(rpe: RpeJudgeLine, textures: Seq<String>) -> bool {
    rpe.texture@ == plain_texture_name() || exists|i: int|
        0 <= i < textures.len() && (#[trigger] textures[i])@ == rpe.texture@
}

/// The scale events of a line's extended events, if any.
pub open spec fn scale_x_of(rpe: RpeJudgeLine) -> Option<Vec<RpeEvent>> {
    match rpe.extended {
        Some(e) => e.scale_x_events,
        None => None,
    }
}

/// The vertical scale events of a line's extended events, if any.
pub open spec fn scale_y_of(rpe: RpeJudgeLine) -> Option<Vec<RpeEvent>> {
    match rpe.extended {
        Some(e) => e.scale_y_events,
        None => None,
    }
}

/// The colour events of a line's extended events, if any.
pub open spec fn colors_of(rpe: RpeJudgeLine) -> Option<Vec<RpeColorEvent>> {
    match rpe.extended {
        Some(e) => e.color_events,
        None => None,
    }
}

/// A scale timeline built from scale events: their keyframes, with values
/// taken as they are for a plain line and as shares of half the canvas width
/// for a textured one; empty without events.
pub open spec fn scale_timeline(a: Anim<i64>, m: BpmList, evs: Option<Vec<RpeEvent>>, plain: bool) -> bool {
    &&& a.wf()
    &&& match evs {
        None => a.keyframes@.len() == 0,
        Some(v) => a.keyframes@.to_multiset() == (if plain {
            event_frames(m, v@)
        } else {
            event_frames(m, v@).map_values(|k: Keyframe<i64>| converted_frame(LayerProperty::MoveX, k))
        }).to_multiset(),
    }
}

/// A colour timeline built from colour events; empty without events.
pub open spec fn color_timeline(a: Anim<Color>, m: BpmList, evs: Option<Vec<RpeColorEvent>>) -> bool {
    &&& a.wf()
    &&& match evs {
        None => a.keyframes@.len() == 0,
        Some(v) => a.keyframes@.to_multiset() == color_frames(m, v@).to_multiset(),
    }
}

/// Colour keyframes depend on the tempo map's segments alone.
proof fn lemma_color_frames_segments(a: BpmList, b: BpmList, evs: Seq<RpeColorEvent>)
    requires
        a.elements@ == b.elements@,
    ensures
        color_event_frames(a, evs) == color_event_frames(b, evs),
        color_frames(a, evs) == color_frames(b, evs),
    decreases evs.len(),
{
    if evs.len() > 0 {
        lemma_color_frames_segments(a, b, evs.drop_last());
    }
}

/// Optional scale events are usable.
pub open spec fn scale_ok(evs: Option<Vec<RpeEvent>>) -> bool {
    match evs {
        None => true,
        Some(v) => events_error(v@) is None,
    }
}

/// Optional colour events all start at valid beat positions.
pub open spec fn colors_ok(evs: Option<Vec<RpeColorEvent>>) -> bool {
    match evs {
        None => true,
        Some(v) => forall|i: int| 0 <= i < v@.len() ==> triple_ok(#[trigger] v@[i].start_time),
    }
}

/// The text events of a plain line, if it has any.
pub open spec fn texts_of(rpe: RpeJudgeLine) -> Option<Vec<RpeTextEvent>> {
    if rpe.texture@ == plain_texture_name() {
        match rpe.extended {
            Some(e) => e.text_events,
            None => None,
        }
    } else {
        None
    }
}

/// Optional text events all start at valid beat positions.
pub open spec fn texts_ok(evs: Option<Vec<RpeTextEvent>>) -> bool {
    match evs {
        None => true,
        Some(v) => forall|i: int| 0 <= i < v@.len() ==> triple_ok(#[trigger] v@[i].start_time),
    }
}

/// Every step of assembling judge line `rpe` succeeds: its texture can be
/// had, its speed events integrate within bounds, and its notes, layered
/// events, scale, text and colour events are usable.
pub open spec fn line_ok(m: BpmList, rpe: RpeJudgeLine, max_time: i64, textures: Seq<String>) -> bool {
    &&& kind_ok(rpe, textures)
    &&& speed_ok(m, rpe.event_layers@, max_time)
    &&& (rpe.notes matches Some(ns) ==> notes_error(ns@) is None)
    &&& layers_ok(rpe.event_layers@, LayerProperty::Alpha)
    &&& layers_ok(rpe.event_layers@, LayerProperty::Rotate)
    &&& layers_ok(rpe.event_layers@, LayerProperty::MoveX)
    &&& layers_ok(rpe.event_layers@, LayerProperty::MoveY)
    &&& scale_ok(scale_x_of(rpe))
    &&& scale_ok(scale_y_of(rpe))
    &&& texts_ok(texts_of(rpe))
    &&& colors_ok(colors_of(rpe))
}

/// Builds a scale timeline from optional scale events.
fn scale_events(r: &mut BpmList, evs: &Option<Vec<RpeEvent>>, plain: bool) -> (res: Result<
    Anim<i64>,
    ChartErrorKind,
>)
    requires
        old(r).wf(),
    ensures
        final(r).wf(),
        final(r).elements@ == old(r).elements@,
        res is Err <==> !scale_ok(*evs),
        res matches Ok(a) ==> scale_timeline(a, *old(r), *evs, plain),
{
    match evs {
        None => Ok(Anim::empty()),
        Some(v) => {
            let mut a = match parse_events(r, v) {
                Ok(a) => a,
                Err(k) => {
                    return Err(k);
                },
            };
            if !plain {
                let ghost before = a.keyframes@;
                a.map_value(move_x_value);
                proof {
                    assert(a.keyframes@ =~= before.map_values(
                        |k: Keyframe<i64>| converted_frame(LayerProperty::MoveX, k),
                    ));
                    crate::anim::lemma_map_multiset(
                        before,
                        event_frames(*old(r), v@),
                        |k: Keyframe<i64>| converted_frame(LayerProperty::MoveX, k),
                    );
                }
            }
            Ok(a)
        },
    }
}

/// Builds a colour timeline from optional colour events.
fn color_events(r: &mut BpmList, evs: &Option<Vec<RpeColorEvent>>) -> (res: Result<
    Anim<Color>,
    ChartErrorKind,
>)
    requires
        old(r).wf(),
    ensures
        final(r).wf(),
        final(r).elements@ == old(r).elements@,
        res is Err <==> !colors_ok(*evs),
        res matches Ok(a) ==> color_timeline(a, *old(r), *evs),
        res matches Err(k) ==> k == ChartErrorKind::ValueOutOfRange,
{
    match evs {
        None => Ok(Anim::empty()),
        Some(v) => parse_color_events(r, v),
    }
}

/// `line` is judge line `rpe` assembled against tempo map `m` with times
/// running to `max_time`: parent, cover flag and look as authored, notes
/// placed on the height timeline, the height integrated from the speed
/// events, and the transform merged from the event layers.
pub open spec fn line_assembled(line: JudgeLine, m: BpmList, rpe: RpeJudgeLine, max_time: i64) -> bool {
    &&& line.height.wf()
    &&& line.object.wf()
    &&& line.parent == parent_of(rpe.parent)
    &&& line.show_below == (rpe.is_cover != 1)
    &&& (rpe.texture@ != plain_texture_name() ==> line.kind == JudgeLineKind::Texture(
        rpe.texture,
    ))
    &&& (rpe.texture@ == plain_texture_name() && (rpe.extended is None
        || rpe.extended.unwrap().text_events is None) ==> line.kind == JudgeLineKind::Normal)
    &&& line.notes@.len() == match rpe.notes {
        Some(ns) => ns@.len(),
        None => 0,
    }
    &&& forall|i: int|
        0 <= i < line.notes@.len() ==> note_matches(
            #[trigger] line.notes@[i],
            m,
            line.height,
            rpe.notes.unwrap()@[i],
        )
    &&& (has_speed(rpe.event_layers@) ==> integrates_speed_of(
        line.height,
        m,
        rpe.event_layers@,
        max_time,
    ))
    &&& (!has_speed(rpe.event_layers@) ==> line.height.keyframes@.len() == 0)
    &&& merged_property(line.object.alpha, m, rpe.event_layers@, LayerProperty::Alpha)
    &&& merged_property(line.object.rotation, m, rpe.event_layers@, LayerProperty::Rotate)
    &&& merged_property(line.object.translation.0, m, rpe.event_layers@, LayerProperty::MoveX)
    &&& merged_property(line.object.translation.1, m, rpe.event_layers@, LayerProperty::MoveY)
    &&& scale_timeline(line.object.scale.0, m, scale_x_of(rpe), rpe.texture@ == plain_texture_name())
    &&& scale_timeline(line.object.scale.1, m, scale_y_of(rpe), rpe.texture@ == plain_texture_name())
    &&& color_timeline(line.color, m, colors_of(rpe))
    &&& (texts_of(rpe) matches Some(v) ==> (line.kind matches JudgeLineKind::Text(a) && text_timeline(
        a,
        m,
        v@,
    )))
}

/// A text timeline built from text events.
pub open spec fn text_timeline(a: Anim<String>, m: BpmList, evs: Seq<RpeTextEvent>) -> bool {
    &&& a.wf()
    &&& exists|empty: String|
        empty@.len() == 0 && a.keyframes@ == stable_sort(#[trigger] text_frames(m, evs, empty))
}

/// Text keyframes depend on the tempo map's segments alone.
proof fn lemma_text_frames_segments(a: BpmList, b: BpmList, evs: Seq<RpeTextEvent>)
    requires
        a.elements@ == b.elements@,
    ensures
        text_event_frames(a, evs) == text_event_frames(b, evs),
        forall|e: String| text_frames(a, evs, e) == #[trigger] text_frames(b, evs, e),
    decreases evs.len(),
{
    if evs.len() > 0 {
        lemma_text_frames_segments(a, b, evs.drop_last());
    }
}

/// A text timeline's description depends on the tempo map's segments alone.
proof fn lemma_text_timeline_segments(x: Anim<String>, a: BpmList, b: BpmList, evs: Seq<RpeTextEvent>)
    requires
        a.elements@ == b.elements@,
        text_timeline(x, a, evs),
    ensures
        text_timeline(x, b, evs),
{
    lemma_text_frames_segments(a, b, evs);
    let e = choose|empty: String|
        empty@.len() == 0 && x.keyframes@ == stable_sort(#[trigger] text_frames(a, evs, empty));
    assert(text_frames(a, evs, e) == text_frames(b, evs, e));
}

/// Speed keyframes of all layers depend on the tempo map's segments alone.
proof fn lemma_layer_speed_frames_segments(a: BpmList, b: BpmList, layers: Seq<Option<RpeEventLayer>>)
    requires
        a.elements@ == b.elements@,
    ensures
        layer_speed_frames(a, layers) == layer_speed_frames(b, layers),
    decreases layers.len(),
{
    if layers.len() > 0 {
        lemma_layer_speed_frames_segments(a, b, layers.drop_last());
        if let Some(l) = layers.last() {
            if let Some(evs) = l.speed_events {
                lemma_speed_frames_segments(a, b, evs@);
            }
        }
    }
}

/// What an assembled line is depends on the tempo map's segments alone.
proof fn lemma_line_assembled_segments(
    line: JudgeLine,
    a: BpmList,
    b: BpmList,
    rpe: RpeJudgeLine,
    max_time: i64,
)
    requires
        a.elements@ == b.elements@,
        line_assembled(line, a, rpe, max_time),
    ensures
        line_assembled(line, b, rpe, max_time),
{
    let layers = rpe.event_layers@;
    lemma_layer_speed_frames_segments(a, b, layers);
    lemma_layer_frames_segments(a, b, layers, LayerProperty::Alpha);
    lemma_layer_frames_segments(a, b, layers, LayerProperty::Rotate);
    lemma_layer_frames_segments(a, b, layers, LayerProperty::MoveX);
    lemma_layer_frames_segments(a, b, layers, LayerProperty::MoveY);
    lemma_event_frames_segments(a, b, match scale_x_of(rpe) { Some(v) => v@, None => Seq::empty() });
    lemma_event_frames_segments(a, b, match scale_y_of(rpe) { Some(v) => v@, None => Seq::empty() });
    lemma_color_frames_segments(a, b, match colors_of(rpe) { Some(v) => v@, None => Seq::empty() });
    if let Some(v) = texts_of(rpe) {
        if let JudgeLineKind::Text(x) = line.kind {
            lemma_text_timeline_segments(x, a, b, v@);
        }
    }
    if has_speed(layers) {
        let (sp, pts) = choose|sp: Anim<i64>, pts: Seq<i64>|
            speed_source(sp, pts, a, layers, max_time) && #[trigger] heights_over(line.height, sp, pts);
        assert(speed_source(sp, pts, b, layers, max_time));
        assert(integrates_speed_of(line.height, b, layers, max_time));
    }
    assert forall|i: int| 0 <= i < line.notes@.len() implies note_matches(
        #[trigger] line.notes@[i],
        b,
        line.height,
        rpe.notes.unwrap()@[i],
    ) by {
        assert(note_matches(line.notes@[i], a, line.height, rpe.notes.unwrap()@[i]));
    }
}

/// The tempo map built from a tempo list: its segments start at the listed
/// beats with the listed tempos.
pub open spec fn tempo_map_of(m: BpmList, items: Seq<RpeBpmItem>) -> bool {
    &&& m.wf()
    &&& m.elements@.len() == items.len()
    &&& forall|i: int|
        0 <= i < items.len() ==> (#[trigger] m.elements@[i]).0 == items[i].start_time.spec_beats()
            && m.elements@[i].2 == items[i].bpm
}

/// Every line of `c` is the matching authored line assembled against tempo
/// map `m`, with times running to `max_time`.
pub open spec fn lines_assembled(c: Chart, m: BpmList, lines: Seq<RpeJudgeLine>, max_time: i64) -> bool {
    &&& c.lines@.len() == lines.len()
    &&& forall|i: int| 0 <= i < lines.len() ==> line_assembled(#[trigger] c.lines@[i], m, lines[i], max_time)
}

/// Assembles one judge line: its height from its speed events, its notes
/// placed on that height, its transform from its event layers and extended
/// events, its look from its texture, and its colour.
pub fn parse_judge_line(
    r: &mut BpmList,
    rpe: &RpeJudgeLine,
    max_time: i64,
    textures: &Vec<String>,
) -> (res: Result<JudgeLine, ChartErrorKind>)
    requires
        old(r).wf(),
        crate::speed::SAMPLE_GAP - MAX_TIME <= max_time <= MAX_TIME,
    ensures
        final(r).wf(),
        final(r).elements@ == old(r).elements@,
        line_ok(*old(r), *rpe, max_time, textures@) ==> res is Ok,
        !kind_ok(*rpe, textures@) ==> res == Err::<JudgeLine, ChartErrorKind>(
            ChartErrorKind::MissingOrUnreadableTexture(rpe.texture),
        ),
        !speed_layers_ok(rpe.event_layers@) ==> res is Err,
        rpe.notes matches Some(ns) && notes_error(ns@) is Some ==> res is Err,
        (kind_ok(*rpe, textures@) && speed_ok(*old(r), rpe.event_layers@, max_time)
            && rpe.notes is Some && notes_error(rpe.notes.unwrap()@) is Some) ==> res
            == Err::<JudgeLine, ChartErrorKind>(notes_error(rpe.notes.unwrap()@).unwrap()),
        !layers_ok(rpe.event_layers@, LayerProperty::Alpha) ==> res is Err,
        !layers_ok(rpe.event_layers@, LayerProperty::Rotate) ==> res is Err,
        !layers_ok(rpe.event_layers@, LayerProperty::MoveX) ==> res is Err,
        !layers_ok(rpe.event_layers@, LayerProperty::MoveY) ==> res is Err,
        !scale_ok(scale_x_of(*rpe)) ==> res is Err,
        !scale_ok(scale_y_of(*rpe)) ==> res is Err,
        !texts_ok(texts_of(*rpe)) ==> res is Err,
        !colors_ok(colors_of(*rpe)) ==> res is Err,
        res matches Ok(line) ==> line_assembled(line, *old(r), *rpe, max_time),
{
    let ghost m = *r;
    let plain = is_plain_texture(&rpe.texture);
    if !plain && !has_texture(textures, &rpe.texture) {
        return Err(ChartErrorKind::MissingOrUnreadableTexture(rpe.texture.clone()));
    }
    let mut height = match parse_speed_events(r, &rpe.event_layers, max_time) {
        Ok(h) => h,
        Err(k) => {
            return Err(k);
        },
    };
    let ghost h0 = height;
    let notes = match &rpe.notes {
        Some(ns) => match parse_notes(r, ns, &mut height) {
            Ok(v) => v,
            Err(k) => {
                return Err(k);
            },
        },
        None => Vec::new(),
    };
    let ghost r_alpha = *r;
    let alpha = match layer_events(r, &rpe.event_layers, LayerProperty::Alpha) {
        Ok(a) => a,
        Err(k) => {
            return Err(k);
        },
    };
    let ghost r_rotation = *r;
    let rotation = match layer_events(r, &rpe.event_layers, LayerProperty::Rotate) {
        Ok(a) => a,
        Err(k) => {
            return Err(k);
        },
    };
    let ghost r_move_x = *r;
    let move_x = match layer_events(r, &rpe.event_layers, LayerProperty::MoveX) {
        Ok(a) => a,
        Err(k) => {
            return Err(k);
        },
    };
    let ghost r_move_y = *r;
    let move_y = match layer_events(r, &rpe.event_layers, LayerProperty::MoveY) {
        Ok(a) => a,
        Err(k) => {
            return Err(k);
        },
    };
    proof {
        if has_speed(rpe.event_layers@) {
            let (s, pts) = choose|s: Anim<i64>, pts: Seq<i64>|
                speed_source(s, pts, m, rpe.event_layers@, max_time) && #[trigger] heights_over(h0, s, pts);
            assert(heights_over(height, s, pts));
            assert(integrates_speed_of(height, m, rpe.event_layers@, max_time));
        }
        lemma_layer_frames_segments(r_alpha, m, rpe.event_layers@, LayerProperty::Alpha);
        lemma_layer_frames_segments(r_rotation, m, rpe.event_layers@, LayerProperty::Rotate);
        lemma_layer_frames_segments(r_move_x, m, rpe.event_layers@, LayerProperty::MoveX);
        lemma_layer_frames_segments(r_move_y, m, rpe.event_layers@, LayerProperty::MoveY);
        assert(merged_property(alpha, m, rpe.event_layers@, LayerProperty::Alpha));
        assert(merged_property(rotation, m, rpe.event_layers@, LayerProperty::Rotate));
        assert(merged_property(move_x, m, rpe.event_layers@, LayerProperty::MoveX));
        assert(merged_property(move_y, m, rpe.event_layers@, LayerProperty::MoveY));
    }
    let ghost r_scale_x = *r;
    let scale_x = match scale_events(r, if let Some(ext) = &rpe.extended { &ext.scale_x_events } else { &None }, plain) {
        Ok(a) => a,
        Err(k) => {
            return Err(k);
        },
    };
    let ghost r_scale_y = *r;
    let scale_y = match scale_events(r, if let Some(ext) = &rpe.extended { &ext.scale_y_events } else { &None }, plain) {
        Ok(a) => a,
        Err(k) => {
            return Err(k);
        },
    };
    let mut kind = if plain {
        JudgeLineKind::Normal
    } else {
        JudgeLineKind::Texture(rpe.texture.clone())
    };
    if plain {
        if let Some(ext) = &rpe.extended {
            if let Some(evs) = &ext.text_events {
                let ghost r_text = *r;
                match parse_text_events(r, evs) {
                    Ok(a) => {
                        proof {
                            assert(text_timeline(a, r_text, evs@));
                            lemma_text_timeline_segments(a, r_text, m, evs@);
                        }
                        kind = JudgeLineKind::Text(a);
                    },
                    Err(k) => {
                        return Err(k);
                    },
                }
            }
        }
    }
    let ghost r_color = *r;
    let color = match color_events(r, if let Some(ext) = &rpe.extended { &ext.color_events } else { &None }) {
        Ok(a) => a,
        Err(k) => {
            return Err(k);
        },
    };
    proof {
        lemma_event_frames_segments(r_scale_x, m, match scale_x_of(*rpe) { Some(v) => v@, None => Seq::empty() });
        lemma_event_frames_segments(r_scale_y, m, match scale_y_of(*rpe) { Some(v) => v@, None => Seq::empty() });
        lemma_color_frames_segments(r_color, m, match colors_of(*rpe) { Some(v) => v@, None => Seq::empty() });
    }
    let parent = parent_exec(rpe.parent);
    Ok(
        JudgeLine {
            object: Object { alpha, rotation, translation: (move_x, move_y), scale: (scale_x, scale_y) },
            height,
            notes,
            kind,
            color,
            parent,
            show_below: rpe.is_cover != 1,
        },
    )
}

/// A tempo list the tempo map accepts: not empty, every change at a valid
/// non-negative beat with an accepted tempo, in beat order.
pub open spec fn bpm_list_ok(items: Seq<RpeBpmItem>) -> bool {
    &&& items.len() >= 1
    &&& forall|i: int|
        0 <= i < items.len() ==> {
            &&& triple_ok(#[trigger] items[i].start_time)
            &&& 0 <= items[i].start_time.spec_beats()
            &&& MIN_BPM <= items[i].bpm <= MAX_BPM
        }
    &&& forall|i: int, j: int|
        0 <= i <= j < items.len() ==> items[i].start_time.spec_beats()
            <= items[j].start_time.spec_beats()
}

/// Following parents from line `i` reaches a line without a parent within
/// `fuel` steps.
pub open spec fn reaches_root(p: Seq<Option<usize>>, i: int, fuel: nat) -> bool
    decreases fuel,
{
    match p[i] {
        None => true,
        Some(j) => fuel > 0 && reaches_root(p, j as int, (fuel - 1) as nat),
    }
}

/// Every parent names a line and no chain of parents comes back on itself.
pub open spec fn parents_ok(p: Seq<Option<usize>>) -> bool {
    &&& forall|i: int| 0 <= i < p.len() && (#[trigger] p[i]) is Some ==> p[i].unwrap() < p.len()
    &&& forall|i: int| 0 <= i < p.len() ==> #[trigger] reaches_root(p, i, p.len() as nat)
}

/// Whether following parents from line `i` reaches a root within `fuel` steps.
fn walk_to_root(p: &Vec<Option<usize>>, i: usize, fuel: usize) -> (r: bool)
    requires
        i < p@.len(),
        forall|k: int| 0 <= k < p@.len() && (#[trigger] p@[k]) is Some ==> p@[k].unwrap() < p@.len(),
    ensures
        r == reaches_root(p@, i as int, fuel as nat),
{
    let mut cur = i;
    let mut k = fuel;
    loop
        invariant
            cur < p@.len(),
            forall|a: int| 0 <= a < p@.len() && (#[trigger] p@[a]) is Some ==> p@[a].unwrap() < p@.len(),
            reaches_root(p@, i as int, fuel as nat) == reaches_root(p@, cur as int, k as nat),
        decreases k,
    {
        match p[cur] {
            None => {
                return true;
            },
            Some(j) => {
                if k == 0 {
                    return false;
                }
                cur = j;
                k -= 1;
            },
        }
    }
}

/// The parents of the lines, checked: each names a line, and no chain of
/// parents loops.
pub fn check_parents(p: &Vec<Option<usize>>) -> (r: bool)
    ensures
        r == parents_ok(p@),
{
    let n = p.len();
    let mut i: usize = 0;
    while i < n
        invariant
            n == p@.len(),
            i <= n,
            forall|k: int| 0 <= k < i && (#[trigger] p@[k]) is Some ==> p@[k].unwrap() < n,
        decreases n - i,
    {
        if let Some(j) = p[i] {
            if j >= n {
                return false;
            }
        }
        i += 1;
    }
    let mut i: usize = 0;
    while i < n
        invariant
            n == p@.len(),
            i <= n,
            forall|k: int| 0 <= k < n && (#[trigger] p@[k]) is Some ==> p@[k].unwrap() < n,
            forall|k: int| 0 <= k < i ==> #[trigger] reaches_root(p@, k, n as nat),
        decreases n - i,
    {
        if !walk_to_root(p, i, n) {
            return false;
        }
        i += 1;
    }
    true
}

/// The end positions of optional value events.
pub open spec fn event_ends(evs: Option<Vec<RpeEvent>>) -> Seq<Triple> {
    match evs {
        Some(v) => v@.map_values(|e: RpeEvent| e.end_time),
        None => Seq::empty(),
    }
}

/// The start and end positions of speed events, event by event.
pub open spec fn speed_times(evs: Seq<RpeSpeedEvent>) -> Seq<Triple>
    decreases evs.len(),
{
    if evs.len() == 0 {
        Seq::empty()
    } else {
        speed_times(evs.drop_last()) + seq![evs.last().start_time, evs.last().end_time]
    }
}

/// The positions of a layer that bound the chart's length.
pub open spec fn layer_triples(l: RpeEventLayer) -> Seq<Triple> {
    event_ends(l.alpha_events) + event_ends(l.move_x_events) + event_ends(l.move_y_events)
        + event_ends(l.rotate_events) + match l.speed_events {
        Some(v) => speed_times(v@),
        None => Seq::empty(),
    }
}

/// The positions of all layers that bound the chart's length.
pub open spec fn layers_triples(ls: Seq<Option<RpeEventLayer>>) -> Seq<Triple>
    decreases ls.len(),
{
    if ls.len() == 0 {
        Seq::empty()
    } else {
        layers_triples(ls.drop_last()) + match ls.last() {
            Some(l) => layer_triples(l),
            None => Seq::empty(),
        }
    }
}

/// The positions of a line that bound the chart's length: note starts, ends
/// of value events, starts and ends of speed events, ends of scale and text
/// events.
pub open spec fn line_triples(line: RpeJudgeLine) -> Seq<Triple> {
    let notes = match line.notes {
        Some(ns) => ns@.map_values(|n: RpeNote| n.start_time),
        None => Seq::empty(),
    };
    let ext = match line.extended {
        Some(e) => event_ends(e.scale_x_events) + event_ends(e.scale_y_events) + match e.text_events {
            Some(v) => v@.map_values(|t: RpeTextEvent| t.end_time),
            None => Seq::empty(),
        },
        None => Seq::empty(),
    };
    notes + layers_triples(line.event_layers@) + ext
}

/// The positions of all lines that bound the chart's length.
pub open spec fn chart_triples(lines: Seq<RpeJudgeLine>) -> Seq<Triple>
    decreases lines.len(),
{
    if lines.len() == 0 {
        Seq::empty()
    } else {
        chart_triples(lines.drop_last()) + line_triples(lines.last())
    }
}

/// The latest of `acc` and the times of positions `ts`.
pub open spec fn latest(m: BpmList, acc: int, ts: Seq<Triple>) -> int
    decreases ts.len(),
{
    if ts.len() == 0 {
        acc
    } else {
        let a = latest(m, acc, ts.drop_last());
        let t = m.time_of(ts.last().spec_beats());
        if t > a {
            t
        } else {
            a
        }
    }
}

/// The chart's end time: one second after the latest of the positions of
/// `line_triples` (note starts, value, scale and text event ends, and speed
/// event starts and ends), and no earlier than one second. Counting speed
/// events keeps the height timeline's last keyframe at the end.
pub open spec fn chart_end(m: BpmList, lines: Seq<RpeJudgeLine>) -> int {
    latest(m, 0, chart_triples(lines)) + SECOND
}

/// All positions are valid beat positions.
pub open spec fn triples_ok(ts: Seq<Triple>) -> bool {
    forall|i: int| 0 <= i < ts.len() ==> triple_ok(#[trigger] ts[i])
}

proof fn lemma_latest_concat(m: BpmList, a: int, s: Seq<Triple>, t: Seq<Triple>)
    ensures
        latest(m, a, s + t) == latest(m, latest(m, a, s), t),
    decreases t.len(),
{
    if t.len() == 0 {
        assert(s + t =~= s);
    } else {
        assert((s + t).drop_last() =~= s + t.drop_last());
        lemma_latest_concat(m, a, s, t.drop_last());
    }
}

fn push_event_ends(out: &mut Vec<Triple>, evs: &Option<Vec<RpeEvent>>)
    ensures
        final(out)@ == old(out)@ + event_ends(*evs),
{
    if let Some(v) = evs {
        let ghost o = out@;
        let mut i: usize = 0;
        while i < v.len()
            invariant
                i <= v@.len(),
                out@ == o + v@.take(i as int).map_values(|e: RpeEvent| e.end_time),
            decreases v@.len() - i,
        {
            out.push(v[i].end_time);
            proof {
                assert(v@.take(i + 1).map_values(|e: RpeEvent| e.end_time) =~= v@.take(i as int).map_values(
                    |e: RpeEvent| e.end_time,
                ).push(v@[i as int].end_time));
            }
            i += 1;
        }
        proof {
            assert(v@.take(v@.len() as int) =~= v@);
        }
    } else {
        assert(out@ =~= old(out)@ + event_ends(*evs));
    }
}

fn push_speed_times(out: &mut Vec<Triple>, evs: &Option<Vec<RpeSpeedEvent>>)
    ensures
        final(out)@ == old(out)@ + match *evs {
            Some(v) => speed_times(v@),
            None => Seq::empty(),
        },
{
    if let Some(v) = evs {
        let ghost o = out@;
        let mut i: usize = 0;
        while i < v.len()
            invariant
                i <= v@.len(),
                out@ == o + speed_times(v@.take(i as int)),
            decreases v@.len() - i,
        {
            out.push(v[i].start_time);
            out.push(v[i].end_time);
            proof {
                assert(v@.take(i + 1).drop_last() =~= v@.take(i as int));
                assert(out@ =~= o + speed_times(v@.take(i + 1)));
            }
            i += 1;
        }
        proof {
            assert(v@.take(v@.len() as int) =~= v@);
        }
    } else {
        assert(out@ =~= old(out)@ + Seq::<Triple>::empty());
    }
}

/// The positions of a line that bound the chart's length, collected.
fn collect_triples(line: &RpeJudgeLine) -> (v: Vec<Triple>)
    ensures
        v@ == line_triples(*line),
{
    let mut out: Vec<Triple> = Vec::new();
    if let Some(ns) = &line.notes {
        let mut i: usize = 0;
        while i < ns.len()
            invariant
                i <= ns@.len(),
                out@ == ns@.take(i as int).map_values(|n: RpeNote| n.start_time),
            decreases ns@.len() - i,
        {
            out.push(ns[i].start_time);
            proof {
                assert(ns@.take(i + 1).map_values(|n: RpeNote| n.start_time) =~= ns@.take(i as int).map_values(
                    |n: RpeNote| n.start_time,
                ).push(ns@[i as int].start_time));
            }
            i += 1;
        }
        proof {
            assert(ns@.take(ns@.len() as int) =~= ns@);
        }
    }
    let ghost notes_part = out@;
    let ls = &line.event_layers;
    let mut i: usize = 0;
    while i < ls.len()
        invariant
            i <= ls@.len(),
            out@ == notes_part + layers_triples(ls@.take(i as int)),
        decreases ls@.len() - i,
    {
        proof {
            assert(ls@.take(i + 1).drop_last() =~= ls@.take(i as int));
        }
        let ghost before = out@;
        if let Some(l) = &ls[i] {
            push_event_ends(&mut out, &l.alpha_events);
            push_event_ends(&mut out, &l.move_x_events);
            push_event_ends(&mut out, &l.move_y_events);
            push_event_ends(&mut out, &l.rotate_events);
            push_speed_times(&mut out, &l.speed_events);
            proof {
                assert(out@ =~= before + layer_triples(*l));
            }
        }
        proof {
            assert(out@ =~= notes_part + layers_triples(ls@.take(i + 1)));
        }
        i += 1;
    }
    proof {
        assert(ls@.take(ls@.len() as int) =~= ls@);
    }
    let ghost layers_part = out@;
    if let Some(e) = &line.extended {
        push_event_ends(&mut out, &e.scale_x_events);
        push_event_ends(&mut out, &e.scale_y_events);
        let ghost before = out@;
        if let Some(v) = &e.text_events {
            let mut j: usize = 0;
            while j < v.len()
                invariant
                    j <= v@.len(),
                    out@ == before + v@.take(j as int).map_values(|t: RpeTextEvent| t.end_time),
                decreases v@.len() - j,
            {
                out.push(v[j].end_time);
                proof {
                    assert(v@.take(j + 1).map_values(|t: RpeTextEvent| t.end_time) =~= v@.take(j as int).map_values(
                        |t: RpeTextEvent| t.end_time,
                    ).push(v@[j as int].end_time));
                }
                j += 1;
            }
            proof {
                assert(v@.take(v@.len() as int) =~= v@);
            }
        }
        proof {
            assert(out@ =~= layers_part + (event_ends(e.scale_x_events) + event_ends(e.scale_y_events)
                + match e.text_events {
                Some(v) => v@.map_values(|t: RpeTextEvent| t.end_time),
                None => Seq::empty(),
            }));
        }
    }
    proof {
        assert(out@ =~= line_triples(*line));
    }
    out
}

/// The latest of `acc` and the times of positions `ts`, or `None` when one of
/// them is not a valid beat position.
fn latest_time(r: &mut BpmList, acc: i64, ts: &Vec<Triple>) -> (res: Option<i64>)
    requires
        old(r).wf(),
        0 <= acc <= MAX_TIME,
    ensures
        final(r).wf(),
        final(r).elements@ == old(r).elements@,
        res is None <==> !triples_ok(ts@),
        res matches Some(v) ==> v == latest(*old(r), acc as int, ts@) && acc <= v <= MAX_TIME,
{
    let ghost m = *r;
    let mut cur = acc;
    let mut i: usize = 0;
    while i < ts.len()
        invariant
            r.wf(),
            r.elements@ == m.elements@,
            m == *old(r),
            i <= ts@.len(),
            acc <= cur <= MAX_TIME,
            cur == latest(m, acc as int, ts@.take(i as int)),
            forall|k: int| 0 <= k < i ==> triple_ok(#[trigger] ts@[k]),
        decreases ts@.len() - i,
    {
        proof {
            assert(ts@.take(i + 1).drop_last() =~= ts@.take(i as int));
        }
        if !check_triple(&ts[i]) {
            return None;
        }
        let t = r.time(&ts[i]);
        if t > cur {
            cur = t;
        }
        i += 1;
    }
    proof {
        assert(ts@.take(ts@.len() as int) =~= ts@);
    }
    Some(cur)
}

/// The parents the lines name.
pub open spec fn parent_list(lines: Seq<RpeJudgeLine>) -> Seq<Option<usize>> {
    lines.map_values(|l: RpeJudgeLine| parent_of(l.parent))
}

/// An error outside any line.
fn chart_error(kind: ChartErrorKind) -> (e: ChartError)
    ensures
        e.line is None,
        e.kind == kind,
{
    ChartError { line: None, line_name: String::new(), kind }
}

/// The latest time depends on the tempo map's segments alone.
proof fn lemma_latest_segments(a: BpmList, b: BpmList, acc: int, ts: Seq<Triple>)
    requires
        a.elements@ == b.elements@,
    ensures
        latest(a, acc, ts) == latest(b, acc, ts),
    decreases ts.len(),
{
    if ts.len() > 0 {
        lemma_latest_segments(a, b, acc, ts.drop_last());
    }
}

/// Two tempo maps built from one tempo list have the same segments.
proof fn lemma_tempo_map_unique(a: BpmList, b: BpmList, items: Seq<RpeBpmItem>)
    requires
        tempo_map_of(a, items),
        tempo_map_of(b, items),
    ensures
        a.elements@ == b.elements@,
{
    let ea = a.elements@;
    let eb = b.elements@;
    assert forall|i: int| 0 <= i < ea.len() implies ea[i] == eb[i] by {
        lemma_tempo_prefix_equal(a, b, items, i);
    }
    assert(ea =~= eb);
}

proof fn lemma_tempo_prefix_equal(a: BpmList, b: BpmList, items: Seq<RpeBpmItem>, i: int)
    requires
        tempo_map_of(a, items),
        tempo_map_of(b, items),
        0 <= i < items.len(),
    ensures
        a.elements@[i] == b.elements@[i],
    decreases i,
{
    assert(a.elements@[i].0 == items[i].start_time.spec_beats());
    assert(b.elements@[i].0 == items[i].start_time.spec_beats());
    if i > 0 {
        lemma_tempo_prefix_equal(a, b, items, i - 1);
        let k = i - 1;
        assert(a.elements@[k + 1].1 == a.elements@[k].1 + crate::tempo::span_time(
            a.elements@[k + 1].0 - a.elements@[k].0,
            a.elements@[k].2 as int,
        ));
        assert(b.elements@[k + 1].1 == b.elements@[k].1 + crate::tempo::span_time(
            b.elements@[k + 1].0 - b.elements@[k].0,
            b.elements@[k].2 as int,
        ));
    }
}

/// Whether a line can be assembled depends on the tempo map's segments alone.
proof fn lemma_line_ok_segments(a: BpmList, b: BpmList, rpe: RpeJudgeLine, max_time: i64, textures: Seq<String>)
    requires
        a.elements@ == b.elements@,
    ensures
        line_ok(a, rpe, max_time, textures) == line_ok(b, rpe, max_time, textures),
{
    if speed_ok(a, rpe.event_layers@, max_time) {
        lemma_speed_ok_segments(a, b, rpe.event_layers@, max_time);
    }
    if speed_ok(b, rpe.event_layers@, max_time) {
        lemma_speed_ok_segments(b, a, rpe.event_layers@, max_time);
    }
}

/// Whether following parents from any line reaches a line without one, and
/// every parent index names a line.
pub open spec fn parent_indices_ok(lines: Seq<RpeJudgeLine>) -> bool {
    forall|i: int| 0 <= i < lines.len() ==> parent_index_ok(#[trigger] lines[i].parent, lines.len() as int)
}

/// What a chart needs before its lines are assembled: a usable tempo list,
/// valid and acyclic parents, valid positions everywhere, and an end time
/// within bounds.
pub open spec fn chart_ready(chart: RpeChart) -> bool {
    let lines = chart.judge_line_list@;
    &&& bpm_list_ok(chart.bpm_list@)
    &&& parent_indices_ok(lines)
    &&& parents_ok(parent_list(lines))
    &&& forall|i: int| 0 <= i < lines.len() ==> triples_ok(line_triples(#[trigger] lines[i]))
    &&& forall|m: BpmList| #[trigger] tempo_map_of(m, chart.bpm_list@) ==> chart_end(m, lines) <= MAX_TIME
}

/// Every step of assembling the chart succeeds.
pub open spec fn chart_ok(chart: RpeChart, textures: Seq<String>) -> bool {
    let lines = chart.judge_line_list@;
    &&& chart_ready(chart)
    &&& forall|m: BpmList| #[trigger] tempo_map_of(m, chart.bpm_list@) ==> forall|i: int|
        0 <= i < lines.len() ==> line_ok(m, #[trigger] lines[i], chart_end(m, lines) as i64, textures)
}

/// A speed condition depends on the tempo map's segments alone.
proof fn lemma_speed_ok_segments(a: BpmList, b: BpmList, layers: Seq<Option<RpeEventLayer>>, max_time: i64)
    requires
        a.elements@ == b.elements@,
        speed_ok(a, layers, max_time),
    ensures
        speed_ok(b, layers, max_time),
{
    lemma_layer_speed_frames_segments(a, b, layers);
    if has_speed(layers) {
        assert forall|s: Anim<i64>, pts: Seq<i64>| #[trigger] speed_source(s, pts, b, layers, max_time) implies crate::speed::heights_fit(
            s,
            pts,
            pts.len() as int,
        ) by {
            assert(speed_source(s, pts, a, layers, max_time));
        }
    }
}

/// Assembles a chart: a tempo map from its tempo list, then each judge line
/// in order, with times running to one second past the last thing that
/// happens. A failing line fails the whole chart, with the line's index and
/// name attached.
pub fn parse_rpe(chart: &RpeChart, textures: &Vec<String>) -> (res: Result<Chart, ChartError>)
    ensures
        !bpm_list_ok(chart.bpm_list@) ==> (res matches Err(e) && e.line is None && e.kind
            == ChartErrorKind::MalformedDocument),
        !parents_ok(parent_list(chart.judge_line_list@)) ==> res is Err,
        (exists|i: int|
            0 <= i < chart.judge_line_list@.len() && !parent_index_ok(
                #[trigger] chart.judge_line_list@[i].parent,
                chart.judge_line_list@.len() as int,
            )) ==> res is Err,
        res matches Err(e) ==> e.line matches Some(i) ==> 0 <= i < chart.judge_line_list@.len()
            && e.line_name == chart.judge_line_list@[i as int].name,
        chart_ok(*chart, textures@) ==> res is Ok,
        bpm_list_ok(chart.bpm_list@) && parent_indices_ok(chart.judge_line_list@) && !parents_ok(
            parent_list(chart.judge_line_list@),
        ) ==> (res matches Err(e) && e.line is None && e.kind == ChartErrorKind::ParentCycle),
        res matches Err(e) ==> e.line matches Some(i) ==> {
            ||| (e.kind == ChartErrorKind::MalformedDocument && !parent_index_ok(
                chart.judge_line_list@[i as int].parent,
                chart.judge_line_list@.len() as int,
            ))
            ||| (e.kind == ChartErrorKind::ValueOutOfRange && !triples_ok(
                line_triples(chart.judge_line_list@[i as int]),
            ))
            ||| forall|m: BpmList| #[trigger] tempo_map_of(m, chart.bpm_list@) ==> !line_ok(
                m,
                chart.judge_line_list@[i as int],
                chart_end(m, chart.judge_line_list@) as i64,
                textures@,
            )
        },
        forall|i: int|
            0 <= i < chart.judge_line_list@.len() && chart_ready(*chart) && (forall|m: BpmList|
                #[trigger] tempo_map_of(m, chart.bpm_list@) ==> {
                    let end = chart_end(m, chart.judge_line_list@) as i64;
                    let line = chart.judge_line_list@[i];
                    &&& (forall|j: int|
                        0 <= j < i ==> line_ok(m, #[trigger] chart.judge_line_list@[j], end, textures@))
                    &&& kind_ok(line, textures@)
                    &&& speed_ok(m, line.event_layers@, end)
                }) && chart.judge_line_list@[i].notes is Some && #[trigger] notes_error(
                chart.judge_line_list@[i].notes.unwrap()@,
            ) is Some ==> (res matches Err(e) && e.line == Some(i as usize) && e.kind == notes_error(
                chart.judge_line_list@[i].notes.unwrap()@,
            ).unwrap()),
        res matches Ok(c) ==> exists|m: BpmList|
            tempo_map_of(m, chart.bpm_list@) && #[trigger] lines_assembled(
                c,
                m,
                chart.judge_line_list@,
                chart_end(m, chart.judge_line_list@) as i64,
            ),
        res matches Ok(c) ==> {
            &&& c.offset == chart.offset * 1_000_000
            &&& c.lines@.len() == chart.judge_line_list@.len()
            &&& parents_ok(parent_list(chart.judge_line_list@))
            &&& forall|i: int|
                0 <= i < c.lines@.len() ==> {
                    &&& (#[trigger] c.lines@[i]).parent == parent_of(chart.judge_line_list@[i].parent)
                    &&& c.lines@[i].show_below == (chart.judge_line_list@[i].is_cover != 1)
                    &&& kind_ok(chart.judge_line_list@[i], textures@)
                    &&& (chart.judge_line_list@[i].notes matches Some(ns) ==> notes_error(ns@) is None)
                }
        },
{
    let items = &chart.bpm_list;
    if items.len() == 0 {
        return Err(chart_error(ChartErrorKind::MalformedDocument));
    }
    let mut ranges: Vec<(i64, i64)> = Vec::new();
    let mut i: usize = 0;
    while i < items.len()
        invariant
            items@ == chart.bpm_list@,
            i <= items@.len(),
            ranges@.len() == i,
            forall|k: int|
                0 <= k < i ==> {
                    &&& triple_ok(#[trigger] items@[k].start_time)
                    &&& 0 <= items@[k].start_time.spec_beats()
                    &&& MIN_BPM <= items@[k].bpm <= MAX_BPM
                    &&& ranges@[k] == (items@[k].start_time.spec_beats() as i64, items@[k].bpm)
                },
            forall|a: int, b: int|
                0 <= a <= b < i ==> items@[a].start_time.spec_beats()
                    <= items@[b].start_time.spec_beats(),
        decreases items@.len() - i,
    {
        let it = &items[i];
        if !check_triple(&it.start_time) || it.bpm < MIN_BPM || it.bpm > MAX_BPM {
            proof {
                assert(!bpm_list_ok(items@)) by {
                    assert(items@[i as int].start_time == it.start_time);
                }
            }
            return Err(chart_error(ChartErrorKind::MalformedDocument));
        }
        let b = it.start_time.beats();
        if b < 0 || (i > 0 && b < ranges[i - 1].0) {
            proof {
                if b >= 0 {
                    assert(items@[i - 1].start_time.spec_beats() > items@[i as int].start_time.spec_beats());
                } else {
                    assert(items@[i as int].start_time.spec_beats() < 0);
                }
                assert(!bpm_list_ok(items@));
            }
            return Err(chart_error(ChartErrorKind::MalformedDocument));
        }
        proof {
            if i > 0 {
                assert(items@[i - 1].start_time.spec_beats() <= b);
                assert forall|a: int, c: int|
                    0 <= a <= c < i + 1 implies items@[a].start_time.spec_beats()
                        <= items@[c].start_time.spec_beats() by {
                    if c == i && a < i {
                        assert(items@[a].start_time.spec_beats() <= items@[i - 1].start_time.spec_beats());
                    }
                }
            }
        }
        ranges.push((b, it.bpm));
        i += 1;
    }
    proof {
        assert(bpm_list_ok(items@));
        assert forall|k: int| 0 <= k < ranges@.len() implies 0 <= #[trigger] ranges@[k].0 <= MAX_BEATS
            && MIN_BPM <= ranges@[k].1 <= MAX_BPM by {
            assert(triple_ok(items@[k].start_time));
        }
        assert forall|a: int, c: int| 0 <= a <= c < ranges@.len() implies ranges@[a].0 <= ranges@[c].0 by {
            assert(triple_ok(items@[a].start_time));
            assert(triple_ok(items@[c].start_time));
        }
    }
    let mut r = BpmList::new(ranges);
    let ghost m0 = r;
    assert(tempo_map_of(m0, items@));
        let n = chart.judge_line_list.len();
    let mut parents: Vec<Option<usize>> = Vec::new();
    let mut i: usize = 0;
    while i < n
        invariant
            n == chart.judge_line_list@.len(),
            i <= n,
            bpm_list_ok(chart.bpm_list@),
            parents@ == parent_list(chart.judge_line_list@).take(i as int),
            forall|k: int| 0 <= k < i ==> parent_index_ok(#[trigger] chart.judge_line_list@[k].parent, n as int),
        decreases n - i,
    {
        if let Some(v) = chart.judge_line_list[i].parent {
            if v != -1 && (v < 0 || v as u64 >= n as u64) {
                return Err(
                    ChartError {
                        line: Some(i),
                        line_name: chart.judge_line_list[i].name.clone(),
                        kind: ChartErrorKind::MalformedDocument,
                    },
                );
            }
        }
        let p = parent_exec(chart.judge_line_list[i].parent);
        parents.push(p);
        proof {
            assert(parent_list(chart.judge_line_list@).take(i + 1) =~= parent_list(chart.judge_line_list@).take(i as int).push(p));
        }
        i += 1;
    }
    proof {
        assert(parents@ =~= parent_list(chart.judge_line_list@));
    }
    if !check_parents(&parents) {
        return Err(chart_error(ChartErrorKind::ParentCycle));
    }
    assert(parents_ok(parent_list(chart.judge_line_list@)));
    let mut end: i64 = 0;
    let mut i: usize = 0;
    while i < n
        invariant
            n == chart.judge_line_list@.len(),
            i <= n,
            r.wf(),
            r.elements@ == m0.elements@,
            tempo_map_of(m0, chart.bpm_list@),
            0 <= end <= MAX_TIME,
            end == latest(m0, 0, chart_triples(chart.judge_line_list@.take(i as int))),
            forall|k: int| 0 <= k < i ==> triples_ok(line_triples(#[trigger] chart.judge_line_list@[k])),
            bpm_list_ok(chart.bpm_list@),
            forall|k: int| 0 <= k < n ==> parent_index_ok(#[trigger] chart.judge_line_list@[k].parent, n as int),
            parents_ok(parent_list(chart.judge_line_list@)),
        decreases n - i,
    {
        let ts = collect_triples(&chart.judge_line_list[i]);
        let ghost r_call = r;
        end = match latest_time(&mut r, end, &ts) {
            Some(v) => v,
            None => {
                return Err(
                    ChartError {
                        line: Some(i),
                        line_name: chart.judge_line_list[i].name.clone(),
                        kind: ChartErrorKind::ValueOutOfRange,
                    },
                );
            },
        };
        proof {
            let lines = chart.judge_line_list@;
            assert(lines.take(i + 1).drop_last() =~= lines.take(i as int));
            lemma_latest_concat(m0, 0, chart_triples(lines.take(i as int)), line_triples(lines[i as int]));
            lemma_latest_segments(r_call, m0, 0, chart_triples(lines.take(i as int)));
            lemma_latest_segments(r_call, m0, latest(m0, 0, chart_triples(lines.take(i as int))), ts@);
        }
        i += 1;
    }
    proof {
        assert(chart.judge_line_list@.take(n as int) =~= chart.judge_line_list@);
    }
    if end > MAX_TIME - SECOND {
        return Err(chart_error(ChartErrorKind::ValueOutOfRange));
    }
    let max_time = end + SECOND;
    let mut lines: Vec<JudgeLine> = Vec::new();
    let mut i: usize = 0;
    while i < n
        invariant
            n == chart.judge_line_list@.len(),
            i <= n,
            r.wf(),
            lines@.len() == i,
            SECOND <= max_time <= MAX_TIME,
            max_time == chart_end(m0, chart.judge_line_list@),
            forall|k: int| 0 <= k < n ==> triples_ok(line_triples(#[trigger] chart.judge_line_list@[k])),
            bpm_list_ok(chart.bpm_list@),
            r.elements@ == m0.elements@,
            tempo_map_of(m0, chart.bpm_list@),
            forall|k: int| 0 <= k < i ==> line_assembled(#[trigger] lines@[k], m0, chart.judge_line_list@[k], max_time),
            forall|k: int| 0 <= k < n ==> parent_index_ok(#[trigger] chart.judge_line_list@[k].parent, n as int),
            parents_ok(parent_list(chart.judge_line_list@)),
            forall|k: int|
                0 <= k < i ==> {
                    &&& (#[trigger] lines@[k]).parent == parent_of(chart.judge_line_list@[k].parent)
                    &&& lines@[k].show_below == (chart.judge_line_list@[k].is_cover != 1)
                    &&& kind_ok(chart.judge_line_list@[k], textures@)
                    &&& (chart.judge_line_list@[k].notes matches Some(ns) ==> notes_error(ns@) is None)
                },
        decreases n - i,
    {
        let ghost r_call = r;
        match parse_judge_line(&mut r, &chart.judge_line_list[i], max_time, textures) {
            Ok(line) => {
                proof {
                    lemma_line_assembled_segments(line, r_call, m0, chart.judge_line_list@[i as int], max_time);
                }
                lines.push(line);
            },
            Err(kind) => {
                proof {
                    let lines_in = chart.judge_line_list@;
                    lemma_line_ok_segments(r_call, m0, lines_in[i as int], max_time, textures@);
                    assert forall|m: BpmList| #[trigger] tempo_map_of(m, chart.bpm_list@) implies !line_ok(
                        m,
                        lines_in[i as int],
                        chart_end(m, lines_in) as i64,
                        textures@,
                    ) by {
                        lemma_tempo_map_unique(m, m0, chart.bpm_list@);
                        lemma_latest_segments(m, m0, 0, chart_triples(lines_in));
                        lemma_line_ok_segments(m, m0, lines_in[i as int], max_time, textures@);
                    }
                    assert forall|i2: int| 0 <= i2 < chart.judge_line_list@.len() && chart_ready(*chart) && (forall|m: BpmList|
                        #[trigger] tempo_map_of(m, chart.bpm_list@) ==> {
                            let end = chart_end(m, chart.judge_line_list@) as i64;
                            let line = chart.judge_line_list@[i2];
                            &&& (forall|j: int|
                                0 <= j < i2 ==> line_ok(m, #[trigger] chart.judge_line_list@[j], end, textures@))
                            &&& kind_ok(line, textures@)
                            &&& speed_ok(m, line.event_layers@, end)
                        }) && chart.judge_line_list@[i2].notes is Some && notes_error(
                        chart.judge_line_list@[i2].notes.unwrap()@,
                    ) is Some implies i2 == i && kind == notes_error(
                        chart.judge_line_list@[i2].notes.unwrap()@,
                    ).unwrap() by {
                        assert(tempo_map_of(m0, chart.bpm_list@));
                        assert(chart_end(m0, lines_in) as i64 == max_time);
                        if i2 > i {
                            assert(line_ok(m0, lines_in[i as int], max_time, textures@));
                            assert(line_ok(r_call, lines_in[i as int], max_time, textures@));
                        } else if i2 == i {
                            assert(speed_ok(m0, lines_in[i as int].event_layers@, max_time));
                            lemma_speed_ok_segments(m0, r_call, lines_in[i as int].event_layers@, max_time);
                        } else {
                            assert(lines@[i2].parent == parent_of(lines_in[i2].parent));
                        }
                    }
                }
                return Err(ChartError { line: Some(i), line_name: chart.judge_line_list[i].name.clone(), kind });
            },
        }
        i += 1;
    }
    let c = Chart { offset: chart.offset as i64 * 1_000_000, lines };
    assert(lines_assembled(c, m0, chart.judge_line_list@, max_time));
    assert forall|i2: int| 0 <= i2 < n implies !(chart.judge_line_list@[i2].notes is Some && notes_error(
        chart.judge_line_list@[i2].notes.unwrap()@,
    ) is Some) by {
        assert(lines@[i2].parent == parent_of(chart.judge_line_list@[i2].parent));
    }
    Ok(c)
}

} // verus!
