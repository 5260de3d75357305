//! Conversion between beat positions and elapsed time under a tempo map.
//!
//! Beat positions and tempos are held in millionths (of a beat, of a beat
//! per minute); times are held in nanoseconds.
use vstd::prelude::*;
use crate::fixed::{floor_div, lemma_div_abs_bound, lemma_div_bounds};
use vstd::arithmetic::div_mod::{lemma_div_by_multiple, lemma_div_is_ordered_by_denominator};

verus! {

/// Millionths per beat; also millionths per beat-per-minute of tempo.
pub const BEAT_UNIT: i64 = 1_000_000;

/// Nanoseconds per second.
pub const SECOND: i64 = 1_000_000_000;

/// Nanoseconds taken by one beat at one beat per minute, in the units above:
/// a span of `d` millionths of a beat at `bpm` millionths of a beat per minute
/// lasts `d * MINUTE_SPAN / bpm` nanoseconds.
pub const MINUTE_SPAN: i64 = 60_000_000_000;

/// Largest beat position a tempo map or a query may use (a million beats).
pub const MAX_BEATS: i64 = 1_000_000_000_000;

/// Slowest tempo accepted: one beat per minute.
pub const MIN_BPM: i64 = 1_000_000;

/// Fastest tempo accepted: a million beats per minute.
pub const MAX_BPM: i64 = 1_000_000_000_000;

/// Largest time, in nanoseconds, at which a beat may be asked for.
pub const MAX_TIME: i64 = 200_000_000_000_000_000;

/// A beat position written as whole beats plus the fraction `num / den`.
#[derive(Clone, Copy)]
pub struct Triple(pub i32, pub u32, pub u32);

impl Triple {
    /// The position in millionths of a beat, rounded toward minus infinity.
    pub open spec fn spec_beats(&self) -> int {
        self.0 as int * BEAT_UNIT + (self.1 as int * BEAT_UNIT) / self.2 as int
    }

    /// The position in millionths of a beat.
    pub fn beats(&self) -> (r: i64)
        requires
            self.2 > 0,
        ensures
            r == self.spec_beats(),
    {
        let whole: i64 = self.0 as i64 * BEAT_UNIT;
        proof {
            assert(self.1 as int * BEAT_UNIT <= 0xffff_ffff * 1_000_000int) by (nonlinear_arith)
                requires
                    self.1 as int <= 0xffff_ffff,
            ;
        }
        let part: i64 = (self.1 as i64 * BEAT_UNIT) / self.2 as i64;
        whole + part
    }
}

/// Index of the last key at or before `x`, or 0 when there is none.
pub open spec fn last_at_or_before(keys: Seq<int>, x: int) -> int
    decreases keys.len(),
{
    if keys.len() <= 1 {
        0
    } else if keys.last() <= x {
        keys.len() - 1
    } else {
        last_at_or_before(keys.drop_last(), x)
    }
}

/// The keys never decrease.
pub open spec fn sorted_keys(keys: Seq<int>) -> bool {
    forall|i: int, j: int| 0 <= i <= j < keys.len() ==> keys[i] <= keys[j]
}

/// `i` brackets `x`: it is the first index or its key is at or before `x`,
/// and it is the last index or the next key is after `x`.
pub open spec fn brackets(keys: Seq<int>, i: int, x: int) -> bool {
    &&& 0 <= i < keys.len()
    &&& (i == 0 || keys[i] <= x)
    &&& (i + 1 == keys.len() || keys[i + 1] > x)
}

/// In sorted keys the bracketing index is unique: it is `last_at_or_before`.
pub proof fn lemma_bracket_unique(keys: Seq<int>, x: int, i: int)
    requires
        sorted_keys(keys),
        brackets(keys, i, x),
    ensures
        last_at_or_before(keys, x) == i,
    decreases keys.len(),
{
    if keys.len() > 1 {
        let n = keys.len() as int;
        if keys.last() <= x {
            if i < n - 1 {
                assert(keys[i + 1] <= keys[n - 1]);
            }
        } else {
            let k = keys.drop_last();
            assert(sorted_keys(k));
            assert(i != n - 1);
            lemma_bracket_unique(k, x, i);
        }
    }
}

/// `last_at_or_before` brackets `x` in non-empty keys.
pub proof fn lemma_bracket_exists(keys: Seq<int>, x: int)
    requires
        keys.len() >= 1,
    ensures
        brackets(keys, last_at_or_before(keys, x), x),
    decreases keys.len(),
{
    if keys.len() > 1 && keys.last() > x {
        lemma_bracket_exists(keys.drop_last(), x);
    }
}

/// Time taken by `d` millionths of a beat at `bpm`, rounded toward minus infinity.
pub open spec fn span_time(d: int, bpm: int) -> int {
    d * MINUTE_SPAN / bpm
}

/// Beats covered in `t` nanoseconds at `bpm`, rounded toward minus infinity.
pub open spec fn span_beats(t: int, bpm: int) -> int {
    t * bpm / MINUTE_SPAN as int
}

/// A tempo map: segments `(start beat, start time, bpm)` and a scan cursor
/// that speeds up queries close to the previous one.
pub struct BpmList {
    pub elements: Vec<(i64, i64, i64)>,
    pub cursor: usize,
}

impl BpmList {
    pub open spec fn segments(&self) -> Seq<(i64, i64, i64)> {
        self.elements@
    }

    pub open spec fn beat_keys(&self) -> Seq<int> {
        self.elements@.map_values(|e: (i64, i64, i64)| e.0 as int)
    }

    pub open spec fn time_keys(&self) -> Seq<int> {
        self.elements@.map_values(|e: (i64, i64, i64)| e.1 as int)
    }

    /// The segments form a tempo map: the first starts at time 0, each later
    /// one starts when the time of the one before has run out, beats and
    /// times never decrease, and all values stay within the accepted bounds.
    pub open spec fn wf(&self) -> bool {
        let e = self.elements@;
        &&& e.len() >= 1
        &&& self.cursor < e.len()
        &&& e[0].1 == 0
        &&& forall|i: int|
            0 <= i < e.len() ==> {
                &&& 0 <= #[trigger] e[i].0 <= MAX_BEATS
                &&& MIN_BPM <= e[i].2 <= MAX_BPM
                &&& 0 <= e[i].1 <= (e[i].0 - e[0].0) * (MINUTE_SPAN / MIN_BPM)
            }
        &&& forall|i: int|
            0 <= i < e.len() - 1 ==> #[trigger] e[i + 1].1 == e[i].1 + span_time(
                e[i + 1].0 - e[i].0,
                e[i].2 as int,
            )
        &&& sorted_keys(self.beat_keys())
        &&& sorted_keys(self.time_keys())
    }

    /// The time at beat position `b` (millionths of a beat), in nanoseconds.
    pub open spec fn time_of(&self, b: int) -> int {
        let e = self.elements@[last_at_or_before(self.beat_keys(), b)];
        e.1 + span_time(b - e.0, e.2 as int)
    }

    /// The beat position (millionths of a beat) at time `t` in nanoseconds.
    pub open spec fn beat_of(&self, t: int) -> int {
        let e = self.elements@[last_at_or_before(self.time_keys(), t)];
        e.0 + span_beats(t - e.1, e.2 as int)
    }

    /// Builds the map from tempo changes `(beat, bpm)` given in beat order.
    pub fn new(ranges: Vec<(i64, i64)>) -> (r: Self)
        requires
            ranges.len() >= 1,
            forall|i: int|
                0 <= i < ranges.len() ==> 0 <= #[trigger] ranges[i].0 <= MAX_BEATS && MIN_BPM
                    <= ranges[i].1 <= MAX_BPM,
            forall|i: int, j: int| 0 <= i <= j < ranges.len() ==> ranges[i].0 <= ranges[j].0,
        ensures
            r.wf(),
            r.elements@.len() == ranges.len(),
            forall|i: int|
                0 <= i < ranges.len() ==> (#[trigger] r.elements@[i]).0 == ranges[i].0
                    && r.elements@[i].2 == ranges[i].1,
    {
        let mut elements: Vec<(i64, i64, i64)> = Vec::new();
        let mut time: i64 = 0;
        let mut i: usize = 0;
        while i < ranges.len()
            invariant
                i <= ranges.len(),
                elements.len() == i,
                forall|k: int|
                    0 <= k < ranges.len() ==> 0 <= #[trigger] ranges[k].0 <= MAX_BEATS && MIN_BPM
                        <= ranges[k].1 <= MAX_BPM,
                forall|a: int, b: int| 0 <= a <= b < ranges.len() ==> ranges[a].0 <= ranges[b].0,
                forall|k: int|
                    0 <= k < i ==> (#[trigger] elements@[k]).0 == ranges[k].0 && elements@[k].2
                        == ranges[k].1,
                i > 0 ==> elements@[i - 1].1 == time,
                i > 0 ==> elements@[0].1 == 0,
                i == 0 ==> time == 0,
                forall|k: int|
                    0 <= k < i ==> 0 <= #[trigger] elements@[k].1 <= (elements@[k].0
                        - ranges[0].0) * (MINUTE_SPAN / MIN_BPM),
                forall|k: int|
                    0 <= k < i - 1 ==> #[trigger] elements@[k + 1].1 == elements@[k].1
                        + span_time(elements@[k + 1].0 - elements@[k].0, elements@[k].2 as int),
                forall|a: int, b: int|
                    0 <= a <= b < i ==> elements@[a].1 <= elements@[b].1,
            decreases ranges.len() - i,
        {
            let (now_beats, bpm) = ranges[i];
            if i > 0 {
                let (last_beats, _, last_bpm) = elements[i - 1];
                proof {
                    assert(ranges[i as int - 1].0 <= ranges[i as int].0);
                    let dd = now_beats - last_beats;
                    assert(0 <= dd * MINUTE_SPAN <= MAX_BEATS * MINUTE_SPAN) by (nonlinear_arith)
                        requires
                            0 <= dd <= MAX_BEATS,
                    ;
                }
                let d: i128 = (now_beats as i128 - last_beats as i128) * MINUTE_SPAN as i128;
                let step: i128 = floor_div(d, last_bpm as i128);
                proof {
                    let dd = now_beats - last_beats;
                    assert(0 <= dd);
                    assert(ranges[i as int - 1].0 <= ranges[i as int].0);
                    lemma_div_is_ordered_by_denominator(d as int, MIN_BPM as int, last_bpm as int);
                    assert(d == (dd * 60000) * 1_000_000);
                    lemma_div_by_multiple(dd * 60000, 1_000_000);
                    vstd::arithmetic::div_mod::lemma_div_pos_is_pos(d as int, last_bpm as int);
                    assert(ranges[0].0 <= ranges[i as int - 1].0);
                    assert(step <= dd * 60000);
                    assert(time + step <= (now_beats - ranges[0].0) * 60000);
                }
                time = (time as i128 + step) as i64;
            }
            elements.push((now_beats, time, bpm));
            i += 1;
        }
        let r = BpmList { elements, cursor: 0 };
        proof {
            assert forall|a: int, b: int| 0 <= a <= b < r.beat_keys().len() implies r.beat_keys()[a]
                <= r.beat_keys()[b] by {
                assert(ranges[a].0 <= ranges[b].0);
            }
            assert forall|a: int, b: int| 0 <= a <= b < r.time_keys().len() implies r.time_keys()[a]
                <= r.time_keys()[b] by {
                assert(elements@[a].1 <= elements@[b].1);
            }
            assert(ranges[0].0 == elements@[0].0);
        }
        r
    }

    /// The start time (`by_time`) or the start beat of segment `i`.
    fn key(&self, i: usize, by_time: bool) -> (r: i64)
        requires
            i < self.elements.len(),
        ensures
            r == if by_time {
                self.time_keys()[i as int]
            } else {
                self.beat_keys()[i as int]
            },
    {
        if by_time {
            self.elements[i].1
        } else {
            self.elements[i].0
        }
    }

    /// Moves the cursor onto the segment that brackets `x` among the start
    /// times (`by_time`) or the start beats, from where the cursor stands.
    fn seek(&mut self, x: i64, by_time: bool)
        requires
            old(self).wf(),
        ensures
            final(self).wf(),
            final(self).elements@ == old(self).elements@,
            brackets(
                if by_time {
                    old(self).time_keys()
                } else {
                    old(self).beat_keys()
                },
                final(self).cursor as int,
                x as int,
            ),
    {
        let ghost keys = if by_time {
            self.time_keys()
        } else {
            self.beat_keys()
        };
        let n = self.elements.len();
        let mut c = self.cursor;
        while c + 1 < n && self.key(c + 1, by_time) <= x
            invariant
                self.wf(),
                n == self.elements.len(),
                keys == if by_time {
                    self.time_keys()
                } else {
                    self.beat_keys()
                },
                c < n,
            decreases n - c,
        {
            c += 1;
        }
        while c != 0 && self.key(c, by_time) > x
            invariant
                self.wf(),
                n == self.elements.len(),
                keys == if by_time {
                    self.time_keys()
                } else {
                    self.beat_keys()
                },
                c < n,
                c + 1 == n || keys[c + 1] > x,
            decreases c,
        {
            c -= 1;
        }
        self.cursor = c;
    }

    /// The time, in nanoseconds, at `beats` millionths of a beat.
    pub fn time_beats(&mut self, beats: i64) -> (r: i64)
        requires
            old(self).wf(),
            -MAX_BEATS <= beats <= MAX_BEATS,
        ensures
            final(self).wf(),
            final(self).elements@ == old(self).elements@,
            r == old(self).time_of(beats as int),
            -MAX_TIME <= r <= MAX_TIME,
            -120_000_000_000_000_000 <= r,
    {
        self.seek(beats, false);
        let ghost keys = self.beat_keys();
        proof {
            lemma_bracket_unique(keys, beats as int, self.cursor as int);
        }
        let (start_beats, time, bpm) = self.elements[self.cursor];
        proof {
            let dd = beats - start_beats;
            assert(-2 * MAX_BEATS * MINUTE_SPAN <= dd * MINUTE_SPAN <= 2 * MAX_BEATS * MINUTE_SPAN)
                by (nonlinear_arith)
                requires
                    -2 * MAX_BEATS <= dd <= 2 * MAX_BEATS,
            ;
        }
        let d: i128 = (beats as i128 - start_beats as i128) * MINUTE_SPAN as i128;
        let q: i128 = floor_div(d, bpm as i128);
        proof {
            lemma_div_abs_bound(d as int, bpm as int, MIN_BPM as int, 120_000_000_000_000_000);
        }
        (time as i128 + q) as i64
    }

    /// The time, in nanoseconds, at a beat position.
    pub fn time(&mut self, triple: &Triple) -> (r: i64)
        requires
            old(self).wf(),
            triple.2 > 0,
            -MAX_BEATS <= triple.spec_beats() <= MAX_BEATS,
        ensures
            final(self).wf(),
            final(self).elements@ == old(self).elements@,
            r == old(self).time_of(triple.spec_beats()),
            -MAX_TIME <= r <= MAX_TIME,
            -120_000_000_000_000_000 <= r,
    {
        let b = triple.beats();
        self.time_beats(b)
    }

    /// The beat position, in millionths of a beat, at `time` nanoseconds.
    pub fn beat(&mut self, time: i64) -> (r: i64)
        requires
            old(self).wf(),
            -MAX_TIME <= time <= MAX_TIME,
        ensures
            final(self).wf(),
            final(self).elements@ == old(self).elements@,
            r == old(self).beat_of(time as int),
    {
        self.seek(time, true);
        let ghost keys = self.time_keys();
        proof {
            lemma_bracket_unique(keys, time as int, self.cursor as int);
        }
        let (beats, start_time, bpm) = self.elements[self.cursor];
        proof {
            let dt = time - start_time;
            assert(-260_000_000_000_000_000 * MAX_BPM <= dt * bpm <= 260_000_000_000_000_000
                * MAX_BPM) by (nonlinear_arith)
                requires
                    -260_000_000_000_000_000 <= dt <= 260_000_000_000_000_000,
                    0 < bpm <= MAX_BPM,
            ;
        }
        let d: i128 = (time as i128 - start_time as i128) * bpm as i128;
        let q: i128 = floor_div(d, MINUTE_SPAN as i128);
        proof {
            lemma_div_abs_bound(
                d as int,
                MINUTE_SPAN as int,
                MINUTE_SPAN as int,
                5_000_000_000_000_000_000,
            );
        }
        (beats as i128 + q) as i64
    }
}

/// Converting a beat span to time and back loses less than 18 millionths of a beat.
proof fn lemma_span_round_trip(d: int, bpm: int)
    requires
        MIN_BPM <= bpm <= MAX_BPM,
    ensures
        0 <= d - span_beats(span_time(d, bpm), bpm) <= 17,
{
    let k = MINUTE_SPAN as int;
    let q = span_time(d, bpm);
    let r = span_beats(q, bpm);
    lemma_div_bounds(d * k, bpm);
    lemma_div_bounds(q * bpm, k);
    assert(r * k <= d * k);
    assert(r <= d) by (nonlinear_arith)
        requires
            r * k <= d * k,
            k > 0,
    ;
    assert((d - r) * k < k + bpm) by (nonlinear_arith)
        requires
            d * k < q * bpm + bpm,
            q * bpm < r * k + k,
    ;
    assert(d - r <= 17) by (nonlinear_arith)
        requires
            (d - r) * k < k + bpm,
            bpm <= MAX_BPM,
            k == MINUTE_SPAN,
    ;
}

/// Round trip: the beat found at the time of beat `b` is `b`, to within a
/// ten-thousandth of a beat (100 millionths), for any tempo map whose
/// segments each last at least a nanosecond. A segment shorter than that
/// starts at the same nanosecond as the next one, so a time there belongs to
/// the later segment; a run of over a hundred such segments could carry the
/// beat further than the bound.
pub proof fn lemma_beat_of_time_of(m: BpmList, b: int)
    requires
        m.wf(),
        -MAX_BEATS <= b <= MAX_BEATS,
        forall|i: int|
            0 <= i < m.elements@.len() - 1 ==> m.elements@[i].1 < #[trigger] m.elements@[i
                + 1].1,
    ensures
        -100 <= m.beat_of(m.time_of(b)) - b <= 100,
{
    let e = m.elements@;
    let n = e.len() as int;
    let bk = m.beat_keys();
    let tk = m.time_keys();
    lemma_bracket_exists(bk, b);
    let i = last_at_or_before(bk, b);
    let d = b - e[i].0;
    let bpm = e[i].2 as int;
    let q = span_time(d, bpm);
    let t = e[i].1 + q;
    assert(m.time_of(b) == t);
    lemma_span_round_trip(d, bpm);
    lemma_div_bounds(d * MINUTE_SPAN, bpm);
    if d >= 0 {
        assert(q >= 0) by (nonlinear_arith)
            requires
                q * bpm <= d * MINUTE_SPAN,
                d * MINUTE_SPAN < q * bpm + bpm,
                bpm > 0,
                d >= 0,
        ;
    } else {
        assert(i == 0) by {
            if i != 0 {
                assert(bk[i] <= b);
            }
        }
        assert(q < 0) by (nonlinear_arith)
            requires
                q * bpm <= d * MINUTE_SPAN,
                bpm > 0,
                d < 0,
        ;
    }
    if i + 1 < n {
        let dn = e[i + 1].0 - e[i].0;
        assert(bk[i + 1] > b);
        assert(e[i + 1].1 == e[i].1 + span_time(dn, bpm));
        vstd::arithmetic::div_mod::lemma_div_is_ordered(d * MINUTE_SPAN, dn * MINUTE_SPAN, bpm);
        let qn = span_time(dn, bpm);
        if t == e[i + 1].1 {
            // The time lands on the start of the next segment.
            if i + 2 < n {
                let k = i + 1;
                assert(m.elements@[k].1 < m.elements@[k + 1].1);
            }
            assert(brackets(tk, i + 1, t));
            lemma_bracket_unique(tk, t, i + 1);
            lemma_div_bounds(dn * MINUTE_SPAN, bpm);
            assert(q == qn);
            assert((dn - d) * MINUTE_SPAN < bpm) by (nonlinear_arith)
                requires
                    q * bpm <= d * MINUTE_SPAN,
                    dn * MINUTE_SPAN < q * bpm + bpm,
            ;
            assert(dn - d <= 17) by (nonlinear_arith)
                requires
                    (dn - d) * MINUTE_SPAN < bpm,
                    bpm <= MAX_BPM,
            ;
            assert(span_beats(0, e[i + 1].2 as int) == 0);
        } else {
            assert(brackets(tk, i, t));
            lemma_bracket_unique(tk, t, i);
        }
    } else {
        assert(brackets(tk, i, t));
        lemma_bracket_unique(tk, t, i);
    }
}

/// A query's answer depends on the segments alone, never on the cursor: maps
/// with equal segments agree on every query, so asking in reverse order gives
/// what asking in forward order gives.
pub proof fn lemma_answers_ignore_cursor(a: BpmList, b: BpmList, x: int)
    requires
        a.elements@ == b.elements@,
    ensures
        a.time_of(x) == b.time_of(x),
        a.beat_of(x) == b.beat_of(x),
{
}

/// Round trip the other way: the time found at the beat of time `t` is `t`
/// or at most 60 microseconds (60,001 nanoseconds) earlier, for any tempo map.
pub proof fn lemma_time_of_beat_of(m: BpmList, t: int)
    requires
        m.wf(),
    ensures
        0 <= t - m.time_of(m.beat_of(t)) <= 60_001,
{
    let e = m.elements@;
    let n = e.len() as int;
    let bk = m.beat_keys();
    let tk = m.time_keys();
    let k = MINUTE_SPAN as int;
    lemma_bracket_exists(tk, t);
    let j = last_at_or_before(tk, t);
    let bpm = e[j].2 as int;
    let dt = t - e[j].1;
    let r = span_beats(dt, bpm);
    let b = e[j].0 + r;
    assert(m.beat_of(t) == b);
    lemma_div_bounds(dt * bpm, k);
    if dt >= 0 {
        vstd::arithmetic::div_mod::lemma_div_pos_is_pos(dt * bpm, k);
        assert(dt * bpm >= 0) by (nonlinear_arith)
            requires
                dt >= 0,
                bpm > 0,
        ;
    } else {
        assert(j == 0) by {
            if j != 0 {
                assert(tk[j] <= t);
            }
        }
        assert(r < 0) by (nonlinear_arith)
            requires
                r * k <= dt * bpm,
                dt < 0,
                bpm > 0,
                k > 0,
        ;
    }
    if j + 1 < n {
        let d = e[j + 1].0 - e[j].0;
        assert(tk[j + 1] > t);
        assert(e[j + 1].1 == e[j].1 + span_time(d, bpm));
        if r >= d {
            assert(d * k <= dt * bpm) by (nonlinear_arith)
                requires
                    r >= d,
                    r * k <= dt * bpm,
                    k > 0,
            ;
            lemma_div_bounds(d * k, bpm);
            assert(span_time(d, bpm) <= dt) by (nonlinear_arith)
                requires
                    span_time(d, bpm) * bpm <= d * k,
                    d * k <= dt * bpm,
                    bpm > 0,
            ;
        }
        assert(bk[j + 1] > b);
    }
    assert(brackets(bk, j, b));
    lemma_bracket_unique(bk, b, j);
    let q = span_time(r, bpm);
    assert(m.time_of(b) == e[j].1 + q);
    lemma_div_bounds(r * k, bpm);
    assert(q <= dt) by (nonlinear_arith)
        requires
            q * bpm <= r * k,
            r * k <= dt * bpm,
            bpm > 0,
    ;
    assert(dt - q <= 60_001) by (nonlinear_arith)
        requires
            r * k < q * bpm + bpm,
            dt * bpm < r * k + k,
            MIN_BPM <= bpm,
            k == MINUTE_SPAN,
    ;
}

} // verus!
