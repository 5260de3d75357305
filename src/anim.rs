//! Keyframe timelines: values that change over time, eased between keyframes.
//!
//! Times are in nanoseconds; numeric values are held in millionths.
use vstd::prelude::*;
use crate::fixed::{floor_div, lemma_div_bounds};
use crate::tempo::{brackets, last_at_or_before, lemma_bracket_unique, sorted_keys, MAX_TIME};
use crate::tween::{Tween, MAX_OUTPUT, UNIT};

verus! {

/// Largest magnitude of a numeric keyframe value (a billion units).
pub const MAX_VALUE: i64 = 1_000_000_000_000_000;

/// A value that a timeline can ease between.
pub trait Tweenable: Sized {
    /// The value is within the bounds that easing needs.
    spec fn fits(&self) -> bool;

    /// The value a fraction `y` (millionths) of the way from `a` to `b`.
    spec fn blend_spec(a: Self, b: Self, y: int) -> Self;

    /// The value is what a timeline without keyframes gives.
    spec fn is_fallback(&self) -> bool;

    fn blend(a: &Self, b: &Self, y: i64) -> (r: Self)
        requires
            a.fits(),
            b.fits(),
            -MAX_OUTPUT <= y <= MAX_OUTPUT,
        ensures
            r == Self::blend_spec(*a, *b, y as int),
    ;

    fn fallback() -> (r: Self)
        ensures
            r.is_fallback(),
            r.fits(),
    ;

    fn duplicate(&self) -> (r: Self)
        ensures
            r == *self,
    ;
}

impl Tweenable for i64 {
    open spec fn fits(&self) -> bool {
        -MAX_VALUE <= *self <= MAX_VALUE
    }

    open spec fn blend_spec(a: i64, b: i64, y: int) -> i64 {
        (a + y * (b - a) / UNIT as int) as i64
    }

    open spec fn is_fallback(&self) -> bool {
        *self == 0
    }

    fn blend(a: &i64, b: &i64, y: i64) -> (r: i64) {
        let d: i128 = *b as i128 - *a as i128;
        proof {
            assert(-(MAX_OUTPUT * (2 * MAX_VALUE)) <= y * d <= MAX_OUTPUT * (2 * MAX_VALUE))
                by (nonlinear_arith)
                requires
                    -MAX_OUTPUT <= y <= MAX_OUTPUT,
                    -2 * MAX_VALUE <= d <= 2 * MAX_VALUE,
            ;
            crate::fixed::lemma_div_abs_bound(
                y * d,
                UNIT as int,
                UNIT as int,
                2_000_000_000_000_000_000,
            );
        }
        let q = floor_div(y as i128 * d, UNIT as i128);
        (*a as i128 + q) as i64
    }

    fn fallback() -> (r: i64) {
        0
    }

    fn duplicate(&self) -> (r: i64) {
        *self
    }
}

/// A colour as red, green, blue and alpha channels.
#[derive(PartialEq, Eq, Structural, Clone, Copy, Debug)]
pub struct Color {
    pub r: u8,
    pub g: u8,
    pub b: u8,
    pub a: u8,
}

/// One channel a fraction `y` (millionths) of the way from `a` to `b`, held within `0..=255`.
pub open spec fn blend_channel(a: u8, b: u8, y: int) -> u8 {
    let v = a + y * (b - a) / UNIT as int;
    if v < 0 {
        0
    } else if v > 255 {
        255
    } else {
        v as u8
    }
}

fn blend_channel_exec(a: u8, b: u8, y: i64) -> (r: u8)
    requires
        -MAX_OUTPUT <= y <= MAX_OUTPUT,
    ensures
        r == blend_channel(a, b, y as int),
{
    let d: i128 = b as i128 - a as i128;
    proof {
        assert(-(MAX_OUTPUT * 255) <= y * d <= MAX_OUTPUT * 255) by (nonlinear_arith)
            requires
                -MAX_OUTPUT <= y <= MAX_OUTPUT,
                -255 <= d <= 255,
        ;
    }
    let v: i128 = a as i128 + floor_div(y as i128 * d, UNIT as i128);
    if v < 0 {
        0
    } else if v > 255 {
        255
    } else {
        v as u8
    }
}

impl Tweenable for Color {
    open spec fn fits(&self) -> bool {
        true
    }

    open spec fn blend_spec(a: Color, b: Color, y: int) -> Color {
        Color {
            r: blend_channel(a.r, b.r, y),
            g: blend_channel(a.g, b.g, y),
            b: blend_channel(a.b, b.b, y),
            a: blend_channel(a.a, b.a, y),
        }
    }

    open spec fn is_fallback(&self) -> bool {
        *self == Color { r: 0, g: 0, b: 0, a: 0 }
    }

    fn blend(a: &Color, b: &Color, y: i64) -> (r: Color) {
        Color {
            r: blend_channel_exec(a.r, b.r, y),
            g: blend_channel_exec(a.g, b.g, y),
            b: blend_channel_exec(a.b, b.b, y),
            a: blend_channel_exec(a.a, b.a, y),
        }
    }

    fn fallback() -> (r: Color) {
        Color { r: 0, g: 0, b: 0, a: 0 }
    }

    fn duplicate(&self) -> (r: Color) {
        *self
    }
}

impl Tweenable for String {
    open spec fn fits(&self) -> bool {
        true
    }

    /// Text does not ease: it switches once the easing reaches the end.
    open spec fn blend_spec(a: String, b: String, y: int) -> String {
        if y >= UNIT {
            b
        } else {
            a
        }
    }

    open spec fn is_fallback(&self) -> bool {
        self@.len() == 0
    }

    fn blend(a: &String, b: &String, y: i64) -> (r: String) {
        if y >= UNIT {
            b.clone()
        } else {
            a.clone()
        }
    }

    fn fallback() -> (r: String) {
        String::new()
    }

    fn duplicate(&self) -> (r: String) {
        self.clone()
    }
}

/// One timed value; its tween shapes the way to the next keyframe.
#[derive(Clone, Copy)]
pub struct Keyframe<V> {
    pub time: i64,
    pub value: V,
    pub tween: Tween,
}

impl<V> Keyframe<V> {
    pub fn new(time: i64, value: V, tween: Tween) -> (r: Self)
        ensures
            r.time == time,
            r.value == value,
            r.tween == tween,
    {
        Keyframe { time, value, tween }
    }
}

/// Keyframe times as integers.
pub open spec fn time_keys<V>(k: Seq<Keyframe<V>>) -> Seq<int> {
    k.map_values(|f: Keyframe<V>| f.time as int)
}

/// Keyframes in time order, each within bounds.
pub open spec fn keyframes_ok<V: Tweenable>(k: Seq<Keyframe<V>>) -> bool {
    &&& sorted_keys(time_keys(k))
    &&& forall|i: int|
        0 <= i < k.len() ==> {
            &&& -MAX_TIME <= #[trigger] k[i].time <= MAX_TIME
            &&& k[i].value.fits()
            &&& k[i].tween.wf()
        }
}

/// The fraction (millionths) of the way from `t0` to `t1` that `t` stands at.
pub open spec fn progress(t0: int, t1: int, t: int) -> int {
    (t - t0) * UNIT / (t1 - t0)
}

/// A timeline: keyframes in time order and a scan cursor that speeds up
/// queries close to the previous one.
pub struct Anim<V> {
    pub keyframes: Vec<Keyframe<V>>,
    pub cursor: usize,
}

impl<V: Tweenable> Anim<V> {
    pub open spec fn frames(&self) -> Seq<Keyframe<V>> {
        self.keyframes@
    }

    pub open spec fn wf(&self) -> bool {
        &&& keyframes_ok(self.keyframes@)
        &&& (self.cursor < self.keyframes@.len() || (self.cursor == 0
            && self.keyframes@.len() == 0))
    }

    /// The value at time `t` of a timeline with at least one keyframe: the
    /// first value before the first keyframe, the last value from the last
    /// keyframe on, and in between the eased blend of the two keyframes
    /// around `t`.
    pub open spec fn value_at(&self, t: int) -> V
        recommends
            self.keyframes@.len() > 0,
    {
        let k = self.keyframes@;
        let i = last_at_or_before(time_keys(k), t);
        if t < k[0].time || i == k.len() - 1 {
            k[i].value
        } else {
            V::blend_spec(
                k[i].value,
                k[i + 1].value,
                k[i].tween.value(progress(k[i].time as int, k[i + 1].time as int, t)),
            )
        }
    }

    /// A timeline over keyframes given in time order.
    pub fn new(keyframes: Vec<Keyframe<V>>) -> (r: Self)
        requires
            keyframes_ok(keyframes@),
        ensures
            r.wf(),
            r.keyframes@ == keyframes@,
    {
        Anim { keyframes, cursor: 0 }
    }

    /// A timeline without keyframes.
    pub fn empty() -> (r: Self)
        ensures
            r.wf(),
            r.keyframes@.len() == 0,
    {
        Anim { keyframes: Vec::new(), cursor: 0 }
    }

    /// A timeline that always gives `value`.
    pub fn fixed(value: V) -> (r: Self)
        requires
            value.fits(),
        ensures
            r.wf(),
            r.keyframes@ == seq![Keyframe { time: 0, value, tween: Tween::Plain(crate::tween::Ease::Hold) }],
    {
        let mut keyframes = Vec::new();
        keyframes.push(Keyframe { time: 0, value, tween: Tween::Plain(crate::tween::Ease::Hold) });
        assert(keyframes@ =~= seq![Keyframe { time: 0, value, tween: Tween::Plain(crate::tween::Ease::Hold) }]);
        Anim { keyframes, cursor: 0 }
    }

    /// Moves the cursor onto the keyframe that brackets `t`.
    fn seek(&mut self, t: i64)
        requires
            old(self).wf(),
            old(self).keyframes@.len() > 0,
        ensures
            final(self).wf(),
            final(self).keyframes@ == old(self).keyframes@,
            brackets(time_keys(old(self).keyframes@), final(self).cursor as int, t as int),
    {
        let ghost keys = time_keys(self.keyframes@);
        let n = self.keyframes.len();
        let mut c = self.cursor;
        while c + 1 < n && self.keyframes[c + 1].time <= t
            invariant
                self.wf(),
                n == self.keyframes.len(),
                keys == time_keys(self.keyframes@),
                c < n,
            decreases n - c,
        {
            c += 1;
        }
        while c != 0 && self.keyframes[c].time > t
            invariant
                self.wf(),
                n == self.keyframes.len(),
                keys == time_keys(self.keyframes@),
                c < n,
                c + 1 == n || keys[c + 1] > t,
            decreases c,
        {
            c -= 1;
        }
        self.cursor = c;
    }

    /// The value at time `t`.
    pub fn sample(&mut self, t: i64) -> (r: V)
        requires
            old(self).wf(),
            -MAX_TIME <= t <= MAX_TIME,
        ensures
            final(self).wf(),
            final(self).keyframes@ == old(self).keyframes@,
            old(self).keyframes@.len() == 0 ==> r.is_fallback(),
            old(self).keyframes@.len() > 0 ==> r == old(self).value_at(t as int),
    {
        let n = self.keyframes.len();
        if n == 0 {
            return V::fallback();
        }
        self.seek(t);
        let ghost keys = time_keys(self.keyframes@);
        proof {
            lemma_bracket_unique(keys, t as int, self.cursor as int);
        }
        let c = self.cursor;
        if t < self.keyframes[0].time || c == n - 1 {
            return self.keyframes[c].value.duplicate();
        }
        let t0 = self.keyframes[c].time;
        let t1 = self.keyframes[c + 1].time;
        proof {
            assert(keys[c as int] <= t < keys[c + 1]);
            let a = (t - t0) * UNIT;
            let span = t1 - t0;
            assert(0 <= a < span * UNIT) by (nonlinear_arith)
                requires
                    0 <= t - t0 < span,
                    a == (t - t0) * UNIT,
            ;
            lemma_div_bounds(a, span as int);
            assert(0 <= a / span < UNIT) by (nonlinear_arith)
                requires
                    (a / span) * span <= a,
                    a < (a / span) * span + span,
                    0 <= a < span * UNIT,
                    span > 0,
            ;
        }
        let x = floor_div((t as i128 - t0 as i128) * UNIT as i128, t1 as i128 - t0 as i128) as i64;
        let y = self.keyframes[c].tween.eval(x);
        V::blend(&self.keyframes[c].value, &self.keyframes[c + 1].value, y)
    }
}

/// `s` with `k` placed after every keyframe at its end whose time is not
/// later than `k`'s.
pub open spec fn place<V>(s: Seq<Keyframe<V>>, k: Keyframe<V>) -> Seq<Keyframe<V>>
    decreases s.len(),
{
    if s.len() == 0 || s.last().time <= k.time {
        s.push(k)
    } else {
        place(s.drop_last(), k).push(s.last())
    }
}

/// Keyframes in time order, those with equal times in the order given: each
/// keyframe in turn is placed after all earlier ones not later than it.
pub open spec fn stable_sort<V>(s: Seq<Keyframe<V>>) -> Seq<Keyframe<V>>
    decreases s.len(),
{
    if s.len() == 0 {
        Seq::empty()
    } else {
        place(stable_sort(s.drop_last()), s.last())
    }
}

/// Inserting `k` at the first position past which every time is later than
/// `k`'s, and before which the last time is not, is placing it.
proof fn lemma_place_insert<V>(s: Seq<Keyframe<V>>, k: Keyframe<V>, pos: int)
    requires
        0 <= pos <= s.len(),
        forall|j: int| pos <= j < s.len() ==> #[trigger] s[j].time > k.time,
        pos == 0 || s[pos - 1].time <= k.time,
    ensures
        place(s, k) == s.insert(pos, k),
    decreases s.len(),
{
    if pos == s.len() {
        assert(s.insert(pos, k) =~= s.push(k));
    } else {
        lemma_place_insert(s.drop_last(), k, pos);
        assert(s.insert(pos, k) =~= s.drop_last().insert(pos, k).push(s.last()));
    }
}

impl<V: Tweenable> Anim<V> {
    /// A timeline over keyframes in any order: they are put in time order,
    /// each keyframe after those given before it at the same time.
    pub fn sorted(keyframes: Vec<Keyframe<V>>) -> (r: Self)
        requires
            forall|i: int|
                0 <= i < keyframes@.len() ==> {
                    &&& -MAX_TIME <= #[trigger] keyframes@[i].time <= MAX_TIME
                    &&& keyframes@[i].value.fits()
                    &&& keyframes@[i].tween.wf()
                },
        ensures
            r.wf(),
            r.keyframes@ == stable_sort(keyframes@),
            r.keyframes@.to_multiset() == keyframes@.to_multiset(),
    {
        broadcast use vstd::seq_lib::group_to_multiset_ensures;

        let ghost orig = keyframes@;
        let ghost mut done: int = 0;
        let mut src = keyframes;
        let mut out: Vec<Keyframe<V>> = Vec::new();
        assert(src@.subrange(0, src@.len() as int) =~= src@);
        while src.len() > 0
            invariant
                keyframes_ok(out@),
                forall|i: int|
                    0 <= i < src@.len() ==> {
                        &&& -MAX_TIME <= #[trigger] src@[i].time <= MAX_TIME
                        &&& src@[i].value.fits()
                        &&& src@[i].tween.wf()
                    },
                out@.to_multiset().add(src@.to_multiset()) == orig.to_multiset(),
                0 <= done <= orig.len(),
                src@ == orig.subrange(done, orig.len() as int),
                out@ == stable_sort(orig.take(done)),
            decreases src@.len(),
        {
            let ghost before = src@;
            let k = src.remove(0);
            proof {
                vstd::seq_lib::to_multiset_remove(before, 0);
            }
            let mut pos: usize = out.len();
            while pos > 0 && out[pos - 1].time > k.time
                invariant
                    pos <= out@.len(),
                    forall|j: int| pos <= j < out@.len() ==> #[trigger] out@[j].time > k.time,
                decreases pos,
            {
                pos -= 1;
            }
            let ghost prev = out@;
            let ghost kt = k.time;
            proof {
                lemma_place_insert(prev, k, pos as int);
                assert(k == orig[done]);
                assert(orig.take(done + 1).drop_last() =~= orig.take(done));
            }
            out.insert(pos, k);
            proof {
                done = done + 1;
                assert(src@ =~= orig.subrange(done, orig.len() as int));
                vstd::seq_lib::to_multiset_insert(prev, pos as int, k);
                let keys = time_keys(out@);
                let pk = time_keys(prev);
                assert(keys =~= pk.insert(pos as int, kt as int));
                assert forall|a: int, b: int| 0 <= a <= b < keys.len() implies keys[a] <= keys[b] by {
                    if a < pos && b > pos {
                        assert(pk[a] <= pk[pos - 1]);
                    }
                    if a == pos as int && b > pos {
                        assert(prev[b - 1].time > kt);
                    }
                    if a < pos && b == pos as int {
                        assert(pk[a] <= pk[pos - 1]);
                    }
                    if a > pos {
                        assert(pk[a - 1] <= pk[b - 1]);
                    }
                    if b < pos {
                        assert(pk[a] <= pk[b]);
                    }
                }
                assert forall|i: int| 0 <= i < out@.len() implies {
                    &&& -MAX_TIME <= #[trigger] out@[i].time <= MAX_TIME
                    &&& out@[i].value.fits()
                    &&& out@[i].tween.wf()
                } by {
                    if i < pos {
                        assert(out@[i] == prev[i]);
                    } else if i > pos {
                        assert(out@[i] == prev[i - 1]);
                    }
                }
                assert(before.contains(k)) by {
                    assert(before[0] == k);
                }
                before.to_multiset_ensures();
                assert(before.to_multiset().count(k) > 0);
                assert(before.to_multiset() =~= src@.to_multiset().insert(k));
                assert(out@.to_multiset().add(src@.to_multiset()) =~= prev.to_multiset().add(
                    before.to_multiset(),
                ));
            }
        }
        proof {
            assert(done == orig.len());
            assert(orig.take(done) =~= orig);
        }
        Anim { keyframes: out, cursor: 0 }
    }
}

/// Asking in any order gives the same answers: the value at a time depends
/// on the keyframes alone, never on the cursor.
pub proof fn lemma_anim_answers_ignore_cursor<V: Tweenable>(a: Anim<V>, b: Anim<V>, t: int)
    requires
        a.keyframes@ == b.keyframes@,
    ensures
        a.value_at(t) == b.value_at(t),
{
}

/// The keyframes of all the timelines, one timeline after another.
pub open spec fn pooled(s: Seq<Anim<i64>>) -> Seq<Keyframe<i64>>
    decreases s.len(),
{
    if s.len() == 0 {
        Seq::empty()
    } else {
        pooled(s.drop_last()) + s.last().keyframes@
    }
}

/// A keyframe's time, value and tween are within bounds.
pub open spec fn keyframe_fits(k: Keyframe<i64>) -> bool {
    -MAX_TIME <= k.time <= MAX_TIME && k.value.fits() && k.tween.wf()
}

impl Anim<i64> {
    /// Merges several timelines of one property into one: their keyframes
    /// are pooled and put in time order.
    pub fn chain(anims: Vec<Anim<i64>>) -> (r: Anim<i64>)
        requires
            forall|i: int| 0 <= i < anims@.len() ==> (#[trigger] anims@[i]).wf(),
        ensures
            r.wf(),
            r.keyframes@ == stable_sort(pooled(anims@)),
            r.keyframes@.to_multiset() == pooled(anims@).to_multiset(),
    {
        let mut all: Vec<Keyframe<i64>> = Vec::new();
        let mut i: usize = 0;
        while i < anims.len()
            invariant
                i <= anims@.len(),
                forall|a: int| 0 <= a < anims@.len() ==> (#[trigger] anims@[a]).wf(),
                all@ == pooled(anims@.take(i as int)),
                forall|e: int| 0 <= e < all@.len() ==> keyframe_fits(#[trigger] all@[e]),
            decreases anims@.len() - i,
        {
            let mut j: usize = 0;
            let ghost base = all@;
            while j < anims[i].keyframes.len()
                invariant
                    i < anims@.len(),
                    anims@[i as int].wf(),
                    j <= anims@[i as int].keyframes@.len(),
                    all@ == base + anims@[i as int].keyframes@.take(j as int),
                    forall|e: int| 0 <= e < all@.len() ==> keyframe_fits(#[trigger] all@[e]),
                decreases anims@[i as int].keyframes@.len() - j,
            {
                let k = anims[i].keyframes[j];
                proof {
                    assert(keyframe_fits(anims@[i as int].keyframes@[j as int]));
                    assert(anims@[i as int].keyframes@.take(j + 1) =~= anims@[i as int].keyframes@.take(
                        j as int,
                    ).push(k));
                }
                all.push(k);
                j += 1;
            }
            proof {
                assert(anims@[i as int].keyframes@.take(j as int) =~= anims@[i as int].keyframes@);
                assert(anims@.take(i + 1).drop_last() =~= anims@.take(i as int));
            }
            i += 1;
        }
        proof {
            assert(anims@.take(anims@.len() as int) =~= anims@);
        }
        Anim::sorted(all)
    }

    /// Applies `f` to every keyframe value; times and tweens stay.
    pub fn map_value<F: Fn(i64) -> i64>(&mut self, f: F)
        requires
            old(self).wf(),
            forall|v: i64| v.fits() ==> f.requires((v,)),
            forall|v: i64, w: i64| v.fits() && f.ensures((v,), w) ==> w.fits(),
        ensures
            final(self).wf(),
            final(self).keyframes@.len() == old(self).keyframes@.len(),
            forall|i: int|
                0 <= i < old(self).keyframes@.len() ==> {
                    &&& (#[trigger] final(self).keyframes@[i]).time == old(self).keyframes@[i].time
                    &&& final(self).keyframes@[i].tween == old(self).keyframes@[i].tween
                    &&& f.ensures((old(self).keyframes@[i].value,), final(self).keyframes@[i].value)
                },
    {
        let ghost orig = self.keyframes@;
        let n = self.keyframes.len();
        let mut i: usize = 0;
        assert forall|a: int| 0 <= a < n implies (#[trigger] orig[a]).value.fits() by {
            assert(-MAX_TIME <= orig[a].time);
        }
        while i < n
            invariant
                n == self.keyframes@.len() == orig.len(),
                i <= n,
                keyframes_ok(orig),
                self.cursor < n || (self.cursor == 0 && n == 0),
                forall|v: i64| v.fits() ==> f.requires((v,)),
                forall|v: i64, w: i64| v.fits() && f.ensures((v,), w) ==> w.fits(),
                forall|a: int|
                    0 <= a < n ==> {
                        &&& (#[trigger] self.keyframes@[a]).time == orig[a].time
                        &&& self.keyframes@[a].tween == orig[a].tween
                        &&& self.keyframes@[a].value.fits()
                    },
                forall|a: int|
                    0 <= a < i ==> f.ensures((orig[a].value,), (#[trigger] self.keyframes@[a]).value),
                forall|a: int| i <= a < n ==> (#[trigger] self.keyframes@[a]).value == orig[a].value,
            decreases n - i,
        {
            let k = self.keyframes[i];
            let v = f(k.value);
            self.keyframes.set(i, Keyframe { time: k.time, value: v, tween: k.tween });
            i += 1;
        }
        proof {
            assert(time_keys(self.keyframes@) =~= time_keys(orig));
        }
    }
}

/// Mapping two sequences with equal multisets gives sequences with equal multisets.
pub proof fn lemma_map_multiset<A, B>(a: Seq<A>, b: Seq<A>, f: spec_fn(A) -> B)
    requires
        a.to_multiset() == b.to_multiset(),
    ensures
        a.map_values(f).to_multiset() == b.map_values(f).to_multiset(),
    decreases a.len(),
{
    broadcast use vstd::seq_lib::group_to_multiset_ensures;

    a.to_multiset_ensures();
    b.to_multiset_ensures();
    if a.len() == 0 {
        assert(b.len() == 0);
        assert(a.map_values(f) =~= b.map_values(f));
    } else {
        let n = a.len() - 1;
        let x = a[n];
        assert(a.contains(x));
        assert(a.to_multiset().count(x) > 0);
        assert(b.to_multiset().count(x) > 0);
        assert(b.contains(x));
        let j = choose|j: int| 0 <= j < b.len() && b[j] == x;
        let a1 = a.drop_last();
        let b1 = b.remove(j);
        assert(a1 =~= a.remove(n));
        vstd::seq_lib::to_multiset_remove(a, n);
        vstd::seq_lib::to_multiset_remove(b, j);
        lemma_map_multiset(a1, b1, f);
        assert(a.map_values(f) =~= a1.map_values(f).push(f(x)));
        assert(b.map_values(f) =~= b1.map_values(f).insert(j, f(x)));
        a1.map_values(f).to_multiset_ensures();
        vstd::seq_lib::to_multiset_insert(b1.map_values(f), j, f(x));
    }
}

} // verus!
