use prpr::anim::{Anim, Color, Keyframe};
use prpr::tween::{Ease, Power, Shape, Tween, MAX_OUTPUT, UNIT};

const S: i64 = 1_000_000_000;

fn hold() -> Tween {
    Tween::Plain(Ease::Hold)
}

#[test]
fn linear_midpoint_is_half_way() {
    let mut a = Anim::new(vec![
        Keyframe::new(0, 0, Tween::Plain(Ease::Linear)),
        Keyframe::new(S, 10 * UNIT, hold()),
    ]);
    assert_eq!(a.sample(S / 2), 5 * UNIT);
}

#[test]
fn sampling_outside_clamps_to_ends() {
    let mut a = Anim::new(vec![
        Keyframe::new(S, 3 * UNIT, Tween::Plain(Ease::Linear)),
        Keyframe::new(2 * S, 7 * UNIT, hold()),
    ]);
    assert_eq!(a.sample(0), 3 * UNIT);
    assert_eq!(a.sample(5 * S), 7 * UNIT);
    assert_eq!(a.sample(2 * S), 7 * UNIT);
}

#[test]
fn empty_and_single_keyframe_timelines_are_constant() {
    let mut e: Anim<i64> = Anim::empty();
    assert_eq!(e.sample(12345), 0);
    let mut f = Anim::fixed(42);
    assert_eq!(f.sample(-S), 42);
    assert_eq!(f.sample(S), 42);
}

#[test]
fn hold_keeps_value_until_next_keyframe() {
    let mut a = Anim::new(vec![Keyframe::new(0, 1, hold()), Keyframe::new(S, 9, hold())]);
    assert_eq!(a.sample(S - 1), 1);
    assert_eq!(a.sample(S), 9);
}

#[test]
fn quad_in_eases() {
    let mut a = Anim::new(vec![
        Keyframe::new(0, 0, Tween::Plain(Ease::In(Power::Quad))),
        Keyframe::new(S, UNIT, hold()),
    ]);
    assert_eq!(a.sample(S / 2), 250_000);
}

#[test]
fn reverse_sampling_matches_forward() {
    let mut a = Anim::new(vec![
        Keyframe::new(0, 0, Tween::Plain(Ease::Out(Power::Cubic))),
        Keyframe::new(S, UNIT, Tween::Plain(Ease::Linear)),
        Keyframe::new(2 * S, -UNIT, hold()),
    ]);
    let ts: Vec<i64> = (0..30).map(|k| k * 100_000_000 - S / 2).collect();
    let f: Vec<i64> = ts.iter().map(|&t| a.sample(t)).collect();
    let mut b: Vec<i64> = ts.iter().rev().map(|&t| a.sample(t)).collect();
    b.reverse();
    assert_eq!(f, b);
}

#[test]
fn chain_pools_and_sorts() {
    let a = Anim::new(vec![Keyframe::new(0, 1, hold()), Keyframe::new(2 * S, 3, hold())]);
    let b = Anim::new(vec![Keyframe::new(S, 2, hold())]);
    let mut c = Anim::chain(vec![a, b]);
    let times: Vec<i64> = c.keyframes.iter().map(|k| k.time).collect();
    assert_eq!(times, vec![0, S, 2 * S]);
    assert_eq!(c.sample(S + 1), 2);
}

#[test]
fn sorted_keeps_given_order_for_equal_times() {
    let a = Anim::sorted(vec![
        Keyframe::new(S, 5, hold()),
        Keyframe::new(0, 1, hold()),
        Keyframe::new(S, 6, hold()),
    ]);
    let values: Vec<i64> = a.keyframes.iter().map(|k| k.value).collect();
    assert_eq!(values, vec![1, 5, 6]);
}

#[test]
fn map_value_scales_every_keyframe() {
    let mut a = Anim::new(vec![Keyframe::new(0, 10, hold()), Keyframe::new(S, 20, hold())]);
    a.map_value(|v| v * 3);
    let values: Vec<i64> = a.keyframes.iter().map(|k| k.value).collect();
    assert_eq!(values, vec![30, 60]);
}

#[test]
fn colour_blends_channel_wise() {
    let mut a = Anim::new(vec![
        Keyframe::new(0, Color { r: 0, g: 100, b: 200, a: 255 }, Tween::Plain(Ease::Linear)),
        Keyframe::new(S, Color { r: 100, g: 100, b: 0, a: 255 }, hold()),
    ]);
    assert_eq!(a.sample(S / 2), Color { r: 50, g: 100, b: 100, a: 255 });
}

#[test]
fn text_switches_at_next_keyframe() {
    let mut a = Anim::new(vec![
        Keyframe::new(0, "a".to_string(), Tween::Plain(Ease::Linear)),
        Keyframe::new(S, "b".to_string(), hold()),
    ]);
    assert_eq!(a.sample(S / 2), "a");
    assert_eq!(a.sample(S), "b");
}

#[test]
fn tween_values() {
    assert_eq!(Tween::Plain(Ease::Linear).eval(300_000), 300_000);
    assert_eq!(Tween::Plain(Ease::Hold).eval(300_000), 0);
    assert_eq!(Tween::Plain(Ease::Jump).eval(300_000), UNIT);
    assert_eq!(Tween::Plain(Ease::Out(Power::Quad)).eval(500_000), 750_000);
    assert_eq!(Tween::Plain(Ease::InOut(Power::Quad)).eval(250_000), 125_000);
    assert_eq!(Tween::Plain(Ease::InOut(Power::Quad)).eval(750_000), 875_000);
    assert_eq!(Tween::Plain(Ease::In(Power::Quint)).eval(500_000), 31_250);
}

#[test]
fn clamped_tween_rescales_sub_range() {
    let t = Tween::clamped(Ease::In(Power::Quad), 500_000, UNIT);
    assert_eq!(t, Tween::Clamped(Ease::In(Power::Quad), 500_000, UNIT));
    assert_eq!(t.eval(0), 0);
    assert_eq!(t.eval(UNIT), UNIT);
    // x = 0.5 maps to 0.75: (0.5625 - 0.25) / 0.75 = 0.41666...
    assert_eq!(t.eval(500_000), 416_666);
}

#[test]
fn near_unit_range_gives_plain_tween() {
    assert_eq!(Tween::clamped(Ease::Linear, 5, UNIT - 3), Tween::Plain(Ease::Linear));
    assert_eq!(Tween::clamped(Ease::Linear, 10, UNIT), Tween::Clamped(Ease::Linear, 10, UNIT));
}

#[test]
fn flat_sub_range_acts_as_identity_and_outputs_are_held() {
    let flat = Tween::clamped(Ease::Hold, 200_000, 400_000);
    assert_eq!(flat.eval(300_000), 300_000);
    let steep = Tween::clamped(Ease::In(Power::Quint), 0, 1);
    assert_eq!(steep.eval(UNIT), UNIT);
    assert!(steep.eval(UNIT) <= MAX_OUTPUT);
}

#[test]
fn back_bounce_and_circ_values() {
    assert_eq!(Tween::Plain(Ease::Back(Shape::In)).eval(500_000), -87_698);
    assert_eq!(Tween::Plain(Ease::Back(Shape::Out)).eval(500_000), 1_087_697);
    assert_eq!(Tween::Plain(Ease::Back(Shape::Out)).eval(UNIT), UNIT);
    assert_eq!(Tween::Plain(Ease::Bounce(Shape::Out)).eval(500_000), 765_624);
    // the curve's constants are rounded to millionths
    assert!((Tween::Plain(Ease::Bounce(Shape::Out)).eval(UNIT) - UNIT).abs() <= 1);
    assert_eq!(Tween::Plain(Ease::Circ(Shape::Out)).eval(500_000), 866_025);
    assert_eq!(Tween::Plain(Ease::Circ(Shape::In)).eval(500_000), 133_975);
    assert_eq!(Tween::Plain(Ease::Circ(Shape::InOut)).eval(UNIT), UNIT);
}

#[test]
fn equal_times_keep_given_order_after_chain() {
    let a = Anim::new(vec![Keyframe::new(0, 1, hold()), Keyframe::new(S, 2, hold())]);
    let b = Anim::new(vec![Keyframe::new(S, 3, hold()), Keyframe::new(2 * S, 4, hold())]);
    let mut c = Anim::chain(vec![a, b]);
    let values: Vec<i64> = c.keyframes.iter().map(|k| k.value).collect();
    assert_eq!(values, vec![1, 2, 3, 4]);
    assert_eq!(c.sample(S), 3);
}
