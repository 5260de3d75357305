use prpr::anim::{Anim, Keyframe};
use prpr::speed::integrate_speed;
use prpr::tween::{Ease, Power, Tween, UNIT};

const S: i64 = 1_000_000_000;

#[test]
fn constant_speed_gives_linear_height() {
    let mut speed = Anim::new(vec![
        Keyframe::new(0, 2 * UNIT, Tween::Plain(Ease::Linear)),
        Keyframe::new(3 * S, 2 * UNIT, Tween::Plain(Ease::Hold)),
    ]);
    let mut h = integrate_speed(&mut speed, &vec![0, 3 * S]).unwrap();
    assert_eq!(h.sample(3 * S), 6 * UNIT);
    assert_eq!(h.sample(0), 0);
    assert_eq!(h.keyframes[0].tween, Tween::Plain(Ease::Linear));
    assert_eq!(h.sample(3 * S / 2), 3 * UNIT);
}

#[test]
fn height_never_falls_for_non_negative_speed() {
    let mut speed = Anim::new(vec![
        Keyframe::new(0, 0, Tween::Plain(Ease::Linear)),
        Keyframe::new(2 * S, 4 * UNIT, Tween::Plain(Ease::Hold)),
        Keyframe::new(3 * S, UNIT, Tween::Plain(Ease::Linear)),
        Keyframe::new(5 * S, 0, Tween::Plain(Ease::Hold)),
    ]);
    let pts = vec![0, 2 * S, 3 * S, 5 * S, 6 * S];
    let mut h = integrate_speed(&mut speed, &pts).unwrap();
    let mut last = i64::MIN;
    for k in 0..=60 {
        let v = h.sample(k * S / 10);
        assert!(v >= last, "height fell at step {k}");
        last = v;
    }
}

#[test]
fn speeding_up_uses_quad_in_and_slowing_down_quad_out() {
    let mut speed = Anim::new(vec![
        Keyframe::new(0, UNIT, Tween::Plain(Ease::Linear)),
        Keyframe::new(S, 2 * UNIT, Tween::Plain(Ease::Linear)),
        Keyframe::new(2 * S, UNIT, Tween::Plain(Ease::Hold)),
    ]);
    let h = integrate_speed(&mut speed, &vec![0, S, 2 * S]).unwrap();
    assert!(matches!(h.keyframes[0].tween, Tween::Clamped(Ease::In(Power::Quad), _, UNIT)));
    assert!(matches!(h.keyframes[1].tween, Tween::Clamped(Ease::Out(Power::Quad), 0, _)));
    assert_eq!(h.keyframes[2].tween, Tween::Plain(Ease::Hold));
    // trapezoid: (1 + ~2) / 2 over the first second
    assert_eq!(h.keyframes[1].value, 1_499_950);
}

#[test]
fn no_speed_keyframes_give_zero_height() {
    let mut speed: Anim<i64> = Anim::empty();
    let h = integrate_speed(&mut speed, &vec![0, S]).unwrap();
    assert_eq!(h.keyframes[1].value, 0);
}

#[test]
fn huge_height_is_refused() {
    let big = 900_000_000_000_000;
    let mut speed = Anim::new(vec![
        Keyframe::new(0, big, Tween::Plain(Ease::Linear)),
        Keyframe::new(100 * S, big, Tween::Plain(Ease::Hold)),
    ]);
    assert!(integrate_speed(&mut speed, &vec![0, 100 * S]).is_none());
}
