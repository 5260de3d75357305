use prpr::tempo::{BpmList, Triple, BEAT_UNIT, SECOND};

fn beats(n: i64) -> i64 {
    n * BEAT_UNIT
}

fn bpm(n: i64) -> i64 {
    n * BEAT_UNIT
}

#[test]
fn single_tempo_four_beats_take_two_seconds() {
    let mut m = BpmList::new(vec![(0, bpm(120))]);
    assert_eq!(m.time_beats(beats(4)), 2 * SECOND);
}

#[test]
fn tempo_change_doubles_speed() {
    let mut m = BpmList::new(vec![(0, bpm(120)), (beats(4), bpm(240))]);
    assert_eq!(m.time_beats(beats(4)), 2 * SECOND);
    assert_eq!(m.time_beats(beats(8)), 3 * SECOND);
}

#[test]
fn beat_of_time_round_trips() {
    let mut m = BpmList::new(vec![(0, bpm(120)), (beats(4), bpm(240)), (beats(10), 97_500_000)]);
    for b in [0, 1, 333_333, beats(3), beats(4) + 17, beats(7), beats(12) + 123_457, -beats(2)] {
        let t = m.time_beats(b);
        let back = m.beat(t);
        assert!((back - b).abs() <= 100, "beat {b} came back as {back}");
    }
}

#[test]
fn reverse_queries_match_forward_queries() {
    let mut m = BpmList::new(vec![(0, bpm(120)), (beats(4), bpm(240)), (beats(10), bpm(60))]);
    let qs: Vec<i64> = (0..40).map(|k| k * 400_000).collect();
    let forward: Vec<i64> = qs.iter().map(|&b| m.time_beats(b)).collect();
    let backward: Vec<i64> = qs.iter().rev().map(|&b| m.time_beats(b)).collect();
    let mut backward = backward;
    backward.reverse();
    assert_eq!(forward, backward);
    let tf: Vec<i64> = forward.iter().map(|&t| m.beat(t)).collect();
    let tb: Vec<i64> = forward.iter().rev().map(|&t| m.beat(t)).collect::<Vec<_>>().into_iter().rev().collect();
    assert_eq!(tf, tb);
}

#[test]
fn triple_beats_adds_fraction() {
    assert_eq!(Triple(2, 1, 4).beats(), 2_250_000);
    assert_eq!(Triple(0, 1, 3).beats(), 333_333);
    assert_eq!(Triple(-1, 1, 2).beats(), -500_000);
}

#[test]
fn time_of_triple_uses_tempo() {
    let mut m = BpmList::new(vec![(0, bpm(60))]);
    assert_eq!(m.time(&Triple(1, 1, 2)), 1_500_000_000);
}

#[test]
fn beat_before_first_segment_extrapolates() {
    let mut m = BpmList::new(vec![(0, bpm(120))]);
    assert_eq!(m.time_beats(-beats(2)), -SECOND);
    assert_eq!(m.beat(-SECOND), -beats(2));
}
