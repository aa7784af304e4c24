use layout_optimizer::bigram::{bigram_shape, Compared};
use layout_optimizer::schedule::{get_temp, time_for_action};

#[test]
fn different_hands_incur_nothing() {
    let s = bigram_shape(-2, 3, Compared::Less, Compared::Less, true);
    assert!(!s.same_hand && !s.same_finger && !s.out_roll && !s.big_y_jump && !s.hill_shape);
    let thumbless = bigram_shape(0, 3, Compared::Less, Compared::Less, true);
    assert!(!thumbless.same_hand);
}

#[test]
fn same_finger_is_only_same_finger() {
    let s = bigram_shape(2, 2, Compared::Less, Compared::Greater, true);
    assert!(s.same_hand && s.same_finger);
    assert!(!s.out_roll && !s.big_y_jump && !s.hill_shape);
}

#[test]
fn right_hand_rolls_outwards_to_greater_x() {
    let s = bigram_shape(2, 3, Compared::Less, Compared::Neither, false);
    assert!(s.out_roll && !s.big_y_jump && !s.hill_shape && !s.same_finger);
    let inward = bigram_shape(3, 2, Compared::Greater, Compared::Neither, false);
    assert!(!inward.out_roll);
}

#[test]
fn left_hand_rolls_outwards_to_smaller_x() {
    let s = bigram_shape(-2, -3, Compared::Greater, Compared::Neither, false);
    assert!(s.out_roll);
    let inward = bigram_shape(-3, -2, Compared::Less, Compared::Neither, false);
    assert!(!inward.out_roll);
}

#[test]
fn neighbouring_fingers_jumping_two_rows() {
    assert!(bigram_shape(2, 3, Compared::Neither, Compared::Neither, true).big_y_jump);
    assert!(bigram_shape(-3, -2, Compared::Neither, Compared::Neither, true).big_y_jump);
    assert!(!bigram_shape(2, 4, Compared::Neither, Compared::Neither, true).big_y_jump);
    assert!(!bigram_shape(2, 3, Compared::Neither, Compared::Neither, false).big_y_jump);
}

#[test]
fn hills_depend_on_the_hand() {
    // right hand: both coordinates move the same way
    assert!(bigram_shape(2, 4, Compared::Greater, Compared::Greater, false).hill_shape);
    assert!(bigram_shape(2, 4, Compared::Less, Compared::Less, false).hill_shape);
    assert!(!bigram_shape(2, 4, Compared::Greater, Compared::Less, false).hill_shape);
    // left hand: they move opposite ways
    assert!(bigram_shape(-2, -4, Compared::Greater, Compared::Less, false).hill_shape);
    assert!(bigram_shape(-2, -4, Compared::Less, Compared::Greater, false).hill_shape);
    assert!(!bigram_shape(-2, -4, Compared::Less, Compared::Less, false).hill_shape);
}

#[test]
fn extreme_fingers_do_not_overflow() {
    let s = bigram_shape(-128, -128, Compared::Neither, Compared::Neither, false);
    assert!(s.same_hand && s.same_finger);
    let t = bigram_shape(127, -128, Compared::Neither, Compared::Neither, true);
    assert!(!t.same_hand);
}

#[test]
fn action_is_due_on_multiples() {
    assert!(time_for_action(100, 100));
    assert!(time_for_action(300, 100));
    assert!(!time_for_action(150, 100));
    assert!(time_for_action(0, 10));
    assert!(!time_for_action(7, 10));
}

#[test]
fn action_with_a_zero_interval() {
    assert!(time_for_action(5, 0));
    assert!(!time_for_action(0, 0));
}

#[test]
fn temperature_schedule_calibrates_then_retunes() {
    let mut t = get_temp();
    // ten calibration rounds, with 7 accepted swaps in all
    for round in 0..10 {
        if round < 7 {
            assert!(t.swap_fits());
            t.decrease_temp();
        }
        assert!(t.round_fits());
        let step = t.init();
        assert!(step.calibrating);
        assert!(step.retune.is_none());
    }
    // the target is now 2 * (7 / 10) = 0; rounds 11 to 19 run warm
    for _ in 11..20 {
        t.decrease_temp();
        let step = t.init();
        assert!(!step.calibrating);
        assert!(step.retune.is_none());
    }
    t.decrease_temp();
    let step = t.init();
    assert!(!step.calibrating);
    let r = step.retune.expect("the twentieth round retunes");
    assert_eq!((r.swaps, r.interval, r.target), (10, 10, 0));
    // the counter was cleared
    let step = t.init();
    assert!(step.retune.is_none());
}

#[test]
fn temperature_target_is_twice_the_average() {
    let mut t = get_temp();
    for _ in 0..10 {
        for _ in 0..5 {
            t.decrease_temp();
        }
        let step = t.init();
        assert!(step.calibrating);
    }
    // rounds 11 to 29 accept one swap each; round 20 retunes and clears
    for _ in 11..30 {
        t.decrease_temp();
        t.init();
    }
    let step = t.init();
    let r = step.retune.expect("the thirtieth round retunes");
    assert_eq!((r.swaps, r.target), (9, 10));
}
