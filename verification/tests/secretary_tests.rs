use layout_optimizer::params::Parameters;
use layout_optimizer::secretary::{
    elapsed_message, init_secretary, loss_stats_text, Finding, Loss, LOSS_LIMIT_RANK, START_RANK,
};

fn rank(x: f32) -> Option<u32> {
    if x.is_nan() {
        return None;
    }
    let b = if x == 0.0 { 0 } else { x.to_bits() };
    Some(if b >> 31 == 0 { b | 0x8000_0000 } else { !b })
}

fn loss(x: f32) -> Loss {
    Loss { rank: rank(x), label: format!("{:.*}", 7, x) }
}

fn params(target: u16) -> Parameters {
    Parameters {
        nr_min_loss_target: target,
        keyboard_file: String::new(),
        letters: Vec::new(),
        free_letters: Vec::new(),
        unused_keys: Vec::new(),
        locked_letters: Vec::new(),
    }
}

#[test]
fn ranks_of_the_limits() {
    assert_eq!(rank(10.0), Some(LOSS_LIMIT_RANK));
    assert_eq!(rank(f32::MAX), Some(START_RANK));
    assert!(rank(0.25) < rank(0.5));
    assert!(rank(-1.0) < rank(0.0));
}

#[test]
fn secretary_tracks_the_best_loss() {
    let mut s = init_secretary(&params(2));
    assert!(s.need_more_data());
    let r = s.report(loss(3.5), "first".to_string());
    assert!(matches!(r.finding, Finding::NewMinimum));
    assert_eq!(s.nr_min_loss(), 1);
    let r = s.report(loss(4.0), "worse".to_string());
    assert!(matches!(r.finding, Finding::Nothing));
    let r = s.report(loss(2.25), "better".to_string());
    assert!(matches!(r.finding, Finding::NewMinimum));
    assert_eq!(s.best_layout(), "better");
    assert!(s.need_more_data());
    let r = s.report(loss(2.25), "again".to_string());
    assert!(matches!(r.finding, Finding::SameMinimum(2)));
    assert_eq!(s.best_layout(), "better");
    assert!(!s.need_more_data());
    assert_eq!(s.iteration(), 4);
}

#[test]
fn invalid_layouts_are_not_counted() {
    let mut s = init_secretary(&params(1));
    let r = s.report(loss(100.0), "invalid".to_string());
    assert!(matches!(r.finding, Finding::Nothing));
    assert_eq!(s.iteration(), 1);
    assert!(s.loss_stat().is_empty());
    assert_eq!(s.best_layout(), "");
    // exactly ten is still valid
    let r = s.report(loss(10.0), "ten".to_string());
    assert!(matches!(r.finding, Finding::NewMinimum));
    assert_eq!(s.loss_stat(), &vec![("10.0000000".to_string(), 1)]);
}

#[test]
fn statistics_count_by_label() {
    let mut s = init_secretary(&params(5));
    s.report(loss(1.5), "a".to_string());
    s.report(loss(0.5), "b".to_string());
    s.report(loss(1.5), "c".to_string());
    assert_eq!(
        s.loss_stat(),
        &vec![("1.5000000".to_string(), 2), ("0.5000000".to_string(), 1)]
    );
    assert_eq!(loss_stats_text(s.loss_stat()), "1.5000000 2\n0.5000000 1\n");
}

#[test]
fn life_signs_every_hundred_reports() {
    let mut s = init_secretary(&params(1));
    for i in 1..=250u32 {
        let l = loss(50.0);
        assert!(s.report_fits(&l));
        let r = s.report(l, String::new());
        assert_eq!(r.life_sign, i % 100 == 0);
    }
}

#[test]
fn stats_text_writes_counts_in_decimal() {
    let stats = vec![("0.1234567".to_string(), 1234567890u32), ("2.0000000".to_string(), 0)];
    assert_eq!(loss_stats_text(&stats), "0.1234567 1234567890\n2.0000000 0\n");
    assert_eq!(loss_stats_text(&Vec::new()), "");
}

#[test]
fn elapsed_messages() {
    assert_eq!(elapsed_message(0), "Optimization done! Time elapsed: 0s.");
    assert_eq!(elapsed_message(59), "Optimization done! Time elapsed: 59s.");
    assert_eq!(elapsed_message(61), "Optimization done! Time elapsed: 1min 1s.");
    assert_eq!(elapsed_message(3600), "Optimization done! Time elapsed: 1h 0min 0s.");
    assert_eq!(
        elapsed_message(2 * 86400 + 3 * 3600 + 4 * 60 + 5),
        "Optimization done! Time elapsed: 2days 3h 4min 5s."
    );
    assert_eq!(elapsed_message(86400), "Optimization done! Time elapsed: 1days 0h 0min 0s.");
}

#[test]
fn a_loss_that_is_not_a_number_is_counted_but_never_best() {
    let mut s = init_secretary(&params(2));
    let r = s.report(loss(f32::NAN), "nan".to_string());
    assert!(matches!(r.finding, Finding::Nothing));
    assert_eq!(s.loss_stat(), &vec![("NaN".to_string(), 1)]);
    let r = s.report(loss(-f32::NAN), "negative nan".to_string());
    assert!(matches!(r.finding, Finding::Nothing));
    assert_eq!(s.nr_min_loss(), 0);
    assert_eq!(s.best_layout(), "");
    let r = s.report(loss(1.0), "one".to_string());
    assert!(matches!(r.finding, Finding::NewMinimum));
    let r = s.report(loss(f32::NAN), "nan again".to_string());
    assert!(matches!(r.finding, Finding::Nothing));
    assert_eq!(s.best_layout(), "one");
}

#[test]
fn both_zeros_are_the_same_loss() {
    let mut s = init_secretary(&params(2));
    let r = s.report(loss(-0.0), "minus zero".to_string());
    assert!(matches!(r.finding, Finding::NewMinimum));
    let r = s.report(loss(0.0), "zero".to_string());
    assert!(matches!(r.finding, Finding::SameMinimum(2)));
    assert!(!s.need_more_data());
    assert_eq!(s.best_layout(), "minus zero");
}
