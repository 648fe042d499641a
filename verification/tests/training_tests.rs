use rusttransformer::training::{
    pick_training_example, Action, Confusion, Evaluation, Progress, EVALUATION_GAP,
    REPORT_INTERVAL, TEST_SIZE,
};

#[test]
fn pick_training_example_needs_examples_behind_the_held_out_ones() {
    assert_eq!(pick_training_example(0), None);
    assert_eq!(pick_training_example(TEST_SIZE), None);
    assert_eq!(pick_training_example(TEST_SIZE + 1), Some(TEST_SIZE));
}

#[test]
fn pick_training_example_stays_behind_the_held_out_ones() {
    for _ in 0..200 {
        let i = pick_training_example(TEST_SIZE + 50).unwrap();
        assert!(TEST_SIZE <= i && i < TEST_SIZE + 50);
    }
}

#[test]
fn pick_training_example_reaches_more_than_one_index() {
    let first = pick_training_example(TEST_SIZE + 1000).unwrap();
    let mut other = false;
    for _ in 0..200 {
        if pick_training_example(TEST_SIZE + 1000).unwrap() != first {
            other = true;
        }
    }
    assert!(other);
}

#[test]
fn confusion_counts_by_author_and_prediction() {
    let mut c = Confusion::new();
    c.record(0, 0);
    c.record(0, 1);
    c.record(0, 1);
    c.record(1, 1);
    assert_eq!(c.get(0, 0), 1);
    assert_eq!(c.get(0, 1), 2);
    assert_eq!(c.get(1, 0), 0);
    assert_eq!(c.get(1, 1), 1);
}

#[test]
fn step_continues_until_the_report_interval() {
    let mut p = Progress::new();
    for k in 1..REPORT_INTERVAL {
        assert_eq!(p.step(k % 2, 0), Action::Continue);
        assert_eq!(p.index, k);
    }
    match p.step(1, 1) {
        Action::Report(c) => {
            assert_eq!(c.get(0, 0), 2499);
            assert_eq!(c.get(1, 0), 2500);
            assert_eq!(c.get(1, 1), 1);
            assert_eq!(c.get(0, 1), 0);
        }
        other => panic!("expected a report, got {:?}", other),
    }
    assert_eq!(p.index, 0);
    assert_eq!(p.test_count, 1);
    assert_eq!(p.confusion, Confusion::new());
}

#[test]
fn every_tenth_report_comes_with_an_evaluation() {
    let mut p = Progress::new();
    let mut reports = 0;
    let mut evaluations = 0;
    let steps = REPORT_INTERVAL * EVALUATION_GAP * 2;
    for k in 1..=steps {
        match p.step(0, 0) {
            Action::Continue => assert!(k % REPORT_INTERVAL != 0),
            Action::Report(c) => {
                assert_eq!(k % REPORT_INTERVAL, 0);
                assert!(k % (REPORT_INTERVAL * EVALUATION_GAP) != 0);
                assert_eq!(c.get(0, 0), REPORT_INTERVAL);
                reports += 1;
            }
            Action::ReportAndEvaluate(c) => {
                assert_eq!(k % (REPORT_INTERVAL * EVALUATION_GAP), 0);
                assert_eq!(c.get(0, 0), REPORT_INTERVAL);
                reports += 1;
                evaluations += 1;
            }
        }
    }
    assert_eq!(reports, 20);
    assert_eq!(evaluations, 2);
    assert_eq!(p.index, 0);
    assert_eq!(p.test_count, 0);
}

#[test]
fn evaluation_tallies_examples() {
    let mut e = Evaluation::new();
    assert_eq!(e.examples(), 0);
    e.record(0, 0);
    e.record(1, 0);
    e.record(1, 1);
    e.record(1, 1);
    assert_eq!(e.examples(), 4);
    assert_eq!(e.correct(), 3);
    assert_eq!(e.author_counts(), [1, 3]);
}
