use readtime::estimator::estimate_reading_time;

#[test]
fn test_zero_words() {
    assert_eq!(estimate_reading_time(0, 200), 0);
}

#[test]
fn test_rounds_up() {
    assert_eq!(estimate_reading_time(1, 200), 1);
    assert_eq!(estimate_reading_time(199, 200), 1);
    assert_eq!(estimate_reading_time(200, 200), 1);
    assert_eq!(estimate_reading_time(201, 200), 2);
    assert_eq!(estimate_reading_time(400, 200), 2);
    assert_eq!(estimate_reading_time(401, 200), 3);
}

#[test]
fn test_different_wpm() {
    assert_eq!(estimate_reading_time(250, 250), 1);
    assert_eq!(estimate_reading_time(251, 250), 2);
    assert_eq!(estimate_reading_time(150, 150), 1);
    assert_eq!(estimate_reading_time(300, 150), 2);
}

#[test]
fn zero_words_take_no_time_at_any_speed() {
    assert_eq!(estimate_reading_time(0, 0), 0);
    assert_eq!(estimate_reading_time(0, 1), 0);
}

#[test]
fn extreme_counts() {
    assert_eq!(estimate_reading_time(usize::MAX, 1), usize::MAX);
    assert_eq!(estimate_reading_time(usize::MAX, 2), usize::MAX / 2 + 1);
    assert_eq!(estimate_reading_time(usize::MAX, usize::MAX), 1);
    assert_eq!(estimate_reading_time(7, 3), 3);
}

#[test]
fn reading_time_grows_with_words_and_shrinks_with_speed() {
    for w1 in 0..60usize {
        for w2 in w1..60usize {
            for p1 in 1..12usize {
                for p2 in p1..12usize {
                    assert!(estimate_reading_time(w1, p1) <= estimate_reading_time(w2, p1));
                    assert!(estimate_reading_time(w2, p2) <= estimate_reading_time(w2, p1));
                }
            }
        }
    }
}
