use disjoint_words::catalog::make_words;
use disjoint_words::progress::ProgressEvent;
use disjoint_words::report::{combination_line, progress_line, PrettyDuration};

#[test]
fn line_separates_words_by_single_spaces() {
    let words = make_words(&["abcde", "fghij", "klmno", "pqrst", "uvwxy"]).unwrap();
    assert_eq!(
        combination_line(&words, &[0, 1, 2, 3, 4]),
        "abcde fghij klmno pqrst uvwxy"
    );
}

#[test]
fn line_follows_the_order_given() {
    let words = make_words(&["ab", "cd", "ef"]).unwrap();
    assert_eq!(combination_line(&words, &[2, 0]), "ef ab");
    assert_eq!(combination_line(&words, &[1]), "cd");
    assert_eq!(combination_line(&words, &[]), "");
}

#[test]
fn duration_splits_into_hours_minutes_seconds() {
    let duration = PrettyDuration { millis: 3_723_004 };
    assert_eq!(duration.parts(), (1, 2, 3));
    assert_eq!(duration.render(), " 1h  2min  3s ");
}

#[test]
fn duration_of_nothing() {
    let duration = PrettyDuration { millis: 0 };
    assert_eq!(duration.parts(), (0, 0, 0));
    assert_eq!(duration.render(), " 0h  0min  0s ");
}

#[test]
fn duration_drops_the_milliseconds() {
    assert_eq!(PrettyDuration { millis: 999 }.render(), " 0h  0min  0s ");
    assert_eq!(PrettyDuration { millis: 59_999 }.render(), " 0h  0min 59s ");
    assert_eq!(PrettyDuration { millis: 3_599_999 }.render(), " 0h 59min 59s ");
}

#[test]
fn duration_pads_to_two_characters_and_no_further() {
    assert_eq!(PrettyDuration { millis: 36_000_000 }.render(), "10h  0min  0s ");
    let duration = PrettyDuration { millis: 1234 * 3_600_000 + 10 * 60_000 + 10_000 };
    assert_eq!(duration.parts(), (1234, 10, 10));
    assert_eq!(duration.render(), "1234h 10min 10s ");
}

#[test]
fn duration_of_the_largest_value() {
    let duration = PrettyDuration { millis: u128::MAX };
    let hours = u128::MAX / 3_600_000;
    assert_eq!(duration.parts().0, hours);
    assert_eq!(
        duration.render(),
        format!("{:2}h {:2}min {:2}s ", hours, duration.parts().1, duration.parts().2)
    );
}

#[test]
fn duration_from_nanoseconds_rounds_down() {
    assert_eq!(PrettyDuration::from_nanos(1_999_999).millis, 1);
    assert_eq!(PrettyDuration::from_nanos(999_999).millis, 0);
    assert_eq!(
        PrettyDuration::from_nanos(3_723_004_000_000).render(),
        " 1h  2min  3s "
    );
}

#[test]
fn progress_line_shows_counts_times_and_estimates() {
    let event = ProgressEvent::new(100_000_000_000, 10, 5977, 42);
    assert_eq!(event.eta_left, 59_670_000_000_000);
    assert_eq!(
        progress_line(&event),
        "  10 of 5977 | Spent:  0h  1min 40s  | ETA Total: 16h 36min 10s  | ETA Left: 16h 34min 30s  | Checked 42"
    );
}

#[test]
fn progress_line_pads_to_four_characters_and_no_further() {
    let event = ProgressEvent::new(0, 12_340, 65_535, 0);
    assert_eq!(
        progress_line(&event),
        "12340 of 65535 | Spent:  0h  0min  0s  | ETA Total:  0h  0min  0s  | ETA Left:  0h  0min  0s  | Checked 0"
    );
    let event = ProgressEvent::new(999_999, 1, 1, 1_234_567);
    assert_eq!(
        progress_line(&event),
        "   1 of    1 | Spent:  0h  0min  0s  | ETA Total:  0h  0min  0s  | ETA Left:  0h  0min  0s  | Checked 1234567"
    );
}
