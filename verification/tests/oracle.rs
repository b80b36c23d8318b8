use album_maker::staleness::{should_regenerate, Timestamp};

#[test]
fn stale_skip_example() {
    // Derivative created one tick after the source: up to date, skip.
    let source = Timestamp::Known(100);
    let derivative = Timestamp::Known(101);
    assert_eq!(should_regenerate(source, derivative, false), false);
}

#[test]
fn force_always_regenerates() {
    let source = Timestamp::Known(100);
    let derivative = Timestamp::Known(101);
    assert_eq!(should_regenerate(source, derivative, true), true);
}

#[test]
fn missing_derivative_regenerates() {
    assert_eq!(should_regenerate(Timestamp::Known(100), Timestamp::Missing, false), true);
}

#[test]
fn missing_source_regenerates() {
    assert_eq!(should_regenerate(Timestamp::Missing, Timestamp::Known(5), false), true);
}

#[test]
fn unreadable_metadata_regenerates() {
    assert_eq!(should_regenerate(Timestamp::Unreadable, Timestamp::Known(5), false), true);
    assert_eq!(should_regenerate(Timestamp::Known(5), Timestamp::Unreadable, false), true);
}

#[test]
fn source_at_or_after_derivative_regenerates() {
    // Equal creation times do not prove the derivative newer: regenerate.
    assert_eq!(should_regenerate(Timestamp::Known(7), Timestamp::Known(7), false), true);
    assert_eq!(should_regenerate(Timestamp::Known(8), Timestamp::Known(7), false), true);
}
