use wid::{
    parse_wid, parse_wid_with_unit, validate_wid, validate_wid_with_unit, TimeUnit, WidError,
    WidGen,
};

#[test]
fn test_validate_valid_wids() {
    assert!(validate_wid("20260212T091530.0000Z", 4, 0));
    assert!(validate_wid("20260212T091530.0042Z", 4, 0));
    assert!(validate_wid("20260212T091530.0042Z-a3f91c", 4, 6));
    assert!(validate_wid_with_unit(
        "20260212T091530123.0042Z-a3f91c",
        4,
        6,
        TimeUnit::Ms
    ));
}

#[test]
fn test_validate_invalid_wids() {
    assert!(!validate_wid("waldiez", 4, 6));
    assert!(!validate_wid("20260212T091530.0000", 4, 0));
    assert!(!validate_wid("20261312T091530.0000Z", 4, 0));
    assert!(!validate_wid("20260212T091530.0000Z", 0, 0));
    assert!(!validate_wid("20260212T091530.0000Z-ABCDEF", 4, 6));
    assert!(!validate_wid("20260212T091530.0000Z-node01", 4, 0));
    assert!(!validate_wid_with_unit(
        "20260212T09153012.0000Z",
        4,
        0,
        TimeUnit::Ms
    ));
}

#[test]
fn test_new_rejects_invalid_params() {
    assert!(matches!(WidGen::new(0, 0, None), Err(WidError::InvalidW)));
    assert!(matches!(
        WidGen::new(4, 0, Some("invalid scope".to_string())),
        Err(WidError::InvalidScope)
    ));
}

#[test]
fn test_generator_monotonic() {
    let mut generator = WidGen::new(4, 0, None).expect("valid constructor args");
    let wid1 = generator.next_wid();
    let wid2 = generator.next_wid();
    assert!(wid1 < wid2);
}

#[test]
fn test_iterator_take() {
    let mut generator = WidGen::new(4, 6, None).unwrap();
    let v: Vec<String> = generator.next_n(5);
    assert_eq!(v.len(), 5);
}

#[test]
fn test_parse_valid_wids() {
    let p = parse_wid("20260212T091530.0042Z", 4, 0).unwrap();
    assert_eq!(p.sequence, 42);
    assert_eq!(p.padding, None);

    let p2 = parse_wid("20260212T091530.0042Z-a3f91c", 4, 6).unwrap();
    assert_eq!(p2.sequence, 42);
    assert_eq!(p2.padding.as_deref(), Some("a3f91c"));
    assert_eq!(p2.timestamp_sec(), p2.timestamp.timestamp());

    let p3 = parse_wid_with_unit("20260212T091530123.0042Z-a3f91c", 4, 6, TimeUnit::Ms).unwrap();
    assert_eq!(p3.sequence, 42);
    assert_eq!(p3.timestamp.timestamp_subsec_millis(), 123);
}

#[test]
fn test_parse_invalid_cases() {
    assert!(matches!(
        parse_wid("waldiez", 4, 6),
        Err(WidError::InvalidFormat(_))
    ));
    assert!(matches!(
        parse_wid("20260212T091530.0000Z-ABCDEF", 4, 6),
        Err(WidError::InvalidFormat(_))
    ));
    assert!(matches!(
        parse_wid("20260212T091530.0000Z-node01", 4, 0),
        Err(WidError::InvalidFormat(_))
    ));
    assert!(matches!(
        parse_wid("20260232T091530.0000Z", 4, 0),
        Err(WidError::InvalidTimestamp)
    ));
    assert!(matches!(
        parse_wid("20260212T091530.0000Z", 0, 0),
        Err(WidError::InvalidW)
    ));
}

#[test]
fn test_state_restore_and_next_n() {
    let mut g1 = WidGen::new(4, 0, None).unwrap();
    let _ = g1.next_wid();
    let _ = g1.next_wid();
    let (last_tick, last_seq) = g1.state();

    let mut g2 = WidGen::new(4, 0, None).unwrap();
    g2.restore_state(last_tick, last_seq);
    let w = g2.next_wid();
    let p = parse_wid(&w, 4, 0).unwrap();
    assert_eq!(p.sequence as i64, last_seq + 1);

    let v = g2.next_n(3);
    assert_eq!(v.len(), 3);
}

#[test]
fn test_default_params_and_scope_rejected() {
    let mut g = WidGen::default_params();
    let w = g.next_wid();
    assert!(validate_wid(&w, 4, 6));
    assert!(matches!(
        WidGen::new(4, 6, Some("acme".to_string())),
        Err(WidError::InvalidScope)
    ));
}

#[test]
fn wid_test_ms_generator_shape() {
    let mut g = WidGen::new_with_time_unit(4, 0, None, TimeUnit::Ms).unwrap();
    let w = g.next_wid();
    assert!(validate_wid_with_unit(&w, 4, 0, TimeUnit::Ms));
}

#[test]
fn test_rollover_with_pinned_clock() {
    // a plain generator forced past 10^w identifiers within one tick
    // advances the tick exactly once per exhaustion and keeps the sequence
    // inside its width
    let mut g = WidGen::new(1, 0, None).unwrap();
    g.restore_state(1000, -1);
    for round in 0..3 {
        for seq in 0..10 {
            let w = g.next_wid_at(1000);
            let p = parse_wid(&w, 1, 0).unwrap();
            assert_eq!(p.sequence as i64, seq);
            let (tick, _) = g.state();
            assert_eq!(tick, 1000 + round);
        }
    }
}

#[test]
fn test_sequence_resets_when_clock_advances() {
    let mut g = WidGen::new(4, 0, None).unwrap();
    let a = g.next_wid_at(500);
    let b = g.next_wid_at(500);
    let c = g.next_wid_at(501);
    let pa = parse_wid(&a, 4, 0).unwrap();
    let pb = parse_wid(&b, 4, 0).unwrap();
    let pc = parse_wid(&c, 4, 0).unwrap();
    assert_eq!(pa.sequence, 0);
    assert_eq!(pb.sequence, 1);
    assert_eq!(pc.sequence, 0);
    assert!(a < b && b < c);
}

#[test]
fn test_clock_regression_is_absorbed() {
    let mut g = WidGen::new(4, 0, None).unwrap();
    let a = g.next_wid_at(700);
    let b = g.next_wid_at(600);
    assert!(a < b);
    let (tick, seq) = g.state();
    assert_eq!(tick, 700);
    assert_eq!(seq, 1);
}

#[test]
fn test_wrong_digit_count_rejected() {
    // a sequence field of the wrong width never validates
    assert!(!validate_wid("20260212T091530.0000Z", 5, 0));
    assert!(!validate_wid("20260212T091530.00042Z", 4, 0));
}

#[test]
fn test_epoch_render_round_trip() {
    let mut g = WidGen::new(4, 0, None).unwrap();
    let w = g.next_wid_at(0);
    assert_eq!(w, "19700101T000000.0000Z");
    let p = parse_wid(&w, 4, 0).unwrap();
    assert_eq!(p.timestamp.timestamp(), 0);
}

#[test]
fn test_known_tick_renders_calendar() {
    let mut g = WidGen::new(4, 0, None).unwrap();
    // 2000-02-29T12:34:56 UTC, a leap day
    let w = g.next_wid_at(951827696);
    assert_eq!(w, "20000229T123456.0000Z");
    let p = parse_wid(&w, 4, 0).unwrap();
    assert_eq!(p.timestamp.timestamp(), 951827696);
}
