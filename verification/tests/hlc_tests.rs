use wid::{
    parse_hlc_wid, parse_hlc_wid_with_unit, validate_hlc_wid, validate_hlc_wid_with_unit,
    HLCWidGen, TimeUnit, WidError,
};

#[test]
fn test_validate_hlc_valid() {
    assert!(validate_hlc_wid("20260212T091530.0000Z-node01", 4, 0));
    assert!(validate_hlc_wid("20260212T091530.0042Z-node01-a3f91c", 4, 6));
    assert!(validate_hlc_wid_with_unit(
        "20260212T091530123.0042Z-node01-a3f91c",
        4,
        6,
        TimeUnit::Ms
    ));
}

#[test]
fn test_validate_hlc_invalid() {
    assert!(!validate_hlc_wid("20260212T091530.0000Z", 4, 0));
    assert!(!validate_hlc_wid("20260212T091530.0000Z-node-01", 4, 0));
    assert!(!validate_hlc_wid("20260212T091530.0000Z-node01-ABCDEF", 4, 6));
}

#[test]
fn test_parse_hlc() {
    let p = parse_hlc_wid("20260212T091530.0042Z-node01-a3f91c", 4, 6).unwrap();
    assert_eq!(p.node, "node01");
    assert_eq!(p.logical_counter, 42);
    assert_eq!(p.padding.as_deref(), Some("a3f91c"));

    let p2 =
        parse_hlc_wid_with_unit("20260212T091530123.0042Z-node01-a3f91c", 4, 6, TimeUnit::Ms)
            .unwrap();
    assert_eq!(p2.timestamp.timestamp_subsec_millis(), 123);
}

#[test]
fn test_hlc_monotonic() {
    let mut g = HLCWidGen::new("node01".to_string(), 4, 0).unwrap();
    let a = g.next_hlc_wid();
    let b = g.next_hlc_wid();
    assert!(a < b);
}

#[test]
fn test_hlc_observe() {
    let mut g = HLCWidGen::new("node01".to_string(), 4, 0).unwrap();
    g.observe(10, 5).unwrap();
    let s = g.state();
    assert!(s.pt >= 10);
}

#[test]
fn test_new_rejects_invalid_node_and_w() {
    assert!(matches!(
        HLCWidGen::new("bad-node".to_string(), 4, 0),
        Err(WidError::InvalidNode)
    ));
    assert!(matches!(
        HLCWidGen::new("node01".to_string(), 0, 0),
        Err(WidError::InvalidW)
    ));
}

#[test]
fn test_observe_invalid_remote_clock() {
    let mut g = HLCWidGen::new("node01".to_string(), 4, 0).unwrap();
    assert!(matches!(g.observe(-1, 0), Err(WidError::InvalidRemoteClock)));
    assert!(matches!(g.observe(0, -1), Err(WidError::InvalidRemoteClock)));
}

#[test]
fn test_restore_state_invalid() {
    let mut g = HLCWidGen::new("node01".to_string(), 4, 0).unwrap();
    assert!(matches!(
        g.restore_state(-1, 0),
        Err(WidError::InvalidRemoteClock)
    ));
    assert!(matches!(
        g.restore_state(0, -1),
        Err(WidError::InvalidRemoteClock)
    ));
}

#[test]
fn test_next_with_padding_and_next_n() {
    let mut g = HLCWidGen::new("node01".to_string(), 4, 6).unwrap();
    let one = g.next_hlc_wid();
    assert!(one.contains("-node01-"));
    let many = g.next_n(3);
    assert_eq!(many.len(), 3);
    assert!(many[0] < many[1]);
}

#[test]
fn test_parse_hlc_invalid_timestamp() {
    assert!(matches!(
        parse_hlc_wid("20261312T091530.0000Z-node01", 4, 0),
        Err(WidError::InvalidTimestamp)
    ));
}

#[test]
fn test_non_default_w_z_pattern_paths() {
    assert!(validate_hlc_wid("20260212T091530.00042Z-node01-ab", 5, 2));
    let p = parse_hlc_wid("20260212T091530.00042Z-node01-ab", 5, 2).unwrap();
    assert_eq!(p.logical_counter, 42);
    assert_eq!(p.padding.as_deref(), Some("ab"));
}

#[test]
fn hlc_test_ms_generator_shape() {
    let mut g = HLCWidGen::new_with_time_unit("node01".to_string(), 4, 0, TimeUnit::Ms).unwrap();
    let id = g.next_hlc_wid();
    assert!(validate_hlc_wid_with_unit(&id, 4, 0, TimeUnit::Ms));
}

#[test]
fn test_observe_merge_precedence() {
    // tie on the winning time: the counter must exceed both sides
    let mut g = HLCWidGen::new("node01".to_string(), 4, 0).unwrap();
    g.restore_state(10, 5).unwrap();
    g.observe_at(0, 10, 5).unwrap();
    let s = g.state();
    assert_eq!((s.pt, s.lc), (10, 6));

    // the local time wins alone: the counter still advances past both
    let mut g = HLCWidGen::new("node01".to_string(), 4, 0).unwrap();
    g.restore_state(10, 5).unwrap();
    g.observe_at(0, 10, 2).unwrap();
    let s = g.state();
    assert_eq!((s.pt, s.lc), (10, 6));

    // the remote time wins: adopt it and advance past its counter
    let mut g = HLCWidGen::new("node01".to_string(), 4, 0).unwrap();
    g.restore_state(10, 5).unwrap();
    g.observe_at(0, 20, 3).unwrap();
    let s = g.state();
    assert_eq!((s.pt, s.lc), (20, 4));

    // the wall clock wins over both: the counter resets
    let mut g = HLCWidGen::new("node01".to_string(), 4, 0).unwrap();
    g.restore_state(10, 5).unwrap();
    g.observe_at(30, 10, 5).unwrap();
    let s = g.state();
    assert_eq!((s.pt, s.lc), (30, 0));
}

#[test]
fn test_hlc_counter_rollover() {
    // a pinned clock exhausts the counter and bumps the physical time once
    let mut g = HLCWidGen::new("n1".to_string(), 1, 0).unwrap();
    g.restore_state(1000, 0).unwrap();
    for _ in 0..9 {
        let _ = g.next_hlc_wid_at(1000);
    }
    let s = g.state();
    assert_eq!((s.pt, s.lc), (1000, 9));
    let _ = g.next_hlc_wid_at(1000);
    let s = g.state();
    assert_eq!((s.pt, s.lc), (1001, 0));
}

#[test]
fn test_hlc_round_trip_recovers_counter_and_node() {
    let mut g = HLCWidGen::new("relay_7".to_string(), 4, 2).unwrap();
    g.restore_state(1234567, 41).unwrap();
    let id = g.next_hlc_wid_at(0);
    assert!(validate_hlc_wid(&id, 4, 2));
    let p = parse_hlc_wid(&id, 4, 2).unwrap();
    assert_eq!(p.logical_counter, 42);
    assert_eq!(p.node, "relay_7");
    assert_eq!(p.timestamp.timestamp(), 1234567);
}
