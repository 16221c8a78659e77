use wid::TimeUnit;

#[test]
fn test_parse_time_unit() {
    assert_eq!(TimeUnit::parse("sec").unwrap(), TimeUnit::Sec);
    assert_eq!(TimeUnit::parse("ms").unwrap(), TimeUnit::Ms);
    assert!(TimeUnit::parse("bad").is_none());
}

#[test]
fn test_time_unit_names() {
    assert_eq!(TimeUnit::Sec.as_str(), "sec");
    assert_eq!(TimeUnit::Ms.as_str(), "ms");
    assert_eq!(TimeUnit::parse(TimeUnit::Sec.as_str()), Some(TimeUnit::Sec));
    assert_eq!(TimeUnit::parse(TimeUnit::Ms.as_str()), Some(TimeUnit::Ms));
}
