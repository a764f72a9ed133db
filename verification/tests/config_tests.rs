use logforward::config::{configure, ConfigError, DEFAULT_INTERVAL_SEC};

#[test]
fn absent_property_means_default() {
    let cfg = configure(None).unwrap();
    assert_eq!(cfg.interval_sec, DEFAULT_INTERVAL_SEC);
    assert_eq!(cfg.interval_sec, 10);
}

#[test]
fn decimal_property_is_parsed() {
    assert_eq!(configure(Some(b"60".to_vec())).unwrap().interval_sec, 60);
    assert_eq!(configure(Some(b"0".to_vec())).unwrap().interval_sec, 0);
    assert_eq!(configure(Some(b"007".to_vec())).unwrap().interval_sec, 7);
}

#[test]
fn signed_properties_parse_as_i64_does() {
    assert_eq!(configure(Some(b"+5".to_vec())).unwrap().interval_sec, 5);
    assert_eq!(configure(Some(b"-5".to_vec())).unwrap().interval_sec, -5);
    assert_eq!(configure(Some(b"-0".to_vec())).unwrap().interval_sec, 0);
}

#[test]
fn interval_extremes_fit() {
    assert_eq!(
        configure(Some(b"9223372036854775807".to_vec()))
            .unwrap()
            .interval_sec,
        i64::MAX
    );
    assert_eq!(
        configure(Some(b"-9223372036854775808".to_vec()))
            .unwrap()
            .interval_sec,
        i64::MIN
    );
}

#[test]
fn bad_properties_are_rejected() {
    assert_eq!(configure(Some(b"".to_vec())), Err(ConfigError::BadInterval));
    assert_eq!(
        configure(Some(b"12x".to_vec())),
        Err(ConfigError::BadInterval)
    );
    assert_eq!(
        configure(Some(b"+".to_vec())),
        Err(ConfigError::BadInterval)
    );
    assert_eq!(
        configure(Some(b"-".to_vec())),
        Err(ConfigError::BadInterval)
    );
    assert_eq!(
        configure(Some(b"+-5".to_vec())),
        Err(ConfigError::BadInterval)
    );
    assert_eq!(
        configure(Some(b" 5".to_vec())),
        Err(ConfigError::BadInterval)
    );
    // one past each end of the i64 range
    assert_eq!(
        configure(Some(b"9223372036854775808".to_vec())),
        Err(ConfigError::BadInterval)
    );
    assert_eq!(
        configure(Some(b"-9223372036854775809".to_vec())),
        Err(ConfigError::BadInterval)
    );
}
