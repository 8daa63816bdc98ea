use chain_table::config::{Config, ConfigError};
use chain_table::nonce::MAX_NONCE_WIDTH;

#[test]
fn accepts_the_usual_parameters() {
    let config = Config::new(4, 100, 1_000_000).unwrap();
    assert_eq!(config.nonce_width(), 4);
    assert_eq!(config.stretch_rounds(), 100);
    assert_eq!(config.report_interval(), 1_000_000);
}

#[test]
fn accepts_every_width_up_to_the_limit() {
    for width in 1..=MAX_NONCE_WIDTH {
        assert_eq!(Config::new(width, 0, 0).unwrap().nonce_width(), width);
    }
}

#[test]
fn rejects_width_zero() {
    assert_eq!(Config::new(0, 100, 10).err(), Some(ConfigError::ZeroWidth));
}

#[test]
fn rejects_a_width_above_the_limit() {
    assert_eq!(Config::new(8, 100, 10).err(), Some(ConfigError::NonceTooWide));
    assert_eq!(Config::new(32, 100, 10).err(), Some(ConfigError::NonceTooWide));
    assert_eq!(Config::new(33, 100, 10).err(), Some(ConfigError::NonceTooWide));
    assert_eq!(Config::new(usize::MAX, 0, 0).err(), Some(ConfigError::NonceTooWide));
}

#[test]
fn report_is_due_at_every_multiple_of_the_interval() {
    let config = Config::new(4, 100, 1000).unwrap();
    assert!(!config.report_due(0));
    assert!(!config.report_due(1));
    assert!(!config.report_due(999));
    assert!(config.report_due(1000));
    assert!(!config.report_due(1001));
    assert!(config.report_due(5000));
}

#[test]
fn interval_zero_never_reports() {
    let config = Config::new(4, 100, 0).unwrap();
    assert!(!config.report_due(0));
    assert!(!config.report_due(1));
    assert!(!config.report_due(1000));
}

#[test]
fn interval_one_reports_after_every_nonce() {
    let config = Config::new(1, 0, 1).unwrap();
    assert!(!config.report_due(0));
    assert!(config.report_due(1));
    assert!(config.report_due(2));
    assert!(config.report_due(u64::MAX));
}
