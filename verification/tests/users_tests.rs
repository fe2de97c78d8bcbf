use tztui::config::{Alignment, CompleteConfig, FrontendConfig, TerminalConfig};
use tztui::strutil::{i64_to_string, u64_to_string};
use tztui::users::{upsert_user, users_contain, User};

#[test]
fn upsert_updates_in_place_or_appends() {
    let mut users = vec![User::new("a".to_string(), 1), User::new("b".to_string(), 2)];
    upsert_user(&mut users, "a", 9);
    assert_eq!(users.len(), 2);
    assert_eq!(users[0].offset, 9);
    assert_eq!(users[0].name, "a");
    upsert_user(&mut users, "c", 3);
    assert_eq!(users.len(), 3);
    assert_eq!(users[2].name, "c");
    assert_eq!(users[2].offset, 3);
}

#[test]
fn membership_goes_by_name() {
    let mut users = Vec::new();
    assert!(!users_contain(&users, "a"));
    upsert_user(&mut users, "a", 1);
    assert!(users_contain(&users, "a"));
    assert!(!users_contain(&users, "b"));
}

#[test]
fn the_defaults_match_the_documented_configuration() {
    let c = CompleteConfig::default();
    assert_eq!(c.terminal.tick_delay, 30);
    assert_eq!(c.frontend.time_format, "%c");
    assert!(matches!(c.frontend.alignment, Alignment::Right));
    assert_eq!(c.frontend.padding, 0);
    assert_eq!(TerminalConfig::default().tick_delay, 30);
    assert!(matches!(Alignment::default(), Alignment::Right));
    assert_eq!(FrontendConfig::default().time_format, "%c");
}

#[test]
fn decimal_rendering_matches_the_usual_form() {
    assert_eq!(u64_to_string(0), "0");
    assert_eq!(u64_to_string(10), "10");
    assert_eq!(u64_to_string(18446744073709551615), "18446744073709551615");
    assert_eq!(i64_to_string(0), "0");
    assert_eq!(i64_to_string(-1), "-1");
    assert_eq!(i64_to_string(42), "42");
    assert_eq!(i64_to_string(i64::MIN), "-9223372036854775808");
    assert_eq!(i64_to_string(i64::MAX), "9223372036854775807");
}
