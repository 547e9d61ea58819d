use deep_log::{current_datetime, should_log, should_log_file, LogState, LogZone};

#[test]
fn test_set_none_affiche_rien() {
    let mut st = LogState::new();
    deep_log::config::set(&mut st, 0, LogZone::ALL());
    assert!(!should_log(&st, LogZone::BASIC(), 10));
    assert!(!should_log(&st, LogZone::BASIC(), 100));
}

#[test]
fn test_set_10_affiche_inferieur_egal() {
    let mut st = LogState::new();
    deep_log::config::set(&mut st, 10, LogZone::ALL());
    assert!(should_log(&st, LogZone::BASIC(), 1));
    assert!(should_log(&st, LogZone::BASIC(), 10));
    assert!(!should_log(&st, LogZone::BASIC(), 11));
    assert!(!should_log(&st, LogZone::BASIC(), 50));
}

#[test]
fn test_set_100_affiche_tout() {
    let mut st = LogState::new();
    deep_log::config::set(&mut st, 100, LogZone::ALL());
    assert!(should_log(&st, LogZone::BASIC(), 1));
    assert!(should_log(&st, LogZone::BASIC(), 10));
    assert!(should_log(&st, LogZone::BASIC(), 50));
    assert!(should_log(&st, LogZone::BASIC(), 100));
}

#[test]
fn test_zones_filtrent() {
    let mut st = LogState::new();
    deep_log::config::set(&mut st, 100, LogZone::BASIC() | LogZone::MATRIX());
    assert!(should_log(&st, LogZone::BASIC(), 10));
    assert!(should_log(&st, LogZone::MATRIX(), 50));
    assert!(!should_log(&st, LogZone::RENDER(), 10));
    assert!(!should_log(&st, LogZone::CHUNK(), 10));
}

#[test]
fn test_custom_zone() {
    let my_ai = LogZone::custom(1 << 8);
    let mut st = LogState::new();
    deep_log::config::set(&mut st, 10, my_ai);
    assert!(should_log(&st, my_ai, 10));
    assert!(!should_log(&st, LogZone::BASIC(), 10));
}

#[test]
fn test_zone_debug() {
    let z = LogZone::BASIC() | LogZone::MATRIX();
    assert_eq!(z.to_debug_string(), "BASIC|MATRIX");
    assert_eq!(LogZone::NONE().to_debug_string(), "NONE");
    assert_eq!(LogZone::ALL().to_debug_string(), "ALL");
}

#[test]
fn test_iter_single() {
    let z = LogZone::BASIC() | LogZone::PHYSICS();
    let singles: Vec<u32> = z.iter_single().iter().map(|z| z.0).collect();
    assert!(singles.contains(&LogZone::BASIC().0));
    assert!(singles.contains(&LogZone::PHYSICS().0));
    assert_eq!(singles.len(), 2);
}

#[test]
fn test_zone_name() {
    assert_eq!(LogZone::BASIC().name(), "BASIC");
    assert_eq!(LogZone::RENDER().name(), "RENDER");
    assert_eq!(LogZone::PHYSICS().name(), "PHYSICS");
}

#[test]
fn test_should_log_file() {
    let mut st = LogState::new();
    st.file_level = 50;
    st.file_zones = LogZone(LogZone::BASIC().0);
    assert!(should_log_file(&st, LogZone::BASIC(), 10));
    assert!(should_log_file(&st, LogZone::BASIC(), 50));
    assert!(!should_log_file(&st, LogZone::BASIC(), 51));
    assert!(!should_log_file(&st, LogZone::RENDER(), 10));
}

#[test]
fn test_datetime_format() {
    let dt = current_datetime();
    assert_eq!(dt.len(), 19, "datetime = '{}'", dt);
    assert_eq!(&dt[4..5], "-");
    assert_eq!(&dt[7..8], "-");
    assert_eq!(&dt[10..11], "_");
    assert_eq!(&dt[13..14], "-");
    assert_eq!(&dt[16..17], "-");
}
