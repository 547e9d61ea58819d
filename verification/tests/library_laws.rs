use deep_log::{
    civil_from_days, enable_file_output, file_label_of, files_to_open, plan_files, format_clock_reading, format_datetime, format_line, level,
    log_file_path, route, set_all, set_none, should_log, should_log_file, zones, LogState,
    LogZone, Route,
};

#[test]
fn set_reads_back() {
    let mut st = LogState::new();
    deep_log::config::set(&mut st, 42, LogZone::RENDER() | LogZone::NET());
    assert_eq!(level(&st), 42);
    assert!(zones(&st) == LogZone(2 | 128));
}

#[test]
fn new_state_is_silent() {
    let st = LogState::new();
    assert_eq!(level(&st), 0);
    assert!(zones(&st) == LogZone::NONE());
    assert!(!should_log(&st, LogZone::ALL(), 0));
    assert!(!should_log_file(&st, LogZone::ALL(), 0));
}

#[test]
fn set_all_and_set_none_match_set() {
    let mut a = LogState::new();
    set_all(&mut a);
    let mut b = LogState::new();
    deep_log::config::set(&mut b, 100, LogZone::ALL());
    assert!(a == b);
    assert!(should_log(&a, LogZone::CHUNK(), 100));
    assert!(!should_log(&a, LogZone::CHUNK(), 101));
    set_none(&mut a);
    deep_log::config::set(&mut b, 0, LogZone::ALL());
    assert!(a == b);
    assert!(!should_log(&a, LogZone::CHUNK(), 0));
}

#[test]
fn level_zero_message_passes_when_on() {
    let mut st = LogState::new();
    deep_log::config::set(&mut st, 1, LogZone::BASIC());
    assert!(should_log(&st, LogZone::BASIC(), 0));
    assert!(!should_log(&st, LogZone::NONE(), 0));
}

#[test]
fn console_and_file_are_independent() {
    let mut st = LogState::new();
    deep_log::config::set(&mut st, 10, LogZone::RENDER());
    enable_file_output(&mut st, 100, LogZone::PHYSICS());
    assert!(route(&st, LogZone::PHYSICS(), 70) == Route { console: false, file: true });
    assert!(route(&st, LogZone::RENDER(), 10) == Route { console: true, file: false });
    assert!(route(&st, LogZone::RENDER() | LogZone::PHYSICS(), 10) == Route { console: true, file: true });
    deep_log::config::set(&mut st, 0, LogZone::NONE());
    assert!(should_log_file(&st, LogZone::PHYSICS(), 100));
}

#[test]
fn enable_file_keeps_earlier_zones() {
    let mut st = LogState::new();
    enable_file_output(&mut st, 100, LogZone::BASIC());
    enable_file_output(&mut st, 50, LogZone::AUDIO());
    assert!(st.file_zones == LogZone(1 | 64));
    assert_eq!(st.file_level, 50);
    assert!(should_log_file(&st, LogZone::BASIC(), 50));
    assert!(should_log_file(&st, LogZone::AUDIO(), 50));
    assert!(!should_log_file(&st, LogZone::AUDIO(), 51));
    assert!(!should_log(&st, LogZone::AUDIO(), 1));
}

#[test]
fn union_and_contains() {
    let a = LogZone::BASIC() | LogZone::SHADER();
    assert_eq!(a.0, 9);
    let mut b = LogZone::NONE();
    b |= LogZone::SHADER();
    b |= LogZone::BASIC();
    assert!(a == b);
    assert!(a.contains(LogZone::SHADER()));
    assert!(LogZone::SHADER().contains(a));
    assert!(!a.contains(LogZone::RENDER()));
    assert!(LogZone::ALL().contains(LogZone::custom(1 << 31)));
    assert!(!LogZone::NONE().contains(LogZone::ALL()));
    assert!(!LogZone::custom(0xFF00).contains(LogZone(0xFF)));
}

#[test]
fn predefined_zone_bits() {
    let zs = [
        LogZone::BASIC(),
        LogZone::RENDER(),
        LogZone::MATRIX(),
        LogZone::SHADER(),
        LogZone::CHUNK(),
        LogZone::PHYSICS(),
        LogZone::AUDIO(),
        LogZone::NET(),
    ];
    for (k, z) in zs.iter().enumerate() {
        assert_eq!(z.0, 1u32 << k);
        assert_eq!(z.to_debug_string(), z.name());
    }
    assert_eq!(LogZone::NONE().0, 0);
    assert_eq!(LogZone::ALL().0, u32::MAX);
}

#[test]
fn names_of_other_zones_are_custom() {
    assert_eq!(LogZone::NET().name(), "NET");
    assert_eq!(LogZone::AUDIO().name(), "AUDIO");
    assert_eq!(LogZone::SHADER().name(), "SHADER");
    assert_eq!(LogZone::CHUNK().name(), "CHUNK");
    assert_eq!(LogZone::MATRIX().name(), "MATRIX");
    assert_eq!(LogZone::custom(1 << 8).name(), "CUSTOM");
    assert_eq!((LogZone::BASIC() | LogZone::RENDER()).name(), "CUSTOM");
    assert_eq!(LogZone::NONE().name(), "CUSTOM");
}

#[test]
fn debug_text_of_mixed_zones() {
    let z = LogZone::NET() | LogZone::custom(1 << 20) | LogZone::RENDER();
    assert_eq!(z.to_debug_string(), "RENDER|NET|CUSTOM");
    assert_eq!(LogZone::custom(1 << 9).to_debug_string(), "CUSTOM");
    assert_eq!(LogZone(u32::MAX - 1).to_debug_string(),
        "RENDER|MATRIX|SHADER|CHUNK|PHYSICS|AUDIO|NET|CUSTOM");
}

#[test]
fn iter_single_order_and_union() {
    let z = LogZone(0x8000_0105);
    let singles: Vec<u32> = z.iter_single().iter().map(|s| s.0).collect();
    assert_eq!(singles, vec![1, 4, 0x100, 0x8000_0000]);
    let mut back = LogZone::NONE();
    for s in z.iter_single() {
        back = back | s;
    }
    assert!(back == z);
    assert!(LogZone::NONE().iter_single().is_empty());
    assert_eq!(LogZone::ALL().iter_single().len(), 32);
}

#[test]
fn datetime_known_instants() {
    assert_eq!(format_datetime(0), "1970-01-01_00-00-00");
    assert_eq!(format_datetime(86399), "1970-01-01_23-59-59");
    assert_eq!(format_datetime(68169600), "1972-02-29_00-00-00");
    assert_eq!(format_datetime(951782400), "2000-02-29_00-00-00");
    assert_eq!(format_datetime(1774276200), "2026-03-23_14-30-00");
    assert_eq!(format_datetime(4102444799), "2099-12-31_23-59-59");
}

#[test]
fn datetime_past_year_9999_widens() {
    let t = format_datetime(253402300800);
    assert_eq!(t, "10000-01-01_00-00-00");
    assert_eq!(t.len(), 20);
}

#[test]
fn civil_dates() {
    assert_eq!(civil_from_days(0), (1970, 1, 1));
    assert_eq!(civil_from_days(58), (1970, 2, 28));
    assert_eq!(civil_from_days(59), (1970, 3, 1));
    assert_eq!(civil_from_days(789), (1972, 2, 29));
    assert_eq!(civil_from_days(11016), (2000, 2, 29));
    assert_eq!(civil_from_days(47540), (2100, 2, 28));
    assert_eq!(civil_from_days(47541), (2100, 3, 1));
}

#[test]
fn file_paths() {
    let p = log_file_path("logs/", LogZone::BASIC(), "2026-03-23_14-30-00", '/');
    assert_eq!(p, "logs/BASIC_2026-03-23_14-30-00.log");
    let p = log_file_path("logs///", LogZone::PHYSICS(), "X", '\\');
    assert_eq!(p, "logs\\PHYSICS_X.log");
    let p = log_file_path("", LogZone::custom(1 << 12), "d", '/');
    assert_eq!(p, "/CUSTOM4096_d.log");
}

#[test]
fn files_to_open_plans_every_zone_each_call() {
    let zs = LogZone::BASIC() | LogZone::PHYSICS() | LogZone::NET();
    let plan = files_to_open(zs, "logs/", "D");
    assert_eq!(plan.len(), 3);
    assert_eq!(plan[0].0, 1);
    assert_eq!(plan[1].0, 32);
    assert_eq!(plan[2].0, 128);
    let sep = std::path::MAIN_SEPARATOR;
    assert_eq!(plan[0].1, format!("logs{}BASIC_D.log", sep));
    assert_eq!(plan[1].1, format!("logs{}PHYSICS_D.log", sep));
    assert_eq!(plan[2].1, format!("logs{}NET_D.log", sep));
    let again = files_to_open(LogZone::BASIC(), "logs/", "E");
    assert_eq!(again.len(), 1);
    assert_eq!(again[0].1, format!("logs{}BASIC_E.log", sep));
    assert!(files_to_open(LogZone::NONE(), "logs", "D").is_empty());
}

#[test]
fn custom_zones_get_their_own_files() {
    let a = log_file_path("logs", LogZone::custom(1 << 8), "D", '/');
    let b = log_file_path("logs", LogZone::custom(1 << 9), "D", '/');
    assert_eq!(a, "logs/CUSTOM256_D.log");
    assert_eq!(b, "logs/CUSTOM512_D.log");
    assert_ne!(a, b);
    assert_eq!(file_label_of(LogZone::AUDIO()), "AUDIO");
    assert_eq!(file_label_of(LogZone::NONE()), "CUSTOM0");
    assert_eq!(file_label_of(LogZone::BASIC() | LogZone::RENDER()), "CUSTOM3");
    let plan = files_to_open(LogZone::custom((1 << 8) | (1 << 31)), "x", "D");
    assert_eq!(plan.len(), 2);
    let sep = std::path::MAIN_SEPARATOR;
    assert_eq!(plan[0].1, format!("x{}CUSTOM256_D.log", sep));
    assert_eq!(plan[1].1, format!("x{}CUSTOM2147483648_D.log", sep));
}

#[test]
fn plan_with_given_separator() {
    let plan = plan_files(LogZone::RENDER() | LogZone::custom(1 << 10), "out//", "T", '\\');
    assert_eq!(plan.len(), 2);
    assert_eq!(plan[0].0, 2);
    assert_eq!(plan[0].1, "out\\RENDER_T.log");
    assert_eq!(plan[1].0, 1024);
    assert_eq!(plan[1].1, "out\\CUSTOM1024_T.log");
}

#[test]
fn last_second_before_year_10000() {
    let t = format_datetime(253402300799);
    assert_eq!(t, "9999-12-31_23-59-59");
    assert_eq!(t.len(), 19);
}

#[test]
fn clock_readings() {
    assert_eq!(format_clock_reading(None), "1970-01-01_00-00-00");
    assert_eq!(format_clock_reading(Some(1774276200)), "2026-03-23_14-30-00");
}

#[test]
fn later_instants_sort_later() {
    let times = [0u64, 59, 60, 3599, 3600, 86399, 86400, 951782399, 951782400, 1774276200,
        253402300799];
    for w in times.windows(2) {
        let a = format_datetime(w[0]);
        let b = format_datetime(w[1]);
        assert!(a < b, "{} < {}", a, b);
    }
}

#[test]
fn line_format() {
    let z = LogZone::BASIC() | LogZone::MATRIX();
    assert_eq!(format_line(z, 10, "hello"), "[BASIC|MATRIX|10] hello");
    assert_eq!(format_line(LogZone::NONE(), 0, ""), "[NONE|0] ");
    assert_eq!(format_line(LogZone::ALL(), 255, "x"), "[ALL|255] x");
}
