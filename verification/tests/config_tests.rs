use data_collect::config::{data_dir_path, normalize_imo, Config, ConfigError, EnvVar};
use data_collect::dates::CalendarDate;

fn make(imo: &str, date: &str, source: Option<&str>, dp: Option<&str>) -> Result<Config, ConfigError> {
    Config::new(
        "/opt/app".to_string(),
        "/opt/app/out".to_string(),
        imo,
        date,
        source.map(|s| s.to_string()),
        dp.map(|s| s.to_string()),
    )
}

#[test]
fn settings_from_arguments_and_environment() {
    let c = make("IMO9986104", "20250530", Some("/data"), Some("/dp")).ok().unwrap();
    assert_eq!(c.imo, "9986104");
    assert_eq!((c.date.year, c.date.month, c.date.day), (2025, 5, 30));
    assert_eq!(c.data_dir, "/data/IMO9986104/2025/05/30");
    assert_eq!(c.dp_dir, "/dp");
    assert_eq!(c.base, "/opt/app");
    assert_eq!(c.out, "/opt/app/out");
    assert_eq!(c.date.compact_text(), "20250530");
}

#[test]
fn a_bare_hull_number_is_kept() {
    let c = make("9986104", "20240101", Some("src"), Some("dp")).ok().unwrap();
    assert_eq!(c.imo, "9986104");
    assert_eq!(c.data_dir, "src/IMO9986104/2024/01/01");
}

#[test]
fn the_date_is_checked_before_the_environment() {
    assert!(matches!(make("IMO1", "2025-05-30", None, None), Err(ConfigError::Date(_))));
    assert!(matches!(
        make("IMO1", "20250530", None, None),
        Err(ConfigError::MissingVar(EnvVar::DataSource))
    ));
    assert!(matches!(
        make("IMO1", "20250530", Some("s"), None),
        Err(ConfigError::MissingVar(EnvVar::DpPath))
    ));
}

#[test]
fn imo_marks_are_all_removed() {
    assert_eq!(normalize_imo("IMOIMO42IMO"), "42");
    assert_eq!(normalize_imo(""), "");
}

#[test]
fn data_dir_pads_month_and_day() {
    let d = CalendarDate { year: 2025, month: 1, day: 9 };
    assert_eq!(data_dir_path("/d", "7", &d), "/d/IMO7/2025/01/09");
}

#[test]
fn settings_for_a_date_already_read() {
    let d = CalendarDate { year: 2023, month: 12, day: 1 };
    let c = Config::from_date("b".to_string(), "o".to_string(), "IMO5", d, Some("/s".to_string()), Some("/p".to_string()))
        .ok()
        .unwrap();
    assert_eq!(c.data_dir, "/s/IMO5/2023/12/01");
    assert_eq!(c.imo, "5");
    let d2 = CalendarDate { year: 2023, month: 12, day: 1 };
    assert!(matches!(
        Config::from_date("b".to_string(), "o".to_string(), "IMO5", d2, Some("/s".to_string()), None),
        Err(ConfigError::MissingVar(EnvVar::DpPath))
    ));
}
