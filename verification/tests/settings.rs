use monitor_app::settings::{get, init, Settings, SettingsStore};

#[test]
fn defaults_are_valid() {
    Settings::default().validate().unwrap();
}

#[test]
fn rejects_out_of_range_interval() {
    let mut s = Settings::default();
    s.foreground_interval_ms = 10;
    assert!(s.validate().is_err());
    s.foreground_interval_ms = 100_000;
    assert!(s.validate().is_err());
}

#[test]
fn launch_at_login_defaults_off() {
    assert!(!Settings::default().launch_at_login);
}

#[test]
fn validation_messages_name_field_and_value() {
    let mut s = Settings::default();
    s.foreground_interval_ms = 10;
    assert_eq!(s.validate().unwrap_err(), "foreground_interval_ms 10 out of range 500-10000");
    s.foreground_interval_ms = 500;
    s.background_interval_ms = 30_001;
    assert_eq!(s.validate().unwrap_err(), "background_interval_ms 30001 out of range 1000-30000");
    s.background_interval_ms = 30_000;
    assert!(s.validate().is_ok());
    assert_eq!(Settings::default().language, "system");
}

#[test]
fn store_paths_join_the_directory() {
    let store = SettingsStore::new("/tmp/monitor".to_string());
    assert_eq!(store.path(), "/tmp/monitor/settings.json");
    assert_eq!(store.temp_path(), "/tmp/monitor/settings.json.tmp");
    let store = SettingsStore::new("/tmp/monitor/".to_string());
    assert_eq!(store.path(), "/tmp/monitor/settings.json");
}

#[test]
fn set_needs_a_store_and_valid_values() {
    let mut store: Option<SettingsStore> = None;
    assert_eq!(monitor_app::settings::set(&store, &Settings::default()).err(), Some("settings store not initialized".to_string()));
    init(&mut store, "/tmp/m".to_string());
    let t = monitor_app::settings::set(&store, &Settings::default()).ok().expect("valid settings are accepted");
    assert_eq!(t.temp, "/tmp/m/settings.json.tmp");
    assert_eq!(t.target, "/tmp/m/settings.json");
    let mut bad = Settings::default();
    bad.background_interval_ms = 10;
    assert_eq!(monitor_app::settings::set(&store, &bad).err(), Some("background_interval_ms 10 out of range 1000-30000".to_string()));
}

#[test]
fn get_falls_back_to_defaults() {
    let d = get(None);
    assert_eq!((d.foreground_interval_ms, d.background_interval_ms, d.launch_at_login), (1000, 3000, false));
    let mut s = Settings::default();
    s.foreground_interval_ms = 2000;
    assert_eq!(get(Some(s)).foreground_interval_ms, 2000);
}
