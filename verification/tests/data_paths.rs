use monitor_app::data_paths::{join_path, DataPaths};

#[test]
fn paths_live_under_the_root() {
    let p = DataPaths { root: "/var/data/monitor".to_string() };
    assert_eq!(p.db_path(), "/var/data/monitor/monitor.db");
    assert_eq!(p.lock_path(), "/var/data/monitor/monitor.lock");
    assert_eq!(p.settings_dir(), "/var/data/monitor");
}

#[test]
fn join_follows_path_rules() {
    assert_eq!(join_path(&"a/".to_string(), "b"), "a/b");
    assert_eq!(join_path(&"".to_string(), "b"), "b");
    assert_eq!(join_path(&"a".to_string(), "/abs"), "/abs");
    let std_join = std::path::Path::new("x/y").join("z");
    assert_eq!(join_path(&"x/y".to_string(), "z"), std_join.to_str().unwrap());
}
