use knowit::config::UserConfig;

fn history(config: &UserConfig) -> Vec<&str> {
    config.file_history.iter().map(|(f, _)| f.as_str()).collect()
}

#[test]
fn default_config_points_at_the_current_folder() {
    let config = UserConfig::default();
    assert_eq!(config.quiz_folder, ".");
    assert!(config.file_history.is_empty());
}

#[test]
fn recording_a_use_puts_the_file_in_front() {
    let mut config = UserConfig::default();
    config.record_file_use("a.csv".to_string(), 100);
    config.record_file_use("b.csv".to_string(), 200);
    assert_eq!(history(&config), vec!["b.csv", "a.csv"]);
    assert_eq!(config.file_history[0].1, 200);
    assert_eq!(config.file_history[1].1, 100);
}

#[test]
fn recording_the_same_file_moves_it_without_duplicating() {
    let mut config = UserConfig::default();
    config.record_file_use("a.csv".to_string(), 1);
    config.record_file_use("b.csv".to_string(), 2);
    config.record_file_use("c.csv".to_string(), 3);
    config.record_file_use("a.csv".to_string(), 4);
    assert_eq!(history(&config), vec!["a.csv", "c.csv", "b.csv"]);
    assert_eq!(config.file_history[0].1, 4);
}

#[test]
fn the_history_is_capped_at_ten_entries() {
    let mut config = UserConfig::default();
    for i in 0..15 {
        config.record_file_use(format!("file{i}.csv"), i);
    }
    assert_eq!(config.file_history.len(), 10);
    assert_eq!(
        history(&config),
        vec![
            "file14.csv",
            "file13.csv",
            "file12.csv",
            "file11.csv",
            "file10.csv",
            "file9.csv",
            "file8.csv",
            "file7.csv",
            "file6.csv",
            "file5.csv"
        ]
    );
}

#[test]
fn update_file_history_stamps_with_the_clock() {
    let mut config = UserConfig::default();
    config.record_file_use("old.csv".to_string(), 5);
    config.update_file_history("new.csv".to_string());
    assert_eq!(history(&config), vec!["new.csv", "old.csv"]);
    assert!(config.file_history[0].1 > 5);
}
