use rsahp::datadir::{app_paths, database_url_from_path, resolve, AppPaths};

#[test]
fn database_url_unix_absolute() {
    let unix = database_url_from_path("/home/u/.local/share/rsahp/rsahp.db");
    assert_eq!(unix, "sqlite:///home/u/.local/share/rsahp/rsahp.db?mode=rwc");
}

#[test]
fn database_url_windows_encodes_space_in_username() {
    let win = database_url_from_path(r"C:\Users\John Doe\AppData\Local\rsahp\rsahp.db");
    assert_eq!(win, "sqlite:///C:/Users/John%20Doe/AppData/Local/rsahp/rsahp.db?mode=rwc");
}

#[test]
fn database_url_encodes_url_structural_characters() {
    let url = database_url_from_path("/data/a#b?c%d{e}|f^g\"h<i>`j.db");
    assert_eq!(
        url,
        "sqlite:///data/a%23b%3Fc%25d%7Be%7D%7Cf%5Eg%22h%3Ci%3E%60j.db?mode=rwc"
    );
}

#[test]
fn database_url_keeps_path_characters() {
    let url = database_url_from_path("/a-b_c~d.e:f/g");
    assert_eq!(url, "sqlite:///a-b_c~d.e:f/g?mode=rwc");
}

#[test]
fn database_url_encodes_non_ascii_and_controls() {
    let url = database_url_from_path("/home/jos\u{e9}/x\ty.db");
    assert_eq!(url, "sqlite:///home/jos%C3%A9/x%09y.db?mode=rwc");
}

#[test]
fn database_url_adds_leading_slash_to_relative_path() {
    assert_eq!(database_url_from_path("rsahp.db"), "sqlite:///rsahp.db?mode=rwc");
    assert_eq!(database_url_from_path(""), "sqlite:///?mode=rwc");
}

#[test]
fn app_paths_database_url_uses_db_path() {
    let paths = AppPaths {
        data_dir: "/home/u/.local/share/rsahp".to_string(),
        config_path: "/home/u/.local/share/rsahp/config.json".to_string(),
        db_path: "/home/u/.local/share/rsahp/rsahp.db".to_string(),
        logs_dir: "/home/u/.local/share/rsahp/logs".to_string(),
    };
    assert_eq!(paths.database_url(), "sqlite:///home/u/.local/share/rsahp/rsahp.db?mode=rwc");
}

#[test]
fn the_files_sit_in_the_data_directory() {
    let p = app_paths("/home/u/.local/share/rsahp");
    assert_eq!(p.data_dir, "/home/u/.local/share/rsahp");
    assert_eq!(p.config_path, "/home/u/.local/share/rsahp/config.json");
    assert_eq!(p.db_path, "/home/u/.local/share/rsahp/rsahp.db");
    assert_eq!(p.logs_dir, "/home/u/.local/share/rsahp/logs");
    assert_eq!(app_paths("C:\\Data\\").db_path, "C:\\Data\\rsahp.db");
    if let Some(r) = resolve() {
        assert!(r.data_dir.to_lowercase().contains("rsahp"));
        assert_eq!(r.config_path, format!("{}/config.json", r.data_dir));
    }
}
