use autofilm::alist2strm::path::{bdmv_root, join_alist_path, movie_title_from_bdmv_root, AlistPath};
use autofilm::alist2strm::protection::ProtectionManager;
use autofilm::alist2strm::{Mode, SmartProtection};
use autofilm::app_info::{Center, APP_VERSION};
use std::collections::HashSet;

#[test]
fn parses_mode_case_insensitively() {
    assert_eq!(Mode::from_str("rawurl"), Mode::RawURL);
    assert_eq!(Mode::from_str("AlistPath"), Mode::AlistPath);
    assert_eq!(Mode::from_str("unknown"), Mode::AlistURL);
}

#[test]
fn joins_alist_paths_without_double_slashes() {
    assert_eq!(join_alist_path("/", "movie.mkv"), "/movie.mkv");
    assert_eq!(join_alist_path("/media", "movie.mkv"), "/media/movie.mkv");
}

#[test]
fn extracts_bdmv_root_and_title() {
    let path = AlistPath {
        server_url: "http://alist".into(),
        base_path: String::new(),
        full_path: "/电影/Example/BDMV/STREAM/00001.m2ts".into(),
        name: "00001.m2ts".into(),
        size: 1,
        is_dir: false,
        modified_timestamp: 0,
        sign: String::new(),
        raw_url: None,
    };
    assert_eq!(bdmv_root(&path).as_deref(), Some("/电影/Example"));
    assert_eq!(movie_title_from_bdmv_root("/电影/Example"), "Example");
}

#[test]
fn delays_large_deletions_until_grace_count() {
    let target_dir = "/tmp/autofilm-protection-test".to_string();
    let config = SmartProtection {
        enabled: true,
        threshold: 1,
        grace_scans: 2,
    };
    let mut manager = ProtectionManager::new(target_dir.clone(), "test", &config, Vec::new());
    let file = format!("{target_dir}/movie.strm");

    let first = manager.process(vec![file.clone()], &Vec::new());
    assert!(first.is_empty());

    let second = manager.process(vec![file.clone()], &Vec::new());
    let second: HashSet<String> = second.into_iter().collect();
    assert_eq!(second, HashSet::from([file]));
}

#[test]
fn version_comes_from_cargo_package() {
    // The crate is published as version 0.1.0.
    assert_eq!(APP_VERSION, "v0.1.0");
}

#[test]
fn centers_banner_title() {
    assert_eq!(" AutoFilm ".center(14, "="), "== AutoFilm ==");
}
