use autofilm::alist::{client_authentication, id_taken, server_url, unique_connections, AlistConfig as Connection};
use autofilm::alist2strm::path::{
    bdmv_root, encode_path, ensure_leading_slash, is_bdmv_file, movie_title_from_bdmv_root,
    relative_from_source, suffix_of, AlistObject, AlistPath,
};
use autofilm::alist2strm::protection::ProtectionManager;
use autofilm::alist2strm::runner::{
    authentication, companion_file_is_stale, normalize_url, protected_deletions, replace_first_exec,
    split_ignored, split_strm, stale_local_files, Alist2Strm, Authentication, BdmvCollections,
    ExistingDecision, IgnoreRule, PathDecision, RunError,
};
use autofilm::alist2strm::scan::{process_step, EntryAction, ProcessStep, RunCounters, Scan};
use autofilm::alist2strm::{
    default_grace_scans, default_max_downloaders, default_max_workers, default_protection_threshold,
    normalize_ext, normalize_exts, parse_ext_list, AlistConfig, Config, DownloadOption, Mode,
    SmartProtection, SyncConfig,
};
use autofilm::ani2alist::{default_rss_url, default_source_url, SourceConfig};
use autofilm::app_info::{banner_title, center_str, Center, APP_NAME};
use autofilm::fspath::{
    extension_vec, file_name_vec, is_strm_vec, join_vec, same_path_exec, strip_prefix_vec,
    with_strm_extension_vec,
};
use std::collections::HashSet;

fn remote(full_path: &str, size: u64) -> AlistPath {
    let name = full_path.rsplit('/').next().unwrap().to_string();
    AlistPath {
        server_url: "http://alist:5244".to_string(),
        base_path: String::new(),
        full_path: full_path.to_string(),
        name,
        size,
        is_dir: false,
        modified_timestamp: 100,
        sign: String::new(),
        raw_url: None,
    }
}

fn alist_config() -> AlistConfig {
    AlistConfig {
        base_url: "http://alist:5244".to_string(),
        public_url: None,
        username: None,
        password: None,
        otp_code: None,
        token: Some("token".to_string()),
    }
}

fn task_config() -> Config {
    Config {
        id: "task".to_string(),
        cron: None,
        alist: alist_config(),
        source_dir: "/source".to_string(),
        target_dir: "/media".to_string(),
        mode: Mode::AlistURL,
        flatten_mode: false,
        overwrite: false,
        download: DownloadOption::default(),
        sync: None,
        max_workers: 1,
        max_downloaders: 1,
    }
}

fn set(v: &[&str]) -> HashSet<String> {
    v.iter().map(|s| s.to_string()).collect()
}

fn as_set(v: Vec<String>) -> HashSet<String> {
    v.into_iter().collect()
}

#[test]
fn suffix_is_lower_case_with_dot() {
    assert_eq!(suffix_of("Movie.MKV"), ".mkv");
    assert_eq!(suffix_of("archive.tar.GZ"), ".gz");
    assert_eq!(suffix_of("noext"), "");
    assert_eq!(suffix_of(".hidden"), ".hidden");
}

#[test]
fn leading_slash_and_relative_paths() {
    assert_eq!(ensure_leading_slash("a/b"), "/a/b");
    assert_eq!(ensure_leading_slash("/a"), "/a");
    assert_eq!(relative_from_source("/source/sub/movie.mkv", "/source/"), "sub/movie.mkv");
    assert_eq!(relative_from_source("/other/x.mkv", "/source"), "other/x.mkv");
}

#[test]
fn movie_title_falls_back_to_bdmv() {
    assert_eq!(movie_title_from_bdmv_root("/电影/Example/"), "Example");
    assert_eq!(movie_title_from_bdmv_root("/"), "BDMV");
    assert_eq!(movie_title_from_bdmv_root(""), "BDMV");
}

#[test]
fn bdmv_detection() {
    let stream = remote("/movies/Disc/BDMV/STREAM/00001.M2TS", 5);
    assert!(is_bdmv_file(&stream));
    assert_eq!(bdmv_root(&stream).as_deref(), Some("/movies/Disc"));
    let clip = remote("/movies/Disc/BDMV/CLIPINF/00001.clpi", 5);
    assert!(!is_bdmv_file(&clip));
    let rootless = remote("/BDMV/STREAM/00001.m2ts", 5);
    assert_eq!(bdmv_root(&rootless), None);
}

#[test]
fn url_encoding_of_paths() {
    assert_eq!(encode_path("/电影/a b.mkv"), "/%E7%94%B5%E5%BD%B1/a%20b.mkv");
    assert_eq!(encode_path("a-b_c.d~e"), "a-b_c.d~e");
}

#[test]
fn download_url_keeps_base_path_and_sign() {
    let mut p = remote("电影/a b.mkv", 1);
    p.server_url = "http://alist:5244/".to_string();
    p.base_path = "/user/".to_string();
    p.sign = "abc=".to_string();
    assert_eq!(p.download_url(), "http://alist:5244/d/user/%E7%94%B5%E5%BD%B1/a%20b.mkv?sign=abc%3D");
    let q = remote("/a.mkv", 1);
    assert_eq!(q.download_url(), "http://alist:5244/d/a.mkv");
}

#[test]
fn local_paths_of_videos_companions_and_discs() {
    let video = remote("/source/TV/a.mkv", 1);
    assert_eq!(video.local_path("/source", "/media", false, None), "/media/TV/a.strm");
    assert_eq!(video.local_path("/source", "/media", true, None), "/media/a.strm");
    let sub = remote("/source/TV/a.ass", 1);
    assert_eq!(sub.local_path("/source", "/media", false, None), "/media/TV/a.ass");
    let stream = remote("/source/Movies/Example/BDMV/STREAM/00001.m2ts", 1);
    assert_eq!(
        stream.local_path("/source", "/media", false, Some("/source/Movies/Example")),
        "/media/Movies/Example/Example.strm"
    );
    assert_eq!(
        stream.local_path("/source", "/media", true, Some("/source/Movies/Example")),
        "/media/Example.strm"
    );
}

#[test]
fn path_from_listing_entry() {
    let obj = AlistObject {
        name: "a.mkv".to_string(),
        size: -5,
        is_dir: false,
        modified: 42,
        sign: "s".to_string(),
    };
    let p = AlistPath::from_obj("http://x".to_string(), "/base".to_string(), "/dir/", obj);
    assert_eq!(p.full_path, "/dir/a.mkv");
    assert_eq!(p.size, 0);
    assert_eq!(p.modified_timestamp, 42);
    assert_eq!(p.raw_url, None);
    let p = p.with_raw_url("http://raw".to_string());
    assert_eq!(p.raw_url.as_deref(), Some("http://raw"));
    assert_eq!(p.suffix(), ".mkv");
}

#[test]
fn configuration_defaults() {
    assert_eq!(Mode::default(), Mode::AlistURL);
    assert_eq!(default_max_workers(), 50);
    assert_eq!(default_max_downloaders(), 5);
    assert_eq!(default_protection_threshold(), 100);
    assert_eq!(default_grace_scans(), 3);
    let p = SmartProtection::default();
    assert!(!p.enabled);
    assert_eq!((p.threshold, p.grace_scans), (100, 3));
    let d = DownloadOption::default();
    assert!(!d.subtitle && !d.image && !d.nfo && d.other_ext.is_empty());
    let s = SourceConfig::default();
    assert_eq!(s.source_url, "https://aniopen.an-i.workers.dev");
    assert_eq!(s.rss_url, default_rss_url());
    assert_eq!(default_source_url(), "https://aniopen.an-i.workers.dev");
}

#[test]
fn extension_lists_are_normalised() {
    assert_eq!(normalize_ext(" MKV "), ".mkv");
    assert_eq!(normalize_ext(".Ass"), ".ass");
    assert_eq!(parse_ext_list("mkv, .ASS,,  "), vec![".mkv".to_string(), ".ass".to_string()]);
    assert!(parse_ext_list("").is_empty());
    assert_eq!(
        normalize_exts(&vec!["MP4".to_string(), "".to_string()]),
        vec![".mp4".to_string(), ".".to_string()]
    );
}

#[test]
fn urls_are_normalised() {
    assert_eq!(normalize_url(" alist.example.com/ "), "https://alist.example.com");
    assert_eq!(normalize_url("http://x//"), "http://x");
    assert_eq!(normalize_url("https://y"), "https://y");
}

#[test]
fn authentication_prefers_token() {
    let mut c = alist_config();
    assert!(matches!(authentication(&c), Ok(Authentication::Token(t)) if t == "token"));
    c.token = Some("  ".to_string());
    assert!(matches!(authentication(&c), Err(RunError::MissingAuthentication)));
    c.username = Some("u".to_string());
    c.password = Some("p".to_string());
    assert!(matches!(
        authentication(&c),
        Ok(Authentication::UsernamePassword { username, password, otp_code: None }) if username == "u" && password == "p"
    ));
    c.password = Some(String::new());
    assert!(matches!(authentication(&c), Err(RunError::MissingAuthentication)));
}

#[test]
fn connections_without_credentials_are_anonymous() {
    let c = Connection {
        id: "a".to_string(),
        base_url: "http://a".to_string(),
        public_url: None,
        username: None,
        password: None,
        otp_code: None,
        token: None,
    };
    assert!(client_authentication(&c).is_none());
    assert_eq!(server_url(&c), "http://a");
    let mut d = c;
    d.public_url = Some("https://pub".to_string());
    d.token = Some("t".to_string());
    assert!(matches!(client_authentication(&d), Some(Authentication::Token(t)) if t == "t"));
    assert_eq!(server_url(&d), "https://pub");
}

#[test]
fn first_connection_of_each_id_wins() {
    let mk = |id: &str| Connection {
        id: id.to_string(),
        base_url: String::new(),
        public_url: None,
        username: None,
        password: None,
        otp_code: None,
        token: None,
    };
    let configs = vec![mk("a"), mk("b"), mk("a"), mk("c"), mk("b")];
    assert_eq!(unique_connections(&configs, &vec![true; 5]), vec![0, 1, 3]);
    // The first "a" failed to build: the later "a" takes its place.
    assert_eq!(unique_connections(&configs, &vec![false, true, true, true, true]), vec![1, 2, 3]);
    // A failed "c" leaves no client for "c".
    assert_eq!(unique_connections(&configs, &vec![true, true, true, false, true]), vec![0, 1]);
}

#[test]
fn a_taken_id_skips_the_connection() {
    let mk = |id: &str| Connection {
        id: id.to_string(),
        base_url: String::new(),
        public_url: None,
        username: None,
        password: None,
        otp_code: None,
        token: None,
    };
    let configs = vec![mk("a"), mk("b"), mk("a")];
    assert!(id_taken(&configs, &vec![true, true], 2));
    assert!(!id_taken(&configs, &vec![false, true], 2));
    assert!(!id_taken(&configs, &vec![], 0));
}

#[test]
fn strm_content_follows_the_mode() {
    let mut cfg = task_config();
    cfg.alist.public_url = Some("https://public.example/".to_string());
    let task = Alist2Strm::new(cfg);
    let p = remote("/source/a.mkv", 1);
    assert_eq!(
        task.strm_content("http://alist:5244", &p).as_deref(),
        Some("https://public.example/d/source/a.mkv")
    );
    let mut cfg = task_config();
    cfg.mode = Mode::RawURL;
    let task = Alist2Strm::new(cfg);
    assert_eq!(task.strm_content("http://alist:5244", &p), None);
    let with_raw = p.with_raw_url("http://raw/a".to_string());
    assert_eq!(task.strm_content("http://alist:5244", &with_raw).as_deref(), Some("http://raw/a"));
    let mut cfg = task_config();
    cfg.mode = Mode::AlistPath;
    let task = Alist2Strm::new(cfg);
    assert_eq!(task.strm_content("http://alist:5244", &with_raw).as_deref(), Some("/source/a.mkv"));
}

#[test]
fn replace_first_replaces_once() {
    assert_eq!(replace_first_exec("a-b-a", "a", "x"), "x-b-a");
    assert_eq!(replace_first_exec("abc", "z", "x"), "abc");
}

#[test]
fn companion_extensions_depend_on_options() {
    let mut cfg = task_config();
    cfg.download.subtitle = true;
    cfg.download.nfo = true;
    cfg.download.other_ext = vec![".TXT".to_string()];
    let task = Alist2Strm::new(cfg);
    assert_eq!(as_set(task.download_exts()), set(&[".ass", ".srt", ".ssa", ".sub", ".nfo", ".txt"]));
    assert!(as_set(task.process_exts()).contains(".mkv"));
    assert!(as_set(task.process_exts()).contains(".txt"));
    let mut flat = task_config();
    flat.flatten_mode = true;
    flat.download.subtitle = true;
    assert!(Alist2Strm::new(flat).download_exts().is_empty());
}

#[test]
fn classification_of_listed_files() {
    let mut cfg = task_config();
    cfg.download.subtitle = true;
    let task = Alist2Strm::new(cfg);
    let process = task.process_exts();
    let download = task.download_exts();
    assert!(matches!(
        task.classify_path(&remote("/source/@eaDir/a.mkv", 1), &process, &download),
        PathDecision::Filtered
    ));
    assert!(matches!(
        task.classify_path(&remote("/source/a.txt", 1), &process, &download),
        PathDecision::Filtered
    ));
    assert!(matches!(
        task.classify_path(&remote("/source/D/BDMV/index.bdmv", 1), &process, &download),
        PathDecision::Filtered
    ));
    assert!(matches!(
        task.classify_path(&remote("/source/D/BDMV/STREAM/1.m2ts", 1), &process, &download),
        PathDecision::BdmvCandidate(Some(r)) if r == "/source/D"
    ));
    assert!(matches!(
        task.classify_path(&remote("/source/a.mkv", 1), &process, &download),
        PathDecision::Candidate { local_path, companion: false } if local_path == "/media/a.strm"
    ));
    assert!(matches!(
        task.classify_path(&remote("/source/a.srt", 1), &process, &download),
        PathDecision::Candidate { local_path, companion: true } if local_path == "/media/a.srt"
    ));
}

#[test]
fn existing_files_are_skipped_unless_stale() {
    let task = Alist2Strm::new(task_config());
    assert!(matches!(task.existing_decision("/m/a.strm", false, false, false), ExistingDecision::Process));
    assert!(matches!(task.existing_decision("/m/a.strm", true, false, false), ExistingDecision::SkipStrm));
    assert!(matches!(task.existing_decision("/m/a.srt", true, true, false), ExistingDecision::SkipAttachment));
    assert!(matches!(task.existing_decision("/m/a.srt", true, true, true), ExistingDecision::Process));
    let mut cfg = task_config();
    cfg.overwrite = true;
    let task = Alist2Strm::new(cfg);
    assert!(matches!(task.existing_decision("/m/a.strm", true, false, false), ExistingDecision::Process));
}

#[test]
fn companion_staleness() {
    let p = remote("/a.srt", 10);
    assert!(companion_file_is_stale(9, Some(1000), &p));
    assert!(companion_file_is_stale(10, Some(100), &p));
    assert!(!companion_file_is_stale(10, Some(101), &p));
    assert!(!companion_file_is_stale(10, None, &p));
}

#[test]
fn largest_stream_of_each_disc_is_selected() {
    let mut c = BdmvCollections::new();
    c.add("/d1".to_string(), remote("/d1/BDMV/STREAM/1.m2ts", 5));
    c.add("/d2".to_string(), remote("/d2/BDMV/STREAM/1.m2ts", 7));
    c.add("/d1".to_string(), remote("/d1/BDMV/STREAM/2.m2ts", 9));
    c.add("/d1".to_string(), remote("/d1/BDMV/STREAM/3.m2ts", 9));
    assert_eq!(c.len(), 2);
    let picked: Vec<String> = c.finalize().into_iter().map(|p| p.full_path).collect();
    assert_eq!(picked, vec!["/d1/BDMV/STREAM/3.m2ts".to_string(), "/d2/BDMV/STREAM/1.m2ts".to_string()]);
}

#[test]
fn stale_files_and_strm_split() {
    let all = vec!["/m/a.strm".to_string(), "/m/b.strm".to_string(), "/m/c.nfo".to_string(), "/m/a.strm".to_string()];
    let processed = vec!["/m/a.strm".to_string()];
    let stale = stale_local_files(&all, &processed);
    assert_eq!(as_set(stale.clone()), set(&["/m/b.strm", "/m/c.nfo"]));
    assert_eq!(stale.len(), 2);
    let (strm, other) = split_strm(&stale);
    assert_eq!(strm, vec!["/m/b.strm".to_string()]);
    assert_eq!(other, vec!["/m/c.nfo".to_string()]);
}

#[test]
fn protection_holds_back_mass_deletions() {
    let config = SmartProtection { enabled: true, threshold: 2, grace_scans: 2 };
    let mut manager = ProtectionManager::new("/m".to_string(), "t", &config, Vec::new());
    assert_eq!(manager.state_file(), "/m/.autofilm_strm_t.json");
    let stale = vec!["/m/a.strm".to_string(), "/m/b.strm".to_string(), "/m/c.nfo".to_string()];
    let first = protected_deletions(&mut manager, &stale, &Vec::new());
    assert_eq!(first, vec!["/m/c.nfo".to_string()]);
    let mut entries = manager.entries();
    entries.sort();
    assert_eq!(entries, vec![("a.strm".to_string(), 1), ("b.strm".to_string(), 1)]);
    let second = protected_deletions(&mut manager, &stale, &Vec::new());
    assert_eq!(as_set(second), set(&["/m/c.nfo", "/m/a.strm", "/m/b.strm"]));
    assert!(manager.entries().is_empty());
    // A file that shows up again starts over.
    let third = protected_deletions(&mut manager, &stale, &Vec::new());
    assert_eq!(third, vec!["/m/c.nfo".to_string()]);
    let fourth = protected_deletions(&mut manager, &stale, &vec!["/m/a.strm".to_string()]);
    assert_eq!(as_set(fourth), set(&["/m/c.nfo", "/m/b.strm"]));
    assert_eq!(manager.entries(), vec![("a.strm".to_string(), 1)]);
}

#[test]
fn small_deletions_go_at_once_and_present_files_lose_counters() {
    let config = SmartProtection { enabled: true, threshold: 2, grace_scans: 3 };
    let saved = vec![("a.strm".to_string(), 2), ("b.strm".to_string(), 1), ("a.strm".to_string(), 1)];
    let mut manager = ProtectionManager::new("/m".to_string(), "t", &config, saved);
    let mut entries = manager.entries();
    entries.sort();
    assert_eq!(entries, vec![("a.strm".to_string(), 1), ("b.strm".to_string(), 1)]);
    let ready = manager.process(vec!["/m/x.strm".to_string()], &vec!["/m/a.strm".to_string()]);
    assert_eq!(ready, vec!["/m/x.strm".to_string()]);
    assert_eq!(manager.entries(), vec![("b.strm".to_string(), 1)]);
    assert_eq!(manager.to_relative("/m/sub\\x.strm"), "sub/x.strm");
    assert_eq!(manager.to_relative("/other/y.strm"), "/other/y.strm");
}

#[test]
fn ignore_rule_keeps_matching_file_names() {
    assert!(matches!(IgnoreRule::new("("), Err(RunError::Regex(_))));
    let rule = IgnoreRule::new(r"\.nfo$").ok();
    assert!(rule.as_ref().unwrap().ignores("/m/dir/a.nfo"));
    assert!(!rule.as_ref().unwrap().ignores("/m/dir.nfo/a.strm"));
    let files = vec!["/m/a.nfo".to_string(), "/m/b.strm".to_string()];
    let (delete, ignored) = split_ignored(&files, &rule);
    assert_eq!(delete, vec!["/m/b.strm".to_string()]);
    assert_eq!(ignored, vec!["/m/a.nfo".to_string()]);
    let (delete, ignored) = split_ignored(&files, &None);
    assert_eq!(delete, files);
    assert!(ignored.is_empty());
}

#[test]
fn sync_settings() {
    let mut cfg = task_config();
    cfg.sync = Some(SyncConfig {
        enabled: true,
        ignore: Some("  ".to_string()),
        smart_protection: Some(SmartProtection { enabled: true, threshold: 1, grace_scans: 1 }),
    });
    let task = Alist2Strm::new(cfg);
    assert!(task.sync_enabled());
    assert_eq!(task.sync_smart_protection().map(|p| p.threshold), Some(1));
    assert!(matches!(task.sync_ignore_pattern(), Ok(None)));
    assert_eq!(task.public_url(), None);
    let mut cfg = task_config();
    cfg.alist.public_url = Some("pub.example/".to_string());
    cfg.sync = Some(SyncConfig { enabled: false, ignore: Some("[".to_string()), smart_protection: None });
    let task = Alist2Strm::new(cfg);
    assert!(!task.sync_enabled());
    assert!(task.sync_smart_protection().is_none());
    assert!(matches!(task.sync_ignore_pattern(), Err(RunError::Regex(_))));
    assert_eq!(task.public_url().as_deref(), Some("https://pub.example"));
}

#[test]
fn a_scan_walks_directories_and_counts_files() {
    let task = Alist2Strm::new(task_config());
    let process = task.process_exts();
    let download = task.download_exts();
    let mut scan = Scan::new("/source".to_string());
    assert_eq!(scan.next_dir().as_deref(), Some("/source"));
    scan.listing_succeeded();
    let mut dir = remote("/source/TV", 0);
    dir.is_dir = true;
    assert!(matches!(scan.on_entry(&task, &process, &download, dir), EntryAction::Descend));
    assert!(matches!(scan.on_entry(&task, &process, &download, remote("/source/Thumbs.db", 1)), EntryAction::Skip));
    assert!(matches!(
        scan.on_entry(&task, &process, &download, remote("/source/D/BDMV/STREAM/1.m2ts", 3)),
        EntryAction::Skip
    ));
    match scan.on_entry(&task, &process, &download, remote("/source/a.mkv", 1)) {
        EntryAction::Check { local_path, companion, .. } => {
            assert_eq!(local_path, "/media/a.strm");
            assert!(!companion);
            assert!(!scan.on_local_check(&task, &local_path, true, companion, false));
        }
        _ => panic!("a video is checked"),
    }
    assert_eq!(scan.next_dir().as_deref(), Some("/source/TV"));
    scan.listing_failed();
    assert_eq!(scan.next_dir(), None);
    let (selected, produced, counters) = scan.finish(&task);
    assert_eq!(selected.len(), 1);
    assert_eq!(as_set(produced), set(&["/media/a.strm", "/media/D/D.strm"]));
    assert_eq!(counters.scanned_dir_count, 1);
    assert_eq!(counters.skipped_dir_count, 1);
    assert_eq!(counters.discovered_file_count, 3);
    assert_eq!(counters.filtered_file_count, 1);
    assert_eq!(counters.matched_file_count, 2);
    assert_eq!(counters.bdmv_collection_count, 1);
    assert_eq!(counters.bdmv_selected_count, 1);
    assert_eq!(counters.strm_skipped_count, 1);
}

#[test]
fn processing_steps() {
    let mut cfg = task_config();
    cfg.mode = Mode::RawURL;
    let task = Alist2Strm::new(cfg);
    let p = remote("/source/a.mkv", 1);
    assert!(matches!(process_step(&task, "http://alist:5244", &p), ProcessStep::NeedRawUrl));
    let p = p.with_raw_url("http://raw".to_string());
    assert!(matches!(
        process_step(&task, "http://alist:5244", &p),
        ProcessStep::WriteStrm { local_path, content } if local_path == "/media/a.strm" && content == "http://raw"
    ));
    let task = Alist2Strm::new(task_config());
    assert!(matches!(
        process_step(&task, "http://alist:5244", &remote("/source/a.srt", 1)),
        ProcessStep::Download { local_path, url } if local_path == "/media/a.srt" && url == "http://alist:5244/d/source/a.srt"
    ));
}

#[test]
fn counters_record_outcomes() {
    let mut c = RunCounters::new();
    c.record_strm_written(false);
    c.record_strm_written(true);
    c.record_download(false);
    c.record_download(true);
    c.record_failure();
    c.record_cleanup(true);
    c.record_cleanup(false);
    assert_eq!((c.strm_created_count, c.strm_updated_count), (1, 1));
    assert_eq!((c.attachment_downloaded_count, c.attachment_updated_count), (1, 1));
    assert_eq!(c.failed_path_count, 1);
    assert_eq!((c.local_delete_ignored_count, c.local_deleted_count), (1, 1));
}

#[test]
fn centring_and_banner() {
    assert_eq!(center_str("abc", 2, "="), "abc");
    assert_eq!("a".center(4, "-"), "-a--");
    assert_eq!("中".center(3, "*"), "*中*");
    assert_eq!(banner_title(), format!(" {} v0.1.0 ", APP_NAME));
}

fn chars(s: &str) -> Vec<char> {
    s.chars().collect()
}

fn text(v: &[char]) -> String {
    v.iter().collect()
}

#[test]
fn file_names_ignore_trailing_separators_and_dots() {
    let name = |p: &str| file_name_vec(&chars(p)).map(|n| text(&n));
    assert_eq!(name("/m/a.mkv"), Some("a.mkv".to_string()));
    assert_eq!(name("/m/a.mkv/"), Some("a.mkv".to_string()));
    assert_eq!(name("/m/a.mkv/."), Some("a.mkv".to_string()));
    assert_eq!(name("/m/a.mkv/./"), Some("a.mkv".to_string()));
    assert_eq!(name("/m/.."), None);
    assert_eq!(name("/."), None);
    assert_eq!(name("/"), None);
    assert_eq!(name("."), None);
    assert_eq!(name("./"), None);
    assert_eq!(name(""), None);
    let ext = |p: &str| extension_vec(&chars(p)).map(|n| text(&n));
    assert_eq!(ext("/m/a.mkv/."), Some("mkv".to_string()));
    assert_eq!(ext("/m/.bashrc"), None);
    assert_eq!(ext("/m/a."), Some(String::new()));
    assert!(is_strm_vec(&chars("/m/a.strm//")));
    assert_eq!(text(&with_strm_extension_vec(&chars("/m/a.mkv/."))), "/m/a.strm");
    assert_eq!(text(&with_strm_extension_vec(&chars("/m/a.b.mkv"))), "/m/a.b.strm");
    assert_eq!(text(&with_strm_extension_vec(&chars("/m/.."))), "/m/..");
}

#[test]
fn prefixes_are_stripped_by_components() {
    let strip = |p: &str, b: &str| strip_prefix_vec(&chars(p), &chars(b)).map(|n| text(&n));
    assert_eq!(strip("/t/a//b/", "/t"), Some("a//b".to_string()));
    assert_eq!(strip("/t/./a", "/t/"), Some("a".to_string()));
    assert_eq!(strip("/t//a/.", "/t/."), Some("a".to_string()));
    assert_eq!(strip("/t", "/t"), Some(String::new()));
    assert_eq!(strip("/tx/a", "/t"), None);
    assert_eq!(strip("./a", "a"), None);
    assert_eq!(strip("./a/b", "."), Some("a/b".to_string()));
    assert_eq!(strip("a/b", "/"), None);
    assert_eq!(strip("a/./", ""), Some("a".to_string()));
    assert_eq!(text(&join_vec(&chars("/t"), &chars("a"))), "/t/a");
    assert_eq!(text(&join_vec(&chars("/t/"), &chars("a"))), "/t/a");
    assert_eq!(text(&join_vec(&chars("/t"), &chars("/a"))), "/a");
}

#[test]
fn counter_keys_round_trip_under_the_target() {
    let config = SmartProtection { enabled: true, threshold: 2, grace_scans: 3 };
    for target in ["/m", "/m/", "/m/./x", "."] {
        let manager = ProtectionManager::new(target.to_string(), "t", &config, Vec::new());
        for rel in ["a.strm", "sub/b.strm", "sub//c.strm", "..", ".hidden"] {
            let joined = text(&join_vec(&chars(target), &chars(rel)));
            let key = manager.to_relative(&joined);
            assert_eq!(key, rel);
            assert_eq!(text(&join_vec(&chars(target), &chars(&key))), joined);
        }
    }
}

#[test]
fn stale_files_are_compared_as_paths() {
    let all: Vec<String> = ["/m/a.strm/", "/m//b.strm", "/m/b.strm", "/m/./c.nfo"].iter().map(|s| s.to_string()).collect();
    let processed = vec!["/m/a.strm".to_string()];
    assert_eq!(stale_local_files(&all, &processed), vec!["/m//b.strm".to_string(), "/m/./c.nfo".to_string()]);
    assert!(same_path_exec(&chars("/m/./a//b/"), &chars("/m/a/b")));
    assert!(!same_path_exec(&chars("./a"), &chars("a")));
    assert!(!same_path_exec(&chars("/a"), &chars("a")));
    assert!(!same_path_exec(&chars("/m/a"), &chars("/m/a/b")));
}

#[test]
fn a_file_present_under_another_spelling_loses_its_counter() {
    let config = SmartProtection { enabled: true, threshold: 1, grace_scans: 3 };
    let saved = vec![("a.strm".to_string(), 2), ("b.strm".to_string(), 1)];
    let mut manager = ProtectionManager::new("/m".to_string(), "t", &config, saved);
    let ready = manager.process(vec!["/m/x.strm".to_string()], &vec!["/m//./a.strm".to_string()]);
    assert!(ready.is_empty());
    let mut entries = manager.entries();
    entries.sort();
    assert_eq!(entries, vec![("b.strm".to_string(), 1), ("x.strm".to_string(), 1)]);
}

#[test]
fn companion_files_keep_their_place_below_the_target() {
    let nfo = remote("/source/TV/Show/a.nfo", 1);
    let local = nfo.local_path("/source/", "/media/", false, None);
    assert_eq!(local, "/media/TV/Show/a.nfo");
    let rest = strip_prefix_vec(&chars(&local), &chars("/media/")).map(|r| text(&r));
    assert_eq!(rest, Some("TV/Show/a.nfo".to_string()));
}
