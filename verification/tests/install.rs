use gridlock_launcher::host::open_failure;
use gridlock_launcher::net::{callback_token, login_url, manifest_url, me_url};
use gridlock_launcher::digest::{stream_hex, stream_matches, Sha256Stream};
use gridlock_launcher::install::{
    installed_record, keep_verified, plan, plan_bytes_fit, safe_relative, should_report, Installed,
    InstalledFile, PlanError,
};
use gridlock_launcher::launcher::{
    api_err, check_with, fresh_enough, game_executable, token, Config, DEFAULT_SITE,
};
use gridlock_launcher::net::{
    decimal, other_error, status_kind, ApiError, Manifest, ManifestFile, StatusKind,
};

fn mf(path: &str, sha: &str, size: u64) -> ManifestFile {
    ManifestFile {
        path: path.to_string(),
        sha256: sha.to_string(),
        size,
        executable: false,
        url: Some(format!("https://r2/{sha}")),
        stored: None,
    }
}

fn manifest(files: Vec<ManifestFile>) -> Manifest {
    Manifest {
        version: "1.2".to_string(),
        platform: "linux".to_string(),
        exec_path: "GridLock.sh".to_string(),
        total: files.iter().fold(0u64, |a, f| a.wrapping_add(f.size)),
        files,
        commit: None,
        url_expires_at: None,
        format: None,
        block: None,
    }
}

fn inf(path: &str, sha: &str, size: u64) -> InstalledFile {
    InstalledFile { path: path.to_string(), sha256: sha.to_string(), size, executable: false }
}

#[test]
fn safe_relative_refuses_what_leaves_the_folder() {
    assert!(safe_relative("a/b.pak", false).is_ok());
    assert!(safe_relative("a/./b", false).is_ok());
    assert!(safe_relative("..a/b..", false).is_ok());
    assert!(safe_relative("", false).is_ok());
    assert!(safe_relative("/etc/passwd", false).is_err());
    assert!(safe_relative("./a", false).is_err());
    assert!(safe_relative(".", false).is_err());
    assert!(safe_relative("a/../b", false).is_err());
    assert!(safe_relative("..", false).is_err());
    assert!(safe_relative("a/..", false).is_err());
    assert!(safe_relative("a\\..\\b", false).is_ok());
    assert!(safe_relative("a\\..\\b", true).is_err());
    assert!(safe_relative("C:game", true).is_err());
    assert!(safe_relative("C:game", false).is_ok());
    assert!(safe_relative("\\\\server\\x", true).is_err());
    assert!(safe_relative("dir\\file.pak", true).is_ok());
    match safe_relative("../x", false) {
        Err(e @ PlanError::UnsafePath(_)) => {
            assert_eq!(e.message(), "manifest path is not a plain relative path: ../x")
        }
        _ => panic!("error expected"),
    }
}

#[test]
fn plan_downloads_what_changed_and_deletes_what_left() {
    let m = manifest(vec![mf("a", "1", 10), mf("b", "2", 20), mf("c", "3", 30)]);
    let inst = Installed {
        version: "1.1".to_string(),
        exec_path: String::new(),
        files: vec![inf("a", "1", 10), inf("b", "old", 20), inf("gone", "9", 5), inf("gone", "9", 5)],
    };
    let p = plan(&m, Some(&inst), &[Some(10), Some(20), None], false).unwrap();
    let paths: Vec<&str> = p.to_download.iter().map(|f| f.path.as_str()).collect();
    assert_eq!(paths, vec!["b", "c"]);
    assert_eq!(p.bytes, 50);
    assert_eq!(p.to_delete, vec!["gone".to_string()]);
    // a file of the wrong size on disk is fetched again
    let p = plan(&m, Some(&inst), &[Some(11), Some(20), None], false).unwrap();
    assert_eq!(p.to_download.len(), 3);
    // nothing installed: everything
    let p = plan(&m, None, &[Some(10), Some(20), Some(30)], false).unwrap();
    assert_eq!(p.bytes, 60);
    assert!(p.to_delete.is_empty());
    // an unsafe path stops the plan
    let bad = manifest(vec![mf("a", "1", 1), mf("../b", "2", 2)]);
    assert!(plan(&bad, None, &[None, None], false).is_err());
}

#[test]
fn installed_record_is_up_to_date() {
    let m = manifest(vec![mf("a", "1", 10), mf("dir/b", "2", 20)]);
    let rec = installed_record(&m);
    assert_eq!(rec.version, "1.2");
    assert_eq!(rec.exec_path, "GridLock.sh");
    let info = check_with(&m, Some(&rec), &[Some(10), Some(20)], false).ok().unwrap();
    assert!(info.up_to_date);
    assert_eq!(info.files, 0);
    assert_eq!(info.bytes, 0);
    assert_eq!(info.latest, "1.2");
    assert_eq!(info.installed, Some("1.2".to_string()));
    let info = check_with(&m, None, &[None, None], false).ok().unwrap();
    assert!(!info.up_to_date);
    assert_eq!(info.files, 2);
    assert_eq!(info.installed, None);
}

#[test]
fn verify_drops_files_that_do_not_match() {
    let inst = Installed {
        version: "1".to_string(),
        exec_path: "x".to_string(),
        files: vec![inf("a", "1", 1), inf("b", "2", 2), inf("c", "3", 3)],
    };
    let (kept, bad) = keep_verified(&inst, &[true, false, true]);
    assert_eq!(bad, 1);
    let paths: Vec<&str> = kept.files.iter().map(|f| f.path.as_str()).collect();
    assert_eq!(paths, vec!["a", "c"]);
    assert_eq!(kept.version, "1");
}

#[test]
fn progress_is_throttled() {
    assert!(!should_report(100, 5, 10));
    assert!(should_report(150, 5, 10));
    assert!(should_report(0, 10, 10));
}

#[test]
fn site_choice() {
    let cfg = Config { token: None, install_dir: None, site: Some("https://x.example//".to_string()) };
    assert_eq!(cfg.site(None), "https://x.example");
    assert_eq!(cfg.site(Some("")), "https://x.example");
    assert_eq!(cfg.site(Some("http://localhost:3000/")), "http://localhost:3000");
    let none = Config { token: None, install_dir: None, site: None };
    assert_eq!(none.site(None), DEFAULT_SITE);
}

#[test]
fn tokens_and_api_errors() {
    let mut cfg = Config { token: Some("t0k".to_string()), install_dir: None, site: None };
    assert_eq!(token(&cfg), Ok("t0k".to_string()));
    assert_eq!(api_err(&ApiError::NoBuild, &mut cfg), "no build has been published for this platform yet");
    assert!(cfg.token.is_some());
    assert_eq!(api_err(&ApiError::Unauthorized, &mut cfg), "unauthorized");
    assert!(cfg.token.is_none());
    assert_eq!(token(&cfg), Err("unauthorized".to_string()));
}

#[test]
fn statuses_and_messages() {
    assert_eq!(status_kind(200), StatusKind::Success);
    assert_eq!(status_kind(401), StatusKind::Unauthorized);
    assert_eq!(status_kind(403), StatusKind::Unauthorized);
    assert_eq!(status_kind(404), StatusKind::NoBuild);
    assert_eq!(status_kind(500), StatusKind::Other);
    assert_eq!(decimal(0), "0");
    assert_eq!(decimal(1234567), "1234567");
    match other_error(502, &"é".repeat(300)) {
        ApiError::Other(m) => assert_eq!(m, format!("502: {}", "é".repeat(200))),
        _ => panic!("Other expected"),
    }
    assert_eq!(ApiError::Other("boom".to_string()).message(), "boom");
}

#[test]
fn freshness_and_executable() {
    assert!(fresh_enough(Some(1_000_000), 600_000));
    assert!(!fresh_enough(Some(900_000), 600_000));
    assert!(!fresh_enough(None, 0));
    assert!(!fresh_enough(Some(5), u64::MAX));
    assert_eq!(game_executable("", true), "GridLock.exe");
    assert_eq!(game_executable("", false), "GridLock.sh");
    assert_eq!(game_executable("bin/Game", false), "bin/Game");
}

#[test]
fn sign_in_callback_carries_the_token() {
    assert_eq!(callback_token("/callback?token=abc"), Some("abc".to_string()));
    assert_eq!(callback_token("/callback?x=1&token=abc&token=def"), Some("abc".to_string()));
    assert_eq!(callback_token("/callback?token=&token=def"), None);
    assert_eq!(callback_token("/callback?x=1"), None);
    assert_eq!(callback_token("/favicon.ico"), None);
    assert_eq!(callback_token("/callback?"), None);
}

#[test]
fn site_addresses() {
    assert_eq!(me_url("https://s"), "https://s/api/me");
    assert_eq!(manifest_url("https://s", "linux"), "https://s/api/manifest?platform=linux");
    assert_eq!(login_url("https://s", 41234), "https://s/launcher/login?port=41234");
}

#[test]
fn opener_failures_are_joined() {
    assert_eq!(open_failure(&vec![]), "no xdg-open on this system");
    assert_eq!(open_failure(&vec!["a: x".to_string(), "b: y".to_string()]), "a: x; b: y");
}

#[test]
fn byte_count_must_fit_only_for_what_is_fetched() {
    let big = u64::MAX - 5;
    let m = manifest(vec![mf("a", "x", big), mf("b", "y", 10)]);
    let inst = Installed {
        version: "1".to_string(),
        exec_path: String::new(),
        files: vec![inf("a", "x", big)],
    };
    // "a" is in place: only "b" is fetched, and the sum fits
    assert!(plan_bytes_fit(&m, Some(&inst), &[Some(big), None], false));
    let p = plan(&m, Some(&inst), &[Some(big), None], false).unwrap();
    assert_eq!(p.bytes, 10);
    // both fetched: the sum does not fit
    assert!(!plan_bytes_fit(&m, None, &[None, None], false));
    // a bad path is refused whatever the sizes
    let bad = manifest(vec![mf("a", "x", big), mf("b", "y", 10), mf("../c", "z", 1)]);
    assert!(plan_bytes_fit(&bad, None, &[None, None, None], false));
    assert!(plan(&bad, None, &[None, None, None], false).is_err());
}

#[test]
fn install_dir_choice() {
    let cfg = Config { token: None, install_dir: Some("/games/GridLock".to_string()), site: None };
    assert_eq!(cfg.install_dir("/home/u/.local/share/GridLock"), "/games/GridLock");
    let none = Config { token: None, install_dir: None, site: None };
    assert_eq!(none.install_dir("/home/u/.local/share/GridLock"), "/home/u/.local/share/GridLock");
}

#[test]
fn streamed_sha256_checks_what_was_fed() {
    assert_eq!(
        stream_hex(Sha256Stream::new()),
        "e3b0c44298fc1c149afbf4c8996fb92427ae41e4649b934ca495991b7852b855"
    );
    let mut s = Sha256Stream::new();
    s.update(b"a");
    s.update(b"bc");
    let (ok, hex) =
        stream_matches(s, "ba7816bf8f01cfea414140de5dae2223b00361a396177a9cb410ff61f20015ad");
    assert!(ok);
    assert_eq!(hex, "ba7816bf8f01cfea414140de5dae2223b00361a396177a9cb410ff61f20015ad");
    let mut s = Sha256Stream::new();
    s.update(b"abd");
    assert!(!stream_matches(s, "ba7816bf8f01cfea414140de5dae2223b00361a396177a9cb410ff61f20015ad").0);
}
