use gridlock_launcher::host::{launcher_name, open_start, open_step, scrub, OpenAction, OpenEvent};

fn env(pairs: &[(&str, &str)]) -> Vec<(Vec<u8>, Vec<u8>)> {
    pairs.iter().map(|(k, v)| (k.as_bytes().to_vec(), v.as_bytes().to_vec())).collect()
}

fn get<'a>(out: &'a [(Vec<u8>, Vec<u8>)], k: &str) -> Option<&'a str> {
    out.iter().find(|(n, _)| n == k.as_bytes()).map(|(_, v)| std::str::from_utf8(v).unwrap())
}

#[test]
fn scrub_gives_the_host_environment_back() {
    let a = "/tmp/.mount_glXYZ";
    let out = scrub(
        a.as_bytes(),
        env(&[
            ("APPDIR", a),
            ("APPIMAGE", "/home/u/Downloads/GridLock.AppImage"),
            ("OWD", "/home/u"),
            ("HOME", "/home/u"),
            ("PATH", &format!("{a}/usr/bin/:{a}/usr/sbin/:{a}/usr/games/:{a}/bin/:{a}/sbin/:/usr/local/bin:/usr/bin:/bin")),
            // AppRun.c formats "<bundle dirs>:%s" with the old value, empty here: only bundle entries
            ("LD_LIBRARY_PATH", &format!("{a}/usr/lib/:{a}/usr/lib/x86_64-linux-gnu/:{a}/lib64/:")),
            ("XDG_DATA_DIRS", &format!("{a}/usr/share:/usr/share:{a}/usr/share/:/home/u/.local/share/flatpak/exports/share:/usr/local/share:/usr/share")),
            ("GTK_PATH", &format!("{a}//usr/lib/x86_64-linux-gnu/gtk-3.0:/usr/lib64/gtk-3.0")),
            ("GDK_PIXBUF_MODULE_FILE", &format!("{a}//usr/lib/x86_64-linux-gnu/gdk-pixbuf-2.0/2.10.0/loaders.cache")),
            ("GDK_BACKEND", "x11"),
            ("GTK_THEME", "Adwaita:dark"),
            ("PYTHONPATH", &format!("{a}/usr/share/pyshared/:/opt/mine")),
            ("WEBKIT_DISABLE_DMABUF_RENDERER", "1"),
        ]),
    );
    assert_eq!(get(&out, "PATH"), Some("/usr/local/bin:/usr/bin:/bin"));
    assert_eq!(get(&out, "LD_LIBRARY_PATH"), None, "nothing of the host's was there");
    assert_eq!(get(&out, "XDG_DATA_DIRS"), Some("/usr/share:/home/u/.local/share/flatpak/exports/share:/usr/local/share:/usr/share"));
    assert_eq!(get(&out, "PYTHONPATH"), Some("/opt/mine"), "the user's own entry stays");
    for gone in ["APPDIR", "APPIMAGE", "OWD", "GTK_PATH", "GDK_PIXBUF_MODULE_FILE", "GDK_BACKEND", "GTK_THEME"] {
        assert_eq!(get(&out, gone), None, "{gone} should be gone");
    }
    assert_eq!(get(&out, "HOME"), Some("/home/u"));
    assert_eq!(get(&out, "WEBKIT_DISABLE_DMABUF_RENDERER"), Some("1"));
}

#[test]
fn scrub_only_cuts_the_bundle_itself() {
    let a = "/tmp/.mount_glXYZ";
    let out = scrub(a.as_bytes(), env(&[("PATH", &format!("{a}/usr/bin/:/tmp/.mount_glXYZ2/bin:/usr/bin"))]));
    assert_eq!(get(&out, "PATH"), Some("/tmp/.mount_glXYZ2/bin:/usr/bin"));
    let out = scrub(b"/", env(&[("PATH", "/usr/bin"), ("APPDIR", "/")]));
    assert_eq!(get(&out, "PATH"), Some("/usr/bin"));
    assert_eq!(get(&out, "APPDIR"), Some("/"), "a nonsense APPDIR changes nothing");
}

#[test]
fn scrub_with_an_empty_appdir_changes_nothing() {
    let e = env(&[("APPDIR", ""), ("PATH", ":/usr/bin:")]);
    assert_eq!(scrub(b"", e.clone()), e);
}

#[test]
fn scrub_keeps_order_and_drops_empty_entries() {
    let out = scrub(b"/b", env(&[("Z", "1"), ("PATH", "/x::/b:/b/c:/bc"), ("A", "2")]));
    assert_eq!(out, env(&[("Z", "1"), ("PATH", "/x:/bc"), ("A", "2")]));
}

#[test]
fn scrubbing_twice_is_scrubbing_once() {
    let a = "/tmp/.mount_glXYZ";
    let e = env(&[
        ("APPDIR", a),
        ("PATH", &format!("{a}/usr/bin/::/usr/bin:{a}:/bin")),
        ("LD_LIBRARY_PATH", &format!("{a}/usr/lib/")),
        ("HOME", "/home/u"),
    ]);
    let once = scrub(a.as_bytes(), e);
    let twice = scrub(a.as_bytes(), once.clone());
    assert_eq!(once, twice);
    assert_eq!(get(&once, "PATH"), Some("/usr/bin:/bin"));
    assert_eq!(get(&once, "LD_LIBRARY_PATH"), None);
}

#[test]
fn opening_tries_each_launcher_in_turn() {
    let (s, a) = open_start();
    assert!(matches!(a, OpenAction::Spawn(0)));
    assert_eq!(launcher_name(0), "xdg-open");
    // not installed: no reason, next launcher
    let (s, a) = open_step(&s, OpenEvent::NotFound);
    assert!(matches!(a, OpenAction::Spawn(1)));
    assert!(s.why.is_empty());
    // gio runs for a while, then fails
    let (s, a) = open_step(&s, OpenEvent::StillRunning(10));
    assert!(matches!(a, OpenAction::PollAfter(50)));
    let (s, a) = open_step(&s, OpenEvent::ExitedFailed("exit status: 4".to_string()));
    assert!(matches!(a, OpenAction::Spawn(2)));
    assert_eq!(s.why, vec!["gio: exit status: 4".to_string()]);
    let (s, a) = open_step(&s, OpenEvent::SpawnFailed("permission denied".to_string()));
    assert!(matches!(a, OpenAction::Spawn(3)));
    let (_, a) = open_step(&s, OpenEvent::WaitFailed("interrupted".to_string()));
    match a {
        OpenAction::Fail(m) => assert_eq!(
            m,
            "gio: exit status: 4; kde-open: permission denied; gnome-open: interrupted"
        ),
        _ => panic!("expected a failure"),
    }
}

#[test]
fn a_launcher_that_exits_well_or_keeps_running_opens_the_url() {
    let (s, _) = open_start();
    let (_, a) = open_step(&s, OpenEvent::ExitedOk);
    assert!(matches!(a, OpenAction::Succeed));
    let (_, a) = open_step(&s, OpenEvent::StillRunning(3000));
    assert!(matches!(a, OpenAction::DetachAndSucceed));
    let (_, a) = open_step(&s, OpenEvent::StillRunning(2999));
    assert!(matches!(a, OpenAction::PollAfter(50)));
    // nothing installed at all
    let mut s = s;
    for _ in 0..3 {
        s = open_step(&s, OpenEvent::NotFound).0;
    }
    match open_step(&s, OpenEvent::NotFound).1 {
        OpenAction::Fail(m) => assert_eq!(m, "no xdg-open on this system"),
        _ => panic!("expected a failure"),
    }
}
