//! Child processes get the host's environment back.
//!
//! Inside the AppImage the AppRun prepends `$APPDIR` to PATH, LD_LIBRARY_PATH, XDG_DATA_DIRS and a
//! few more, and the GTK hook points GTK_PATH and friends into the bundle. A host program started
//! with that environment loads the bundled libraries instead of its own. Outside an AppImage
//! nothing here changes anything.

use vstd::prelude::*;
use crate::search::append_bytes;
use vstd::string::StringSliceAdditionalSpecFns;

verus! {

/// Set for the bundle alone; the host never had them.
pub open spec fn drop_names() -> Seq<&'static str> {
    seq![
        "APPDIR",
        "APPIMAGE",
        "OWD",
        "ARGV0",
        "GTK_THEME",
        "GDK_BACKEND",
        "GTK_DATA_PREFIX",
        "GTK_EXE_PREFIX",
        "GTK_IM_MODULE_FILE",
        "GTK_PATH",
        "GDK_PIXBUF_MODULE_FILE",
        "GIO_EXTRA_MODULES",
        "GSETTINGS_SCHEMA_DIR",
    ]
}

/// The AppRun prepends bundle directories to these; the host's own entries follow.
pub open spec fn prefixed_names() -> Seq<&'static str> {
    seq![
        "PATH",
        "LD_LIBRARY_PATH",
        "XDG_DATA_DIRS",
        "PYTHONPATH",
        "PERLLIB",
        "QT_PLUGIN_PATH",
        "GST_PLUGIN_SYSTEM_PATH",
        "GST_PLUGIN_SYSTEM_PATH_1_0",
    ]
}

/// `k` is one of `names`.
pub open spec fn named(names: Seq<&'static str>, k: Seq<u8>) -> bool {
    exists|i: int| 0 <= i < names.len() && k == #[trigger] names[i].spec_bytes()
}

/// The entries of a search path, split at every `:` (an empty value is one empty entry).
pub open spec fn segments(v: Seq<u8>) -> Seq<Seq<u8>>
    decreases v.len(),
{
    if v.len() == 0 {
        seq![Seq::empty()]
    } else {
        let s = segments(v.drop_last());
        if v.last() == 0x3Au8 {
            s.push(Seq::empty())
        } else {
            s.update(s.len() - 1, s.last().push(v.last()))
        }
    }
}

/// The entry is the bundle directory or lies below it.
pub open spec fn in_bundle(appdir: Seq<u8>, e: Seq<u8>) -> bool {
    &&& e.len() >= appdir.len()
    &&& e.subrange(0, appdir.len() as int) == appdir
    &&& (e.len() == appdir.len() || e[appdir.len() as int] == 0x2Fu8)
}

/// The entry stays in the host's search path.
pub open spec fn keeps(appdir: Seq<u8>, e: Seq<u8>) -> bool {
    e.len() > 0 && !in_bundle(appdir, e)
}

/// The first `k` entries of `entries` that stay.
pub open spec fn kept(appdir: Seq<u8>, entries: Seq<Seq<u8>>, k: nat) -> Seq<Seq<u8>>
    decreases k,
{
    if k == 0 {
        Seq::empty()
    } else if keeps(appdir, entries[k - 1]) {
        kept(appdir, entries, (k - 1) as nat).push(entries[k - 1])
    } else {
        kept(appdir, entries, (k - 1) as nat)
    }
}

/// The entries joined with `:` between them.
pub open spec fn joined(list: Seq<Seq<u8>>) -> Seq<u8>
    decreases list.len(),
{
    if list.len() == 0 {
        Seq::empty()
    } else if list.len() == 1 {
        list[0]
    } else {
        joined(list.drop_last()) + seq![0x3Au8] + list.last()
    }
}

/// The host's part of a search path value: the entries that stay, joined again; `None` when no
/// entry stays.
pub open spec fn host_value(appdir: Seq<u8>, v: Seq<u8>) -> Option<Seq<u8>> {
    let s = segments(v);
    let k = kept(appdir, s, s.len());
    if k.len() == 0 {
        None
    } else {
        Some(joined(k))
    }
}

/// The first `k` variables of `env` as the host had them.
pub open spec fn scrubbed(appdir: Seq<u8>, env: Seq<(Seq<u8>, Seq<u8>)>, k: nat) -> Seq<
    (Seq<u8>, Seq<u8>),
>
    decreases k,
{
    if k == 0 {
        Seq::empty()
    } else {
        let r = scrubbed(appdir, env, (k - 1) as nat);
        let (name, value) = env[k - 1];
        if named(drop_names(), name) {
            r
        } else if named(prefixed_names(), name) {
            match host_value(appdir, value) {
                Some(v) => r.push((name, v)),
                None => r,
            }
        } else {
            r.push((name, value))
        }
    }
}

/// The byte strings of a list of variables.
pub open spec fn env_view(env: Seq<(Vec<u8>, Vec<u8>)>) -> Seq<(Seq<u8>, Seq<u8>)> {
    env.map_values(|p: (Vec<u8>, Vec<u8>)| (p.0@, p.1@))
}

/// `a` and `b` hold the same bytes.
fn bytes_eq(a: &[u8], b: &[u8]) -> (r: bool)
    ensures
        r == (a@ == b@),
{
    if a.len() != b.len() {
        return false;
    }
    let mut i: usize = 0;
    while i < a.len()
        invariant
            a@.len() == b@.len(),
            i <= a@.len(),
            forall|j: int| 0 <= j < i ==> a@[j] == b@[j],
        decreases a@.len() - i,
    {
        if a[i] != b[i] {
            return false;
        }
        i = i + 1;
    }
    assert(a@ =~= b@);
    true
}

/// `k` is one of the names in `names`.
fn is_named(names: &[&'static str], k: &[u8]) -> (r: bool)
    ensures
        r == named(names@, k@),
{
    let mut i: usize = 0;
    while i < names.len()
        invariant
            i <= names@.len(),
            forall|j: int| 0 <= j < i ==> k@ != #[trigger] names@[j].spec_bytes(),
        decreases names@.len() - i,
    {
        if bytes_eq(k, names[i].as_bytes()) {
            return true;
        }
        i = i + 1;
    }
    false
}

/// The entry is the bundle directory or lies below it.
fn is_in_bundle(appdir: &[u8], e: &[u8]) -> (r: bool)
    ensures
        r == in_bundle(appdir@, e@),
{
    let n = appdir.len();
    if e.len() < n {
        return false;
    }
    let mut i: usize = 0;
    while i < n
        invariant
            n == appdir@.len(),
            n <= e@.len(),
            i <= n,
            forall|j: int| 0 <= j < i ==> e@[j] == appdir@[j],
        decreases n - i,
    {
        if e[i] != appdir[i] {
            assert(e@.subrange(0, n as int)[i as int] != appdir@[i as int]);
            return false;
        }
        i = i + 1;
    }
    assert(e@.subrange(0, n as int) =~= appdir@);
    e.len() == n || e[n] == 0x2F
}

proof fn lemma_segments_nonempty(v: Seq<u8>)
    ensures
        segments(v).len() >= 1,
    decreases v.len(),
{
    if v.len() > 0 {
        lemma_segments_nonempty(v.drop_last());
    }
}

/// Adds the finished entry `cur` to the joined result when it stays.
fn add_entry(appdir: &[u8], cur: &Vec<u8>, out: &mut Vec<u8>, any: &mut bool, Ghost(done): Ghost<
    Seq<Seq<u8>>,
>)
    requires
        *old(any) == (kept(appdir@, done, done.len()).len() > 0),
        old(out)@ == joined(kept(appdir@, done, done.len())),
    ensures
        ({
            let next = done.push(cur@);
            &&& *final(any) == (kept(appdir@, next, next.len()).len() > 0)
            &&& final(out)@ == joined(kept(appdir@, next, next.len()))
        }),
{
    let ghost next = done.push(cur@);
    assert(next.drop_last() =~= done);
    assert(kept(appdir@, next, done.len()) == kept(appdir@, done, done.len())) by {
        lemma_kept_prefix(appdir@, done, next, done.len());
    }
    if cur.len() > 0 && !is_in_bundle(appdir, cur.as_slice()) {
        let ghost before = kept(appdir@, done, done.len());
        if *any {
            out.push(0x3A);
        }
        append_bytes(out, cur.as_slice());
        *any = true;
        assert(kept(appdir@, next, next.len()) == before.push(cur@));
        proof {
            assert(before.push(cur@).drop_last() =~= before);
            if before.len() == 0 {
                assert(out@ =~= cur@);
            } else {
                assert(out@ =~= joined(before) + seq![0x3Au8] + cur@);
            }
        }
    }
}

/// `kept` of a prefix depends on the prefix alone.
proof fn lemma_kept_prefix(appdir: Seq<u8>, a: Seq<Seq<u8>>, b: Seq<Seq<u8>>, k: nat)
    requires
        k <= a.len(),
        k <= b.len(),
        forall|i: int| 0 <= i < k ==> a[i] == b[i],
    ensures
        kept(appdir, a, k) == kept(appdir, b, k),
    decreases k,
{
    if k > 0 {
        lemma_kept_prefix(appdir, a, b, (k - 1) as nat);
    }
}

/// The host's part of a search path value.
fn host_part(appdir: &[u8], v: &[u8]) -> (r: Option<Vec<u8>>)
    ensures
        match (r, host_value(appdir@, v@)) {
            (Some(out), Some(h)) => out@ == h,
            (None, None) => true,
            _ => false,
        },
{
    let mut out: Vec<u8> = Vec::new();
    let mut any = false;
    let mut cur: Vec<u8> = Vec::new();
    let ghost mut done: Seq<Seq<u8>> = Seq::empty();
    let mut i: usize = 0;
    assert(v@.subrange(0, 0) =~= Seq::<u8>::empty());
    assert(segments(Seq::<u8>::empty()) =~= done.push(cur@));
    while i < v.len()
        invariant
            i <= v@.len(),
            segments(v@.subrange(0, i as int)) == done.push(cur@),
            any == (kept(appdir@, done, done.len()).len() > 0),
            out@ == joined(kept(appdir@, done, done.len())),
        decreases v@.len() - i,
    {
        let c = v[i];
        assert(v@.subrange(0, i + 1).drop_last() =~= v@.subrange(0, i as int));
        if c == 0x3A {
            add_entry(appdir, &cur, &mut out, &mut any, Ghost(done));
            proof {
                done = done.push(cur@);
            }
            cur = Vec::new();
            assert(segments(v@.subrange(0, i + 1)) =~= done.push(cur@));
        } else {
            let ghost old_cur = cur@;
            cur.push(c);
            assert(segments(v@.subrange(0, i + 1)) =~= done.push(cur@));
        }
        i = i + 1;
    }
    add_entry(appdir, &cur, &mut out, &mut any, Ghost(done));
    proof {
        assert(v@.subrange(0, v@.len() as int) =~= v@);
        assert(segments(v@) == done.push(cur@));
    }
    if any {
        Some(out)
    } else {
        None
    }
}

/// A copy of a byte string.
fn copy_bytes(v: &Vec<u8>) -> (r: Vec<u8>)
    ensures
        r@ == v@,
{
    let mut r: Vec<u8> = Vec::new();
    append_bytes(&mut r, v.as_slice());
    r
}

/// The host's environment for a child: the variables the AppImage runtime and the GTK hook set
/// for the bundle are dropped, and the bundle's directories are cut out of the search paths the
/// AppRun prepended them to, which leaves whatever the user had there before. An empty `appdir`,
/// or `/`, changes nothing.
pub fn scrub(appdir: &[u8], env: Vec<(Vec<u8>, Vec<u8>)>) -> (out: Vec<(Vec<u8>, Vec<u8>)>)
    ensures
        env_view(out@) == host_env(appdir@, env_view(env@)),
{
    if appdir.len() == 0 || (appdir.len() == 1 && appdir[0] == 0x2F) {
        assert(appdir@.len() == 1 ==> (appdir@ == seq![0x2Fu8] <==> appdir@[0] == 0x2Fu8)) by {
            if appdir@.len() == 1 && appdir@[0] == 0x2Fu8 {
                assert(appdir@ =~= seq![0x2Fu8]);
            }
        }
        return env;
    }
    assert(appdir@ != seq![0x2Fu8]) by {
        if appdir@ == seq![0x2Fu8] {
            assert(appdir@.len() == 1 && appdir@[0] == 0x2Fu8);
        }
    }
    let drop: [&'static str; 13] = [
        "APPDIR",
        "APPIMAGE",
        "OWD",
        "ARGV0",
        "GTK_THEME",
        "GDK_BACKEND",
        "GTK_DATA_PREFIX",
        "GTK_EXE_PREFIX",
        "GTK_IM_MODULE_FILE",
        "GTK_PATH",
        "GDK_PIXBUF_MODULE_FILE",
        "GIO_EXTRA_MODULES",
        "GSETTINGS_SCHEMA_DIR",
    ];
    let prefixed: [&'static str; 8] = [
        "PATH",
        "LD_LIBRARY_PATH",
        "XDG_DATA_DIRS",
        "PYTHONPATH",
        "PERLLIB",
        "QT_PLUGIN_PATH",
        "GST_PLUGIN_SYSTEM_PATH",
        "GST_PLUGIN_SYSTEM_PATH_1_0",
    ];
    assert(drop@ =~= drop_names());
    assert(prefixed@ =~= prefixed_names());
    let ghost ev = env_view(env@);
    let mut out: Vec<(Vec<u8>, Vec<u8>)> = Vec::new();
    let mut k: usize = 0;
    while k < env.len()
        invariant
            k <= env@.len(),
            drop@ == drop_names(),
            prefixed@ == prefixed_names(),
            ev == env_view(env@),
            env_view(out@) == scrubbed(appdir@, ev, k as nat),
        decreases env@.len() - k,
    {
        let name = &env[k].0;
        let value = &env[k].1;
        let ghost before = out@;
        assert(ev[k as int] == (name@, value@));
        if is_named(drop.as_slice(), name.as_slice()) {
        } else if is_named(prefixed.as_slice(), name.as_slice()) {
            match host_part(appdir, value.as_slice()) {
                Some(v) => {
                    let ghost vv = v@;
                    out.push((copy_bytes(name), v));
                    assert(env_view(out@) =~= env_view(before).push((name@, vv)));
                },
                None => {},
            }
        } else {
            out.push((copy_bytes(name), copy_bytes(value)));
            assert(env_view(out@) =~= env_view(before).push((name@, value@)));
        }
        k = k + 1;
    }
    out
}

/// The messages joined with `; ` between them.
pub open spec fn joined_messages(why: Seq<String>, k: nat) -> Seq<char>
    decreases k,
{
    if k == 0 {
        Seq::empty()
    } else if k == 1 {
        why[0]@
    } else {
        joined_messages(why, (k - 1) as nat) + "; "@ + why[k - 1]@
    }
}

/// Why no URL opener worked: every launcher's failure, or that there is none at all.
pub fn open_failure(why: &Vec<String>) -> (m: String)
    ensures
        m@ == if why@.len() == 0 {
            "no xdg-open on this system"@
        } else {
            joined_messages(why@, why@.len())
        },
{
    if why.len() == 0 {
        return String::from_str("no xdg-open on this system");
    }
    let mut m = why[0].clone();
    let mut k: usize = 1;
    while k < why.len()
        invariant
            1 <= k <= why@.len(),
            m@ == joined_messages(why@, k as nat),
        decreases why@.len() - k,
    {
        m.append("; ");
        m.append(why[k].as_str());
        k = k + 1;
    }
    m
}


/// How long a URL launcher that is still running may take before it counts as having handed
/// the URL on (on a bare window manager it waits for the browser itself), in milliseconds.
pub const OPEN_WAIT_MS: u64 = 3000;

/// How long to wait before looking at a running launcher again, in milliseconds.
pub const OPEN_POLL_MS: u64 = 50;

/// The number of URL launchers tried.
pub const LAUNCHER_COUNT: usize = 4;

/// The URL launchers, in the order they are tried.
pub open spec fn launcher_name_of(i: int) -> Seq<char> {
    if i == 0 {
        "xdg-open"@
    } else if i == 1 {
        "gio"@
    } else if i == 2 {
        "kde-open"@
    } else {
        "gnome-open"@
    }
}

/// The program of URL launcher `i`.
pub fn launcher_name(i: usize) -> (s: &'static str)
    requires
        i < LAUNCHER_COUNT,
    ensures
        s@ == launcher_name_of(i as int),
{
    if i == 0 {
        "xdg-open"
    } else if i == 1 {
        "gio"
    } else if i == 2 {
        "kde-open"
    } else {
        "gnome-open"
    }
}

/// Where opening a URL stands: the launcher being tried and the failures of those before it.
pub struct OpenerState {
    pub launcher: usize,
    pub why: Vec<String>,
}

/// What happened to the launcher that was tried.
pub enum OpenEvent {
    /// Its program is not on this system.
    NotFound,
    /// It could not be started, with the error's message.
    SpawnFailed(String),
    /// It exited successfully.
    ExitedOk,
    /// It exited unsuccessfully, with its exit status.
    ExitedFailed(String),
    /// It is still running, this many milliseconds after it was started.
    StillRunning(u64),
    /// Waiting for it failed, with the error's message.
    WaitFailed(String),
}

/// What to do next.
pub enum OpenAction {
    /// Start launcher `i` (then look at it at once).
    Spawn(usize),
    /// Look at the running launcher again after this many milliseconds.
    PollAfter(u64),
    /// Leave the launcher running on its own: the URL counts as opened.
    DetachAndSucceed,
    /// The URL was opened.
    Succeed,
    /// No launcher opened the URL, with the message to show.
    Fail(String),
}

/// The characters of each message.
pub open spec fn message_views(why: Seq<String>) -> Seq<Seq<char>> {
    why.map_values(|m: String| m@)
}

/// The message shown when no launcher opened a URL.
pub open spec fn failure_text(why: Seq<String>) -> Seq<char> {
    if why.len() == 0 {
        "no xdg-open on this system"@
    } else {
        joined_messages(why, why.len())
    }
}

/// Opening a URL starts with the first launcher and no failures.
pub fn open_start() -> (r: (OpenerState, OpenAction))
    ensures
        r.0.launcher == 0,
        r.0.why@.len() == 0,
        r.1 == OpenAction::Spawn(0),
{
    (OpenerState { launcher: 0, why: Vec::new() }, OpenAction::Spawn(0))
}

/// A copy of a list of messages.
fn copy_messages(why: &Vec<String>) -> (r: Vec<String>)
    ensures
        message_views(r@) == message_views(why@),
        r@.len() == why@.len(),
{
    let mut r: Vec<String> = Vec::new();
    let mut k: usize = 0;
    while k < why.len()
        invariant
            k <= why@.len(),
            r@.len() == k,
            forall|j: int| 0 <= j < k ==> #[trigger] r@[j]@ == why@[j]@,
        decreases why@.len() - k,
    {
        r.push(why[k].clone());
        k = k + 1;
    }
    assert(message_views(r@) =~= message_views(why@));
    r
}

/// The next state and action of opening a URL after event `e` of the launcher `s` was trying:
/// success when it exits successfully or is still running after `OPEN_WAIT_MS`; another look
/// after `OPEN_POLL_MS` while it runs for less; otherwise the next launcher, with the failure
/// noted (a launcher that is not installed adds none), and after the last one the failure
/// message of `open_failure`.
pub fn open_step(s: &OpenerState, e: OpenEvent) -> (r: (OpenerState, OpenAction))
    requires
        s.launcher < LAUNCHER_COUNT,
    ensures
        r.0.launcher < LAUNCHER_COUNT,
        match e {
            OpenEvent::ExitedOk => {
                &&& r.1 == OpenAction::Succeed
                &&& r.0.launcher == s.launcher
                &&& message_views(r.0.why@) == message_views(s.why@)
            },
            OpenEvent::StillRunning(t) => {
                &&& r.1 == if t < OPEN_WAIT_MS {
                    OpenAction::PollAfter(OPEN_POLL_MS)
                } else {
                    OpenAction::DetachAndSucceed
                }
                &&& r.0.launcher == s.launcher
                &&& message_views(r.0.why@) == message_views(s.why@)
            },
            _ => {
                let noted = match e {
                    OpenEvent::SpawnFailed(m) => message_views(s.why@).push(
                        launcher_name_of(s.launcher as int) + ": "@ + m@,
                    ),
                    OpenEvent::ExitedFailed(m) => message_views(s.why@).push(
                        launcher_name_of(s.launcher as int) + ": "@ + m@,
                    ),
                    OpenEvent::WaitFailed(m) => message_views(s.why@).push(
                        launcher_name_of(s.launcher as int) + ": "@ + m@,
                    ),
                    _ => message_views(s.why@),
                };
                &&& message_views(r.0.why@) == noted
                &&& if s.launcher + 1 < LAUNCHER_COUNT {
                    &&& r.0.launcher == s.launcher + 1
                    &&& r.1 == OpenAction::Spawn((s.launcher + 1) as usize)
                } else {
                    &&& r.0.launcher == s.launcher
                    &&& r.1 matches OpenAction::Fail(m) && m@ == failure_text(r.0.why@)
                }
            },
        },
{
    let mut why = copy_messages(&s.why);
    let reason = match e {
        OpenEvent::ExitedOk => {
            return (OpenerState { launcher: s.launcher, why }, OpenAction::Succeed);
        },
        OpenEvent::StillRunning(t) => {
            let a = if t < OPEN_WAIT_MS {
                OpenAction::PollAfter(OPEN_POLL_MS)
            } else {
                OpenAction::DetachAndSucceed
            };
            return (OpenerState { launcher: s.launcher, why }, a);
        },
        OpenEvent::NotFound => None,
        OpenEvent::SpawnFailed(m) => Some(m),
        OpenEvent::ExitedFailed(m) => Some(m),
        OpenEvent::WaitFailed(m) => Some(m),
    };
    let ghost before = why@;
    match reason {
        Some(m) => {
            let line = String::from_str(launcher_name(s.launcher)).concat(": ").concat(m.as_str());
            why.push(line);
            assert(message_views(why@) =~= message_views(before).push(line@));
        },
        None => {},
    }
    if s.launcher + 1 < LAUNCHER_COUNT {
        (OpenerState { launcher: s.launcher + 1, why }, OpenAction::Spawn(s.launcher + 1))
    } else {
        let m = open_failure(&why);
        (OpenerState { launcher: s.launcher, why }, OpenAction::Fail(m))
    }
}


/// The host's environment for a child, as `scrub` gives it: unchanged for an empty `appdir` or
/// `/`, else `scrubbed`.
pub open spec fn host_env(appdir: Seq<u8>, env: Seq<(Seq<u8>, Seq<u8>)>) -> Seq<(Seq<u8>, Seq<u8>)> {
    if appdir.len() == 0 || appdir == seq![0x2Fu8] {
        env
    } else {
        scrubbed(appdir, env, env.len())
    }
}

/// `e` holds no `:`.
pub open spec fn no_colon(e: Seq<u8>) -> bool {
    forall|j: int| 0 <= j < e.len() ==> e[j] != 0x3Au8
}

/// No entry of a search path holds a `:`.
proof fn lemma_segments_no_colon(v: Seq<u8>)
    ensures
        forall|i: int| 0 <= i < segments(v).len() ==> no_colon(#[trigger] segments(v)[i]),
    decreases v.len(),
{
    lemma_segments_nonempty(v);
    if v.len() > 0 {
        lemma_segments_no_colon(v.drop_last());
        lemma_segments_nonempty(v.drop_last());
    }
}

/// Splitting `x`, a `:` and `y` without one gives the entries of `x` and then `y`.
proof fn lemma_segments_append(x: Seq<u8>, y: Seq<u8>)
    requires
        no_colon(y),
    ensures
        segments(x + seq![0x3Au8] + y) == segments(x).push(y),
    decreases y.len(),
{
    if y.len() == 0 {
        assert(x + seq![0x3Au8] + y =~= x.push(0x3Au8));
        assert(x.push(0x3Au8).drop_last() =~= x);
        assert(y =~= Seq::<u8>::empty());
    } else {
        let y0 = y.drop_last();
        assert(no_colon(y0));
        lemma_segments_append(x, y0);
        let v = x + seq![0x3Au8] + y;
        assert(v.drop_last() =~= x + seq![0x3Au8] + y0);
        assert(v.last() == y.last());
        assert(y[y.len() - 1] != 0x3Au8);
        let s = segments(x).push(y0);
        assert(y0.push(y.last()) =~= y);
        assert(s.update(s.len() - 1, s.last().push(v.last())) =~= segments(x).push(y));
    }
}

/// A `:`-free entry splits into itself.
proof fn lemma_segments_single(y: Seq<u8>)
    requires
        no_colon(y),
    ensures
        segments(y) == seq![y],
    decreases y.len(),
{
    if y.len() > 0 {
        let y0 = y.drop_last();
        lemma_segments_single(y0);
        assert(y0.push(y.last()) =~= y);
        assert(seq![y0].update(0, y0.push(y.last())) =~= seq![y]);
    } else {
        assert(y =~= Seq::<u8>::empty());
    }
}

/// Joining `:`-free entries and splitting again gives them back.
proof fn lemma_segments_of_joined(list: Seq<Seq<u8>>)
    requires
        list.len() > 0,
        forall|i: int| 0 <= i < list.len() ==> no_colon(#[trigger] list[i]),
    ensures
        segments(joined(list)) == list,
    decreases list.len(),
{
    if list.len() == 1 {
        lemma_segments_single(list[0]);
        assert(seq![list[0]] =~= list);
    } else {
        let init = list.drop_last();
        lemma_segments_of_joined(init);
        lemma_segments_append(joined(init), list.last());
        assert(init.push(list.last()) =~= list);
    }
}

/// The entries that stay are entries that stay, taken from the list in order.
proof fn lemma_kept_elements(appdir: Seq<u8>, entries: Seq<Seq<u8>>, k: nat)
    requires
        k <= entries.len(),
    ensures
        forall|i: int|
            0 <= i < kept(appdir, entries, k).len() ==> keeps(
                appdir,
                #[trigger] kept(appdir, entries, k)[i],
            ) && exists|j: int| 0 <= j < k && entries[j] == kept(appdir, entries, k)[i],
    decreases k,
{
    if k > 0 {
        lemma_kept_elements(appdir, entries, (k - 1) as nat);
        let prev = kept(appdir, entries, (k - 1) as nat);
        let cur = kept(appdir, entries, k);
        assert forall|i: int| 0 <= i < cur.len() implies keeps(appdir, #[trigger] cur[i]) && exists|
            j: int,
        | 0 <= j < k && entries[j] == cur[i] by {
            if i < prev.len() {
                assert(cur[i] == prev[i]);
                let j = choose|j: int| 0 <= j < k - 1 && entries[j] == prev[i];
            } else {
                assert(cur[i] == entries[k - 1]);
            }
        }
    }
}

/// A list whose entries all stay keeps all of them.
proof fn lemma_kept_all(appdir: Seq<u8>, entries: Seq<Seq<u8>>, k: nat)
    requires
        k <= entries.len(),
        forall|i: int| 0 <= i < entries.len() ==> keeps(appdir, #[trigger] entries[i]),
    ensures
        kept(appdir, entries, k) == entries.subrange(0, k as int),
    decreases k,
{
    if k > 0 {
        lemma_kept_all(appdir, entries, (k - 1) as nat);
        assert(entries.subrange(0, k - 1).push(entries[k - 1]) =~= entries.subrange(0, k as int));
    } else {
        assert(entries.subrange(0, 0) =~= Seq::<Seq<u8>>::empty());
    }
}

/// The host's part of a search path is its own host part.
proof fn lemma_host_value_stable(appdir: Seq<u8>, v: Seq<u8>)
    requires
        host_value(appdir, v) is Some,
    ensures
        host_value(appdir, host_value(appdir, v).unwrap()) == host_value(appdir, v),
{
    let s = segments(v);
    let k = kept(appdir, s, s.len());
    lemma_segments_no_colon(v);
    lemma_kept_elements(appdir, s, s.len());
    assert forall|i: int| 0 <= i < k.len() implies no_colon(#[trigger] k[i]) by {
        let j = choose|j: int| 0 <= j < s.len() && s[j] == k[i];
        assert(no_colon(s[j]));
    }
    lemma_segments_of_joined(k);
    assert forall|i: int| 0 <= i < k.len() implies keeps(appdir, #[trigger] k[i]) by {}
    lemma_kept_all(appdir, k, k.len());
    assert(k.subrange(0, k.len() as int) =~= k);
}

/// The first `k` variables alone decide what scrubbing them gives.
proof fn lemma_scrubbed_prefix(appdir: Seq<u8>, a: Seq<(Seq<u8>, Seq<u8>)>, b: Seq<(Seq<u8>, Seq<u8>)>, k: nat)
    requires
        k <= a.len(),
        k <= b.len(),
        forall|i: int| 0 <= i < k ==> a[i] == b[i],
    ensures
        scrubbed(appdir, a, k) == scrubbed(appdir, b, k),
    decreases k,
{
    if k > 0 {
        lemma_scrubbed_prefix(appdir, a, b, (k - 1) as nat);
    }
}

/// Scrubbing what scrubbing gave changes nothing.
proof fn lemma_scrubbed_stable(appdir: Seq<u8>, env: Seq<(Seq<u8>, Seq<u8>)>, k: nat)
    requires
        k <= env.len(),
    ensures
        scrubbed(appdir, scrubbed(appdir, env, k), scrubbed(appdir, env, k).len())
            == scrubbed(appdir, env, k),
    decreases k,
{
    if k > 0 {
        lemma_scrubbed_stable(appdir, env, (k - 1) as nat);
        let r = scrubbed(appdir, env, (k - 1) as nat);
        let out = scrubbed(appdir, env, k);
        let (name, value) = env[k - 1];
        if out.len() == r.len() + 1 {
            assert(out =~= r.push(out.last()));
            lemma_scrubbed_prefix(appdir, out, r, r.len());
            if named(prefixed_names(), name) && !named(drop_names(), name) {
                lemma_host_value_stable(appdir, value);
            }
        }
    }
}

/// Scrubbing is idempotent: the host's environment of the host's environment is itself.
pub proof fn lemma_scrub_idempotent(appdir: Seq<u8>, env: Seq<(Seq<u8>, Seq<u8>)>)
    ensures
        host_env(appdir, host_env(appdir, env)) == host_env(appdir, env),
{
    if !(appdir.len() == 0 || appdir == seq![0x2Fu8]) {
        lemma_scrubbed_stable(appdir, env, env.len());
    }
}


/// No variable `scrubbed` gives is one of those set for the bundle alone.
proof fn lemma_scrubbed_drops(appdir: Seq<u8>, env: Seq<(Seq<u8>, Seq<u8>)>, k: nat)
    requires
        k <= env.len(),
    ensures
        forall|j: int|
            0 <= j < scrubbed(appdir, env, k).len() ==> !named(
                drop_names(),
                #[trigger] scrubbed(appdir, env, k)[j].0,
            ),
    decreases k,
{
    if k > 0 {
        lemma_scrubbed_drops(appdir, env, (k - 1) as nat);
        let prev = scrubbed(appdir, env, (k - 1) as nat);
        let cur = scrubbed(appdir, env, k);
        assert forall|j: int| 0 <= j < cur.len() implies !named(drop_names(), #[trigger] cur[j].0) by {
            if j < prev.len() {
                assert(cur[j] == prev[j]);
            } else {
                assert(cur[j].0 == env[k - 1].0);
            }
        }
    }
}

/// Inside the bundle, the host's environment for a child holds none of the variables the
/// AppImage runtime and the GTK hook set for the bundle alone.
pub proof fn lemma_scrub_drops_bundle_variables(appdir: Seq<u8>, env: Seq<(Seq<u8>, Seq<u8>)>)
    requires
        !(appdir.len() == 0 || appdir == seq![0x2Fu8]),
    ensures
        forall|j: int|
            0 <= j < host_env(appdir, env).len() ==> {
                let name = #[trigger] host_env(appdir, env)[j].0;
            &&& name != "APPDIR".spec_bytes()
            &&& name != "APPIMAGE".spec_bytes()
            &&& name != "OWD".spec_bytes()
            &&& name != "ARGV0".spec_bytes()
            &&& name != "GTK_THEME".spec_bytes()
            &&& name != "GDK_BACKEND".spec_bytes()
            &&& name != "GTK_DATA_PREFIX".spec_bytes()
            &&& name != "GTK_EXE_PREFIX".spec_bytes()
            &&& name != "GTK_IM_MODULE_FILE".spec_bytes()
            &&& name != "GTK_PATH".spec_bytes()
            &&& name != "GDK_PIXBUF_MODULE_FILE".spec_bytes()
            &&& name != "GIO_EXTRA_MODULES".spec_bytes()
            &&& name != "GSETTINGS_SCHEMA_DIR".spec_bytes()
            },
{
    lemma_scrubbed_drops(appdir, env, env.len());
    assert forall|j: int| 0 <= j < host_env(appdir, env).len() implies {
        let name = #[trigger] host_env(appdir, env)[j].0;
            &&& name != "APPDIR".spec_bytes()
            &&& name != "APPIMAGE".spec_bytes()
            &&& name != "OWD".spec_bytes()
            &&& name != "ARGV0".spec_bytes()
            &&& name != "GTK_THEME".spec_bytes()
            &&& name != "GDK_BACKEND".spec_bytes()
            &&& name != "GTK_DATA_PREFIX".spec_bytes()
            &&& name != "GTK_EXE_PREFIX".spec_bytes()
            &&& name != "GTK_IM_MODULE_FILE".spec_bytes()
            &&& name != "GTK_PATH".spec_bytes()
            &&& name != "GDK_PIXBUF_MODULE_FILE".spec_bytes()
            &&& name != "GIO_EXTRA_MODULES".spec_bytes()
            &&& name != "GSETTINGS_SCHEMA_DIR".spec_bytes()
    } by {
        let name = host_env(appdir, env)[j].0;
        assert(!named(drop_names(), name));
        assert forall|i: int| 0 <= i < drop_names().len() implies name != #[trigger] drop_names()[i].spec_bytes() by {}
            assert(drop_names()[0] == "APPDIR");
            assert(drop_names()[1] == "APPIMAGE");
            assert(drop_names()[2] == "OWD");
            assert(drop_names()[3] == "ARGV0");
            assert(drop_names()[4] == "GTK_THEME");
            assert(drop_names()[5] == "GDK_BACKEND");
            assert(drop_names()[6] == "GTK_DATA_PREFIX");
            assert(drop_names()[7] == "GTK_EXE_PREFIX");
            assert(drop_names()[8] == "GTK_IM_MODULE_FILE");
            assert(drop_names()[9] == "GTK_PATH");
            assert(drop_names()[10] == "GDK_PIXBUF_MODULE_FILE");
            assert(drop_names()[11] == "GIO_EXTRA_MODULES");
            assert(drop_names()[12] == "GSETTINGS_SCHEMA_DIR");
    }
}


/// `name` is one of the search paths the AppRun prepends bundle directories to.
pub open spec fn is_search_path(name: Seq<u8>) -> bool {
        ||| name == "PATH".spec_bytes()
        ||| name == "LD_LIBRARY_PATH".spec_bytes()
        ||| name == "XDG_DATA_DIRS".spec_bytes()
        ||| name == "PYTHONPATH".spec_bytes()
        ||| name == "PERLLIB".spec_bytes()
        ||| name == "QT_PLUGIN_PATH".spec_bytes()
        ||| name == "GST_PLUGIN_SYSTEM_PATH".spec_bytes()
        ||| name == "GST_PLUGIN_SYSTEM_PATH_1_0".spec_bytes()
}

/// `name` is one of the variables set for the bundle alone.
pub open spec fn is_bundle_variable(name: Seq<u8>) -> bool {
        ||| name == "APPDIR".spec_bytes()
        ||| name == "APPIMAGE".spec_bytes()
        ||| name == "OWD".spec_bytes()
        ||| name == "ARGV0".spec_bytes()
        ||| name == "GTK_THEME".spec_bytes()
        ||| name == "GDK_BACKEND".spec_bytes()
        ||| name == "GTK_DATA_PREFIX".spec_bytes()
        ||| name == "GTK_EXE_PREFIX".spec_bytes()
        ||| name == "GTK_IM_MODULE_FILE".spec_bytes()
        ||| name == "GTK_PATH".spec_bytes()
        ||| name == "GDK_PIXBUF_MODULE_FILE".spec_bytes()
        ||| name == "GIO_EXTRA_MODULES".spec_bytes()
        ||| name == "GSETTINGS_SCHEMA_DIR".spec_bytes()
}

/// `e` is the bundle directory `appdir` or lies below it.
pub open spec fn under(appdir: Seq<u8>, e: Seq<u8>) -> bool {
    &&& e.len() >= appdir.len()
    &&& e.subrange(0, appdir.len() as int) == appdir
    &&& (e.len() == appdir.len() || e[appdir.len() as int] == 0x2Fu8)
}

/// The search-path names, as the list `scrub` goes by.
proof fn lemma_search_path_names(name: Seq<u8>)
    ensures
        is_search_path(name) ==> named(prefixed_names(), name),
        is_bundle_variable(name) ==> named(drop_names(), name),
        named(prefixed_names(), name) ==> is_search_path(name),
        named(drop_names(), name) ==> is_bundle_variable(name),
{
    assert(prefixed_names()[0] == "PATH");
    assert(prefixed_names()[1] == "LD_LIBRARY_PATH");
    assert(prefixed_names()[2] == "XDG_DATA_DIRS");
    assert(prefixed_names()[3] == "PYTHONPATH");
    assert(prefixed_names()[4] == "PERLLIB");
    assert(prefixed_names()[5] == "QT_PLUGIN_PATH");
    assert(prefixed_names()[6] == "GST_PLUGIN_SYSTEM_PATH");
    assert(prefixed_names()[7] == "GST_PLUGIN_SYSTEM_PATH_1_0");
    assert(drop_names()[0] == "APPDIR");
    assert(drop_names()[1] == "APPIMAGE");
    assert(drop_names()[2] == "OWD");
    assert(drop_names()[3] == "ARGV0");
    assert(drop_names()[4] == "GTK_THEME");
    assert(drop_names()[5] == "GDK_BACKEND");
    assert(drop_names()[6] == "GTK_DATA_PREFIX");
    assert(drop_names()[7] == "GTK_EXE_PREFIX");
    assert(drop_names()[8] == "GTK_IM_MODULE_FILE");
    assert(drop_names()[9] == "GTK_PATH");
    assert(drop_names()[10] == "GDK_PIXBUF_MODULE_FILE");
    assert(drop_names()[11] == "GIO_EXTRA_MODULES");
    assert(drop_names()[12] == "GSETTINGS_SCHEMA_DIR");
}

/// What `scrubbed` gives, entry by entry: search paths hold only host entries, and the others
/// come from `env` unchanged.
proof fn lemma_scrubbed_entries(appdir: Seq<u8>, env: Seq<(Seq<u8>, Seq<u8>)>, k: nat)
    requires
        k <= env.len(),
    ensures
        forall|j: int|
            0 <= j < scrubbed(appdir, env, k).len() ==> {
                let (name, value) = #[trigger] scrubbed(appdir, env, k)[j];
                named(prefixed_names(), name) ==> forall|x: int|
                    0 <= x < segments(value).len() ==> {
                        let e = #[trigger] segments(value)[x];
                        e.len() > 0 && !under(appdir, e)
                    }
            },
        forall|i: int|
            0 <= i < k && !named(drop_names(), env[i].0) && !named(prefixed_names(), env[i].0)
                ==> scrubbed(appdir, env, k).contains(#[trigger] env[i]),
    decreases k,
{
    if k > 0 {
        lemma_scrubbed_entries(appdir, env, (k - 1) as nat);
        let prev = scrubbed(appdir, env, (k - 1) as nat);
        let cur = scrubbed(appdir, env, k);
        let (name, value) = env[k - 1];
        if !named(drop_names(), name) && named(prefixed_names(), name) && host_value(appdir, value) is Some {
            lemma_host_value_stable(appdir, value);
            let s = segments(value);
            let kk = kept(appdir, s, s.len());
            lemma_segments_no_colon(value);
            lemma_kept_elements(appdir, s, s.len());
            assert forall|i: int| 0 <= i < kk.len() implies no_colon(#[trigger] kk[i]) by {
                let j = choose|j: int| 0 <= j < s.len() && s[j] == kk[i];
                assert(no_colon(s[j]));
            }
            lemma_segments_of_joined(kk);
        }
        assert forall|j: int| 0 <= j < cur.len() implies {
            let (n2, v2) = #[trigger] cur[j];
            named(prefixed_names(), n2) ==> forall|x: int|
                0 <= x < segments(v2).len() ==> {
                    let e = #[trigger] segments(v2)[x];
                    e.len() > 0 && !under(appdir, e)
                }
        } by {
            if j < prev.len() {
                assert(cur[j] == prev[j]);
            } else {
                let (n2, v2) = cur[j];
                if named(prefixed_names(), n2) {
                    assert forall|x: int| 0 <= x < segments(v2).len() implies {
                        let e = #[trigger] segments(v2)[x];
                        e.len() > 0 && !under(appdir, e)
                    } by {
                        let kk = kept(appdir, segments(value), segments(value).len());
                        assert(v2 == joined(kk));
                        assert(keeps(appdir, kk[x]));
                    }
                }
            }
        }
        assert forall|i: int|
            0 <= i < k && !named(drop_names(), env[i].0) && !named(prefixed_names(), env[i].0)
                implies cur.contains(#[trigger] env[i]) by {
            if i < k - 1 {
                let j = choose|j: int| 0 <= j < prev.len() && prev[j] == env[i];
                assert(cur[j] == env[i]);
            } else {
                assert(cur[cur.len() - 1] == env[i]);
            }
        }
    }
}

/// Inside the bundle, every search path of the host's environment holds only non-empty entries
/// outside the bundle directory, and every variable that is neither set for the bundle alone
/// nor a search path is handed on unchanged.
pub proof fn lemma_scrub_keeps_only_host_entries(appdir: Seq<u8>, env: Seq<(Seq<u8>, Seq<u8>)>)
    requires
        !(appdir.len() == 0 || appdir == seq![0x2Fu8]),
    ensures
        forall|j: int|
            0 <= j < host_env(appdir, env).len() && is_search_path(
                (#[trigger] host_env(appdir, env)[j]).0,
            ) ==> forall|x: int|
                0 <= x < segments(host_env(appdir, env)[j].1).len() ==> {
                    let e = #[trigger] segments(host_env(appdir, env)[j].1)[x];
                    e.len() > 0 && !under(appdir, e)
                },
        forall|i: int|
            0 <= i < env.len() && !is_bundle_variable(env[i].0) && !is_search_path(env[i].0)
                ==> host_env(appdir, env).contains(#[trigger] env[i]),
{
    lemma_scrubbed_entries(appdir, env, env.len());
    let out = host_env(appdir, env);
    assert forall|j: int| 0 <= j < out.len() && is_search_path((#[trigger] out[j]).0) implies forall|
        x: int,
    | 0 <= x < segments(out[j].1).len() ==> {
        let e = #[trigger] segments(out[j].1)[x];
        e.len() > 0 && !under(appdir, e)
    } by {
        lemma_search_path_names(out[j].0);
    }
    assert forall|i: int|
        0 <= i < env.len() && !is_bundle_variable(env[i].0) && !is_search_path(env[i].0) implies out.contains(
        #[trigger] env[i],
    ) by {
        lemma_search_path_names(env[i].0);
    }
}

} // verus!
