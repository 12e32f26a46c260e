//! The launcher's settings and the decisions behind its commands: which site to talk to,
//! whether the token is still good, whether the game is up to date, what to start.

use vstd::prelude::*;
use crate::install::{
    Installed,
    PlanError,
    plan,
    plain_relative,
    installed_files,
    to_fetch,
    fetch_bytes,
    plan_fits,
    in_manifest,
    has_path,
};
use crate::net::{ApiError, Manifest};

verus! {

/// The site the launcher talks to unless told otherwise.
pub const DEFAULT_SITE: &'static str = "https://gridlock-umber.vercel.app";

/// Launcher settings: the site to talk to, the sign-in token, where the game lives.
#[derive(Debug)]
pub struct Config {
    pub token: Option<String>,
    pub install_dir: Option<String>,
    pub site: Option<String>,
}

/// `s` without the `/` characters at its end.
pub open spec fn trim_end_slashes(s: Seq<char>) -> Seq<char>
    decreases s.len(),
{
    if s.len() > 0 && s.last() == '/' {
        trim_end_slashes(s.drop_last())
    } else {
        s
    }
}

/// The site that is talked to: the environment's, when set and not empty; else the configured
/// one; else the default.
pub open spec fn chosen_site(env_site: Option<Seq<char>>, configured: Option<Seq<char>>) -> Seq<
    char,
> {
    match env_site {
        Some(e) if e.len() > 0 => e,
        _ => match configured {
            Some(c) => c,
            None => DEFAULT_SITE@,
        },
    }
}

/// `s` without the `/` characters at its end.
fn trim_slashes(s: &str) -> (r: String)
    ensures
        r@ == trim_end_slashes(s@),
{
    let mut n = s.unicode_len();
    assert(s@.subrange(0, n as int) =~= s@);
    while n > 0 && s.get_char(n - 1) == '/'
        invariant
            n <= s@.len(),
            trim_end_slashes(s@) == trim_end_slashes(s@.subrange(0, n as int)),
        decreases n,
    {
        assert(s@.subrange(0, n as int).drop_last() =~= s@.subrange(0, n - 1));
        n = n - 1;
    }
    String::from_str(s.substring_char(0, n))
}

impl Config {
    /// The site to talk to, without trailing slashes. `env_site` is the `GRIDLOCK_SITE`
    /// environment variable, which wins over the setting (for testing against a preview).
    pub fn site(&self, env_site: Option<&str>) -> (s: String)
        ensures
            s@ == trim_end_slashes(
                chosen_site(
                    match env_site {
                        Some(e) => Some(e@),
                        None => None,
                    },
                    match self.site {
                        Some(c) => Some(c@),
                        None => None,
                    },
                ),
            ),
    {
        match env_site {
            Some(e) if e.unicode_len() > 0 => {
                return trim_slashes(e);
            },
            _ => {},
        }
        match &self.site {
            Some(c) => trim_slashes(c.as_str()),
            None => trim_slashes(DEFAULT_SITE),
        }
    }
}

impl Config {
    /// Where the game lives: the configured folder, else `default` (the platform's local data
    /// folder with `GridLock` under it).
    pub fn install_dir(&self, default: &str) -> (d: String)
        ensures
            d@ == match self.install_dir {
                Some(p) => p@,
                None => default@,
            },
    {
        match &self.install_dir {
            Some(p) => p.clone(),
            None => String::from_str(default),
        }
    }
}

/// The stored token, or the error that sends the window back to Sign in.
pub fn token(cfg: &Config) -> (r: Result<String, String>)
    ensures
        match (r, cfg.token) {
            (Ok(t), Some(c)) => t@ == c@,
            (Err(m), None) => m@ == "unauthorized"@,
            _ => false,
        },
{
    match &cfg.token {
        Some(t) => Ok(t.clone()),
        None => Err(String::from_str("unauthorized")),
    }
}

/// The message of an error from the site; a token the site refused is forgotten, so the window
/// falls back to Sign in.
pub fn api_err(e: &ApiError, cfg: &mut Config) -> (m: String)
    ensures
        m@ == match e {
            ApiError::Unauthorized => "unauthorized"@,
            ApiError::NoBuild => "no build has been published for this platform yet"@,
            ApiError::Other(s) => s@,
        },
        e is Unauthorized ==> final(cfg).token is None,
        !(e is Unauthorized) ==> final(cfg).token == old(cfg).token,
        final(cfg).install_dir == old(cfg).install_dir,
        final(cfg).site == old(cfg).site,
{
    match e {
        ApiError::Unauthorized => {
            cfg.token = None;
        },
        _ => {},
    }
    e.message()
}

/// Presigned URLs live for an hour: a cached manifest is used only while they have more than five
/// minutes left.
pub fn fresh_enough(url_expires_at: Option<u64>, now_ms: u64) -> (r: bool)
    ensures
        r == match url_expires_at {
            Some(t) => t > now_ms + 300000,
            None => false,
        },
{
    match url_expires_at {
        Some(t) => t > now_ms && t - now_ms > 300000,
        None => false,
    }
}

/// The file that starts the game: the recorded one, or the platform's default when none is.
pub fn game_executable(recorded: &str, windows: bool) -> (r: String)
    ensures
        r@ == if recorded@.len() > 0 {
            recorded@
        } else if windows {
            "GridLock.exe"@
        } else {
            "GridLock.sh"@
        },
{
    if recorded.unicode_len() == 0 {
        if windows {
            String::from_str("GridLock.exe")
        } else {
            String::from_str("GridLock.sh")
        }
    } else {
        String::from_str(recorded)
    }
}

/// What the window shows after a check.
#[derive(Debug)]
pub struct CheckInfo {
    pub latest: String,
    pub installed: Option<String>,
    pub files: usize,
    pub bytes: u64,
    pub up_to_date: bool,
}

/// Compares the newest manifest with what is installed (`on_disk[k]`: the size on disk of the
/// file at manifest path `k`; `windows`: Windows path rules).
pub fn check_with(
    manifest: &Manifest,
    installed: Option<&Installed>,
    on_disk: &[Option<u64>],
    windows: bool,
) -> (r: Result<CheckInfo, PlanError>)
    requires
        on_disk@.len() == manifest.files@.len(),
        plan_fits(manifest.files@, installed_files(installed), on_disk@, windows),
    ensures
        ({
            let files = manifest.files@;
            let have = installed_files(installed);
            &&& r is Err <==> exists|k: int|
                0 <= k < files.len() && !plain_relative(#[trigger] files[k].path@, windows)
            &&& r matches Ok(info) ==> {
                &&& info.latest@ == manifest.version@
                &&& match (info.installed, installed) {
                    (Some(v), Some(i)) => v@ == i.version@,
                    (None, None) => true,
                    _ => false,
                }
                &&& info.files == to_fetch(files, have, on_disk@, files.len()).len()
                &&& info.bytes == fetch_bytes(files, have, on_disk@, files.len())
                &&& info.up_to_date == (to_fetch(files, have, on_disk@, files.len()).len() == 0
                    && forall|j: int|
                    0 <= j < have.len() ==> in_manifest(files, #[trigger] have[j].path@))
            }
        }),
{
    let p = match plan(manifest, installed, on_disk, windows) {
        Ok(p) => p,
        Err(e) => return Err(e),
    };
    let ghost have = installed_files(installed);
    assert(p.to_download@.map_values(|f: crate::net::ManifestFile| f@).len()
        == p.to_download@.len());
    proof {
        if p.to_delete@.len() == 0 {
            assert forall|j: int| 0 <= j < have.len() implies in_manifest(
                manifest.files@,
                #[trigger] have[j].path@,
            ) by {
                if !in_manifest(manifest.files@, have[j].path@) {
                    assert(crate::install::listed(p.to_delete@, have[j].path@));
                }
            }
        } else {
            assert(has_path(have, p.to_delete@[0]@));
            let j = choose|j: int| 0 <= j < have.len() && #[trigger] have[j].path@ == p.to_delete@[0]@;
            assert(!in_manifest(manifest.files@, have[j].path@));
        }
    }
    let installed_version = match installed {
        Some(i) => Some(i.version.clone()),
        None => None,
    };
    Ok(
        CheckInfo {
            latest: manifest.version.clone(),
            installed: installed_version,
            files: p.to_download.len(),
            bytes: p.bytes,
            up_to_date: p.to_download.len() == 0 && p.to_delete.len() == 0,
        },
    )
}

/// What the window shows on start.
#[derive(Debug)]
pub struct StateInfo {
    pub platform: String,
    pub launcher_version: String,
    pub site: String,
    pub logged_in: bool,
    pub install_dir: String,
    pub installed_version: Option<String>,
}

} // verus!
