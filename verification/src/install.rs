//! The game folder: what is installed, what the newest manifest wants, and the plan that gets
//! from one to the other.

use vstd::prelude::*;
use crate::net::{Manifest, ManifestFile, ManifestFileView};

verus! {

/// One file as it was installed.
#[derive(Debug)]
pub struct InstalledFile {
    pub path: String,
    pub sha256: String,
    pub size: u64,
    /// The executable bit was set (`exec` in the record's JSON).
    pub executable: bool,
}

/// The record of the installed build.
#[derive(Debug)]
pub struct Installed {
    pub version: String,
    /// The file to start the game with (`exec` in the record's JSON).
    pub exec_path: String,
    pub files: Vec<InstalledFile>,
}

/// Files the manifest wants that are not on disk in the right version, and files to remove.
#[derive(Debug)]
pub struct Plan {
    pub to_download: Vec<ManifestFile>,
    pub bytes: u64,
    pub to_delete: Vec<String>,
}

/// Why no plan can be made.
#[derive(Debug)]
pub enum PlanError {
    /// A manifest path that is absolute or steps outside the game folder.
    UnsafePath(String),
}

impl PlanError {
    /// The message the launcher shows for this error.
    pub fn message(&self) -> (s: String)
        ensures
            s@ == match self {
                PlanError::UnsafePath(p) => "manifest path is not a plain relative path: "@ + p@,
            },
    {
        match self {
            PlanError::UnsafePath(p) => String::from_str(
                "manifest path is not a plain relative path: ",
            ).concat(p.as_str()),
        }
    }
}

/// `c` separates path components: `/`, and on Windows also the backslash.
pub open spec fn is_separator(c: char, windows: bool) -> bool {
    c == '/' || (windows && c == '\\')
}

/// The path starts at a root directory.
pub open spec fn starts_at_root(p: Seq<char>, windows: bool) -> bool {
    p.len() > 0 && is_separator(p[0], windows)
}

/// On Windows, the path starts with a drive prefix such as `C:`.
pub open spec fn starts_with_drive(p: Seq<char>, windows: bool) -> bool {
    windows && p.len() >= 2 && p[1] == ':' && (('a' <= p[0] && p[0] <= 'z') || ('A' <= p[0]
        && p[0] <= 'Z'))
}

/// The path's first component is `.`.
pub open spec fn starts_at_current(p: Seq<char>, windows: bool) -> bool {
    p.len() > 0 && p[0] == '.' && (p.len() == 1 || is_separator(p[1], windows))
}

/// The component starting at character `i` is `..`.
pub open spec fn parent_at(p: Seq<char>, i: int, windows: bool) -> bool {
    &&& 0 <= i
    &&& i + 2 <= p.len()
    &&& p[i] == '.'
    &&& p[i + 1] == '.'
    &&& (i == 0 || is_separator(p[i - 1], windows))
    &&& (i + 2 == p.len() || is_separator(p[i + 2], windows))
}

/// The path, split into components at its separators, is relative and has only plain
/// components: no root, no drive, no `.` at its start (elsewhere `.` components are dropped),
/// and no `..`.
pub open spec fn plain_relative(p: Seq<char>, windows: bool) -> bool {
    &&& !starts_at_root(p, windows)
    &&& !starts_with_drive(p, windows)
    &&& !starts_at_current(p, windows)
    &&& forall|i: int| !#[trigger] parent_at(p, i, windows)
}

/// Whether `c` separates path components.
fn separator(c: char, windows: bool) -> (r: bool)
    ensures
        r == is_separator(c, windows),
{
    c == '/' || (windows && c == '\\')
}

/// Accepts a manifest path only when it stays inside the game folder; `windows` selects the path
/// rules of Windows over those of Unix.
pub fn safe_relative(path: &str, windows: bool) -> (r: Result<String, PlanError>)
    ensures
        r is Ok <==> plain_relative(path@, windows),
        r matches Ok(p) ==> p@ == path@,
        r matches Err(PlanError::UnsafePath(p)) ==> p@ == path@,
{
    let n = path.unicode_len();
    let mut ok = true;
    if n > 0 && separator(path.get_char(0), windows) {
        ok = false;
    }
    if windows && n >= 2 && path.get_char(1) == ':' {
        let c = path.get_char(0);
        if ('a' <= c && c <= 'z') || ('A' <= c && c <= 'Z') {
            ok = false;
        }
    }
    if n > 0 && path.get_char(0) == '.' && (n == 1 || separator(path.get_char(1), windows)) {
        ok = false;
    }
    let mut i: usize = 0;
    while i < n
        invariant
            n == path@.len(),
            i <= n,
            ok <==> (!starts_at_root(path@, windows) && !starts_with_drive(path@, windows)
                && !starts_at_current(path@, windows) && forall|j: int|
                0 <= j < i ==> !#[trigger] parent_at(path@, j, windows)),
        decreases n - i,
    {
        let hit = i + 1 < n && path.get_char(i) == '.' && path.get_char(i + 1) == '.' && (i == 0
            || separator(path.get_char(i - 1), windows)) && (i + 2 == n || separator(
            path.get_char(i + 2),
            windows,
        ));
        assert(hit == parent_at(path@, i as int, windows));
        if hit {
            ok = false;
        }
        i = i + 1;
    }
    assert(forall|j: int| i <= j ==> !#[trigger] parent_at(path@, j, windows));
    if ok {
        Ok(String::from_str(path))
    } else {
        Err(PlanError::UnsafePath(String::from_str(path)))
    }
}

/// The files of an installed record, none when nothing is installed.
pub open spec fn installed_files(installed: Option<&Installed>) -> Seq<InstalledFile> {
    match installed {
        Some(i) => i.files@,
        None => Seq::empty(),
    }
}

/// The last installed file with path `p`: the one a map from path to file keeps.
pub open spec fn last_with_path(have: Seq<InstalledFile>, p: Seq<char>) -> Option<InstalledFile>
    decreases have.len(),
{
    if have.len() == 0 {
        None
    } else if have.last().path@ == p {
        Some(have.last())
    } else {
        last_with_path(have.drop_last(), p)
    }
}

/// The manifest file is on disk in the right version: recorded with its hash, and on disk with
/// its size.
pub open spec fn in_place(f: ManifestFile, have: Seq<InstalledFile>, on_disk: Option<u64>) -> bool {
    &&& match last_with_path(have, f.path@) {
        Some(h) => h.sha256@ == f.sha256@,
        None => false,
    }
    &&& on_disk == Some(f.size)
}

/// The first `k` manifest files that are not in place, in order.
pub open spec fn to_fetch(
    files: Seq<ManifestFile>,
    have: Seq<InstalledFile>,
    on_disk: Seq<Option<u64>>,
    k: nat,
) -> Seq<ManifestFileView>
    decreases k,
{
    if k == 0 {
        Seq::empty()
    } else {
        let r = to_fetch(files, have, on_disk, (k - 1) as nat);
        if in_place(files[k - 1], have, on_disk[k - 1]) {
            r
        } else {
            r.push(files[k - 1]@)
        }
    }
}

/// Total size of the first `k` manifest files that are not in place.
pub open spec fn fetch_bytes(
    files: Seq<ManifestFile>,
    have: Seq<InstalledFile>,
    on_disk: Seq<Option<u64>>,
    k: nat,
) -> nat
    decreases k,
{
    if k == 0 {
        0
    } else {
        let r = fetch_bytes(files, have, on_disk, (k - 1) as nat);
        if in_place(files[k - 1], have, on_disk[k - 1]) {
            r
        } else {
            r + files[k - 1].size as nat
        }
    }
}

/// The sum of the sizes of what is fetched grows with the number of manifest files looked at.
proof fn lemma_fetch_bytes_monotone(
    files: Seq<ManifestFile>,
    have: Seq<InstalledFile>,
    on_disk: Seq<Option<u64>>,
    j: nat,
    k: nat,
)
    requires
        j <= k,
    ensures
        fetch_bytes(files, have, on_disk, j) <= fetch_bytes(files, have, on_disk, k),
    decreases k,
{
    if j < k {
        lemma_fetch_bytes_monotone(files, have, on_disk, j, (k - 1) as nat);
    }
}

/// Every path of the manifest is a plain relative path.
pub open spec fn paths_ok(files: Seq<ManifestFile>, windows: bool) -> bool {
    forall|k: int| 0 <= k < files.len() ==> plain_relative(#[trigger] files[k].path@, windows)
}

/// The plan can be made without its byte count overflowing: where every path is plain, the
/// sizes of the files to fetch add up to at most `u64::MAX`.
pub open spec fn plan_fits(
    files: Seq<ManifestFile>,
    have: Seq<InstalledFile>,
    on_disk: Seq<Option<u64>>,
    windows: bool,
) -> bool {
    paths_ok(files, windows) ==> fetch_bytes(files, have, on_disk, files.len()) <= u64::MAX
}

/// Some manifest file has path `p`.
pub open spec fn in_manifest(files: Seq<ManifestFile>, p: Seq<char>) -> bool {
    exists|j: int| 0 <= j < files.len() && #[trigger] files[j].path@ == p
}

/// The last installed file with path `p`.
fn find_installed<'a>(have: &'a Vec<InstalledFile>, p: &String) -> (r: Option<&'a InstalledFile>)
    ensures
        match (r, last_with_path(have@, p@)) {
            (Some(h), Some(g)) => *h == g,
            (None, None) => true,
            _ => false,
        },
{
    let mut found: Option<&InstalledFile> = None;
    let mut j: usize = 0;
    assert(have@.subrange(0, 0) =~= Seq::<InstalledFile>::empty());
    while j < have.len()
        invariant
            j <= have@.len(),
            match (found, last_with_path(have@.subrange(0, j as int), p@)) {
                (Some(h), Some(g)) => *h == g,
                (None, None) => true,
                _ => false,
            },
        decreases have@.len() - j,
    {
        assert(have@.subrange(0, j + 1).drop_last() =~= have@.subrange(0, j as int));
        if have[j].path == *p {
            found = Some(&have[j]);
        }
        j = j + 1;
    }
    assert(have@.subrange(0, have@.len() as int) =~= have@);
    found
}

/// Some installed file has path `p`.
pub open spec fn has_path(have: Seq<InstalledFile>, p: Seq<char>) -> bool {
    exists|j: int| 0 <= j < have.len() && #[trigger] have[j].path@ == p
}

/// Some string of `list` is `p`.
pub open spec fn listed(list: Seq<String>, p: Seq<char>) -> bool {
    exists|a: int| 0 <= a < list.len() && #[trigger] list[a]@ == p
}

/// The manifest wants some file at `p`.
fn manifest_has(files: &Vec<ManifestFile>, p: &String) -> (r: bool)
    ensures
        r == in_manifest(files@, p@),
{
    let mut j: usize = 0;
    while j < files.len()
        invariant
            j <= files@.len(),
            forall|i: int| 0 <= i < j ==> files@[i].path@ != p@,
        decreases files@.len() - j,
    {
        if files[j].path == *p {
            return true;
        }
        j = j + 1;
    }
    false
}

/// `list` holds `p`.
fn list_has(list: &Vec<String>, p: &String) -> (r: bool)
    ensures
        r == listed(list@, p@),
{
    let mut j: usize = 0;
    while j < list.len()
        invariant
            j <= list@.len(),
            forall|i: int| 0 <= i < j ==> list@[i]@ != p@,
        decreases list@.len() - j,
    {
        if list[j] == *p {
            return true;
        }
        j = j + 1;
    }
    false
}

/// Whether `plan` can be asked for: see `plan_fits`.
pub fn plan_bytes_fit(
    manifest: &Manifest,
    installed: Option<&Installed>,
    on_disk: &[Option<u64>],
    windows: bool,
) -> (r: bool)
    requires
        on_disk@.len() == manifest.files@.len(),
    ensures
        r == plan_fits(manifest.files@, installed_files(installed), on_disk@, windows),
{
    let files = &manifest.files;
    let n = files.len();
    let none: Vec<InstalledFile> = Vec::new();
    let have: &Vec<InstalledFile> = match installed {
        Some(i) => &i.files,
        None => &none,
    };
    assert(have@ == installed_files(installed));
    let mut k: usize = 0;
    while k < n
        invariant
            k <= n,
            n == files@.len(),
            files@ == manifest.files@,
            forall|j: int| 0 <= j < k ==> plain_relative(#[trigger] files@[j].path@, windows),
        decreases n - k,
    {
        match safe_relative(files[k].path.as_str(), windows) {
            Err(_) => {
                assert(!plain_relative(files@[k as int].path@, windows));
                assert(!paths_ok(files@, windows));
                return true;
            },
            Ok(_) => {},
        }
        k = k + 1;
    }
    let mut bytes: u64 = 0;
    let mut k: usize = 0;
    while k < n
        invariant
            k <= n,
            n == files@.len(),
            n == on_disk@.len(),
            files@ == manifest.files@,
            have@ == installed_files(installed),
            paths_ok(files@, windows),
            bytes == fetch_bytes(files@, have@, on_disk@, k as nat),
        decreases n - k,
    {
        let f = &files[k];
        let recorded = match find_installed(have, &f.path) {
            Some(h) => h.sha256 == f.sha256,
            None => false,
        };
        let sized = match on_disk[k] {
            Some(len) => len == f.size,
            None => false,
        };
        if !(recorded && sized) {
            if bytes > u64::MAX - f.size {
                assert(fetch_bytes(files@, have@, on_disk@, (k + 1) as nat) == bytes + f.size);
                proof {
                    lemma_fetch_bytes_monotone(files@, have@, on_disk@, (k + 1) as nat, n as nat);
                }
                return false;
            }
            bytes = bytes + f.size;
        }
        k = k + 1;
    }
    true
}

/// The plan from what is installed to what the manifest wants. `on_disk[k]` is the size of the
/// file at the path of manifest file `k` on disk, `None` where there is none; `windows` selects
/// the path rules of Windows.
pub fn plan(
    manifest: &Manifest,
    installed: Option<&Installed>,
    on_disk: &[Option<u64>],
    windows: bool,
) -> (r: Result<Plan, PlanError>)
    requires
        on_disk@.len() == manifest.files@.len(),
        plan_fits(manifest.files@, installed_files(installed), on_disk@, windows),
    ensures
        ({
            let files = manifest.files@;
            let have = installed_files(installed);
            &&& r is Err <==> exists|k: int|
                0 <= k < files.len() && !plain_relative(#[trigger] files[k].path@, windows)
            &&& r matches Err(PlanError::UnsafePath(p)) ==> exists|k: int|
                0 <= k < files.len() && !plain_relative(#[trigger] files[k].path@, windows) && p@
                    == files[k].path@ && forall|j: int| 0 <= j < k ==> plain_relative(files[j].path@, windows)
            &&& r matches Ok(pl) ==> {
                &&& pl.to_download@.map_values(|f: ManifestFile| f@) == to_fetch(
                    files,
                    have,
                    on_disk@,
                    files.len(),
                )
                &&& pl.bytes == fetch_bytes(files, have, on_disk@, files.len())
                &&& pl.to_download@.map_values(|f: ManifestFile| f@) == indices(files.len()).filter(
                    needs_fetch(files, have, on_disk@),
                ).map_values(manifest_at(files))
                &&& pl.bytes == pl.to_download@.map_values(|f: ManifestFile| f@).fold_left(
                    0nat,
                    add_size(),
                )
                &&& forall|k: int|
                    0 <= k < files.len() && on_disk@[k] != Some(files[k].size) ==> pl.to_download@.map_values(
                        |f: ManifestFile| f@,
                    ).contains(#[trigger] files[k]@)
                &&& forall|a: int, b: int|
                    0 <= a < b < pl.to_delete@.len() ==> pl.to_delete@[a]@ != pl.to_delete@[b]@
                &&& forall|a: int|
                    0 <= a < pl.to_delete@.len() ==> has_path(have, #[trigger] pl.to_delete@[a]@)
                        && !in_manifest(files, pl.to_delete@[a]@)
                &&& forall|j: int|
                    0 <= j < have.len() && !in_manifest(files, #[trigger] have[j].path@) ==> listed(
                        pl.to_delete@,
                        have[j].path@,
                    )
            }
        }),
{
    let files = &manifest.files;
    let n = files.len();
    let none: Vec<InstalledFile> = Vec::new();
    let have: &Vec<InstalledFile> = match installed {
        Some(i) => &i.files,
        None => &none,
    };
    assert(have@ == installed_files(installed));
    let mut k: usize = 0;
    while k < n
        invariant
            k <= n,
            files@ == manifest.files@,
            n == files@.len(),
            forall|j: int| 0 <= j < k ==> plain_relative(#[trigger] files@[j].path@, windows),
        decreases n - k,
    {
        match safe_relative(files[k].path.as_str(), windows) {
            Err(e) => {
                assert(!plain_relative(manifest.files@[k as int].path@, windows));
                return Err(e);
            },
            Ok(_) => {},
        }
        k = k + 1;
    }
    let mut to_download: Vec<ManifestFile> = Vec::new();
    let mut bytes: u64 = 0;
    let mut k: usize = 0;
    while k < n
        invariant
            k <= n,
            files@ == manifest.files@,
            have@ == installed_files(installed),
            n == files@.len(),
            n == on_disk@.len(),
            fetch_bytes(files@, have@, on_disk@, n as nat) <= u64::MAX,
            forall|j: int| 0 <= j < n ==> plain_relative(#[trigger] files@[j].path@, windows),
            to_download@.map_values(|f: ManifestFile| f@) == to_fetch(
                files@,
                have@,
                on_disk@,
                k as nat,
            ),
            bytes == fetch_bytes(files@, have@, on_disk@, k as nat),
        decreases n - k,
    {
        let f = &files[k];
        let recorded = match find_installed(have, &f.path) {
            Some(h) => h.sha256 == f.sha256,
            None => false,
        };
        let sized = match on_disk[k] {
            Some(len) => len == f.size,
            None => false,
        };
        let ghost before = to_download@;
        if !(recorded && sized) {
            proof {
                lemma_fetch_bytes_monotone(files@, have@, on_disk@, (k + 1) as nat, n as nat);
            }
            bytes = bytes + f.size;
            to_download.push(f.duplicate());
            assert(to_download@.map_values(|f: ManifestFile| f@) =~= before.map_values(
                |f: ManifestFile| f@,
            ).push(f@));
        }
        k = k + 1;
    }
    let mut to_delete: Vec<String> = Vec::new();
    let mut j: usize = 0;
    while j < have.len()
        invariant
            j <= have@.len(),
            files@ == manifest.files@,
            have@ == installed_files(installed),
            forall|a: int, b: int|
                0 <= a < b < to_delete@.len() ==> to_delete@[a]@ != to_delete@[b]@,
            forall|a: int|
                0 <= a < to_delete@.len() ==> has_path(have@, #[trigger] to_delete@[a]@)
                    && !in_manifest(files@, to_delete@[a]@),
            forall|i: int|
                0 <= i < j && !in_manifest(files@, #[trigger] have@[i].path@) ==> listed(
                    to_delete@,
                    have@[i].path@,
                ),
        decreases have@.len() - j,
    {
        let p = &have[j].path;
        if !manifest_has(files, p) && !list_has(&to_delete, p) {
            let ghost before = to_delete@;
            to_delete.push(p.clone());
            proof {
                assert(has_path(have@, p@) && to_delete@[before.len() as int]@ == p@);
                assert forall|i: int|
                    0 <= i < j + 1 && !in_manifest(files@, #[trigger] have@[i].path@) implies listed(
                    to_delete@,
                    have@[i].path@,
                ) by {
                    if i < j {
                        let a = choose|a: int| 0 <= a < before.len() && #[trigger] before[a]@ == have@[i].path@;
                        assert(to_delete@[a]@ == have@[i].path@);
                    } else {
                        assert(to_delete@[before.len() as int]@ == have@[i].path@);
                    }
                }
            }
        } else {
            proof {
                assert forall|i: int|
                    0 <= i < j + 1 && !in_manifest(files@, #[trigger] have@[i].path@) implies listed(
                    to_delete@,
                    have@[i].path@,
                ) by {
                    if i == j {
                        assert(listed(to_delete@, p@));
                    }
                }
            }
        }
        j = j + 1;
    }
    proof {
        lemma_plan_fetches_what_is_not_in_place(files@, have@, on_disk@, n as nat);
    }
    Ok(Plan { to_download, bytes, to_delete })
}

/// The contents of an `InstalledFile`, strings as their characters.
pub struct InstalledFileView {
    pub path: Seq<char>,
    pub sha256: Seq<char>,
    pub size: u64,
    pub executable: bool,
}

impl View for InstalledFile {
    type V = InstalledFileView;

    open spec fn view(&self) -> InstalledFileView {
        InstalledFileView {
            path: self.path@,
            sha256: self.sha256@,
            size: self.size,
            executable: self.executable,
        }
    }
}

impl InstalledFile {
    /// A copy of the entry.
    pub fn duplicate(&self) -> (r: InstalledFile)
        ensures
            r@ == self@,
    {
        InstalledFile {
            path: self.path.clone(),
            sha256: self.sha256.clone(),
            size: self.size,
            executable: self.executable,
        }
    }
}

/// The record of an installed build of `manifest`: its version, its start file, and each of its
/// files with its hash, size and executable bit.
pub fn installed_record(manifest: &Manifest) -> (r: Installed)
    ensures
        r.version@ == manifest.version@,
        r.exec_path@ == manifest.exec_path@,
        records(r.files@, manifest.files@),
{
    let mut files: Vec<InstalledFile> = Vec::new();
    let mut k: usize = 0;
    while k < manifest.files.len()
        invariant
            k <= manifest.files@.len(),
            files@.len() == k,
            forall|j: int|
                0 <= j < k ==> {
                    let f = #[trigger] manifest.files@[j];
                    files@[j]@ == InstalledFileView {
                        path: f.path@,
                        sha256: f.sha256@,
                        size: f.size,
                        executable: f.executable,
                    }
                },
        decreases manifest.files@.len() - k,
    {
        let f = &manifest.files[k];
        files.push(
            InstalledFile {
                path: f.path.clone(),
                sha256: f.sha256.clone(),
                size: f.size,
                executable: f.executable,
            },
        );
        k = k + 1;
    }
    Installed { version: manifest.version.clone(), exec_path: manifest.exec_path.clone(), files }
}

/// The first `k` files of `files` whose hash checked out in `ok`.
pub open spec fn kept_files(files: Seq<InstalledFile>, ok: Seq<bool>, k: nat) -> Seq<
    InstalledFileView,
>
    decreases k,
{
    if k == 0 {
        Seq::empty()
    } else if ok[k - 1] {
        kept_files(files, ok, (k - 1) as nat).push(files[k - 1]@)
    } else {
        kept_files(files, ok, (k - 1) as nat)
    }
}

/// How many of the first `k` checks failed.
pub open spec fn failed_count(ok: Seq<bool>, k: nat) -> nat
    decreases k,
{
    if k == 0 {
        0
    } else {
        failed_count(ok, (k - 1) as nat) + if ok[k - 1] {
            0nat
        } else {
            1nat
        }
    }
}

/// After re-hashing every recorded file (`ok[k]`: file `k` matched its hash), the record keeps
/// the files that matched, so the next check downloads the others; also returns how many failed.
pub fn keep_verified(installed: &Installed, ok: &[bool]) -> (r: (Installed, usize))
    requires
        ok@.len() == installed.files@.len(),
    ensures
        r.0.version@ == installed.version@,
        r.0.exec_path@ == installed.exec_path@,
        r.0.files@.map_values(|f: InstalledFile| f@) == kept_files(
            installed.files@,
            ok@,
            ok@.len(),
        ),
        r.1 == failed_count(ok@, ok@.len()),
        r.0.files@.map_values(|f: InstalledFile| f@) == indices(ok@.len()).filter(hash_ok(ok@)).map_values(
            installed_at(installed.files@),
        ),
        r.1 == indices(ok@.len()).filter(hash_failed(ok@)).len(),
        r.0.files@.len() + r.1 == ok@.len(),
{
    proof {
        lemma_verify_keeps_exactly_the_good_files(installed.files@, ok@, ok@.len());
    }
    let mut files: Vec<InstalledFile> = Vec::new();
    let mut bad: usize = 0;
    let mut k: usize = 0;
    while k < ok.len()
        invariant
            k <= ok@.len(),
            ok@.len() == installed.files@.len(),
            files@.map_values(|f: InstalledFile| f@) == kept_files(installed.files@, ok@, k as nat),
            bad == failed_count(ok@, k as nat),
            bad <= k,
        decreases ok@.len() - k,
    {
        let ghost before = files@;
        if ok[k] {
            files.push(installed.files[k].duplicate());
            assert(files@.map_values(|f: InstalledFile| f@) =~= before.map_values(
                |f: InstalledFile| f@,
            ).push(installed.files@[k as int]@));
        } else {
            bad = bad + 1;
        }
        k = k + 1;
    }
    (Installed {
        version: installed.version.clone(),
        exec_path: installed.exec_path.clone(),
        files,
    }, bad)
}

/// `have` is the record of an installed build of `files`: entry by entry the same path, hash,
/// size and executable bit.
pub open spec fn records(have: Seq<InstalledFile>, files: Seq<ManifestFile>) -> bool {
    &&& have.len() == files.len()
    &&& forall|k: int|
        0 <= k < have.len() ==> {
            let f = #[trigger] files[k];
            have[k]@ == InstalledFileView {
                path: f.path@,
                sha256: f.sha256@,
                size: f.size,
                executable: f.executable,
            }
        }
}

/// No two manifest files share a path.
pub open spec fn distinct_paths(files: Seq<ManifestFile>) -> bool {
    forall|a: int, b: int| 0 <= a < b < files.len() ==> files[a].path@ != files[b].path@
}

proof fn lemma_last_with_path_unique(have: Seq<InstalledFile>, p: Seq<char>, j: int, k: nat)
    requires
        0 <= j < k <= have.len(),
        have[j].path@ == p,
        forall|i: int| 0 <= i < have.len() && i != j ==> have[i].path@ != p,
    ensures
        last_with_path(have.subrange(0, k as int), p) == Some(have[j]),
    decreases k,
{
    let h = have.subrange(0, k as int);
    assert(h.drop_last() =~= have.subrange(0, k - 1));
    if j < k - 1 {
        lemma_last_with_path_unique(have, p, j, (k - 1) as nat);
    }
}

proof fn lemma_nothing_to_fetch(
    files: Seq<ManifestFile>,
    have: Seq<InstalledFile>,
    on_disk: Seq<Option<u64>>,
    k: nat,
)
    requires
        k <= files.len(),
        forall|i: int| 0 <= i < k ==> in_place(#[trigger] files[i], have, on_disk[i]),
    ensures
        to_fetch(files, have, on_disk, k).len() == 0,
        fetch_bytes(files, have, on_disk, k) == 0,
    decreases k,
{
    if k > 0 {
        lemma_nothing_to_fetch(files, have, on_disk, (k - 1) as nat);
    }
}

/// Once a build is installed as its record says, and every file is on disk with its size, the
/// plan for the same manifest downloads nothing and deletes nothing: the game is up to date.
pub proof fn lemma_installed_build_is_up_to_date(
    files: Seq<ManifestFile>,
    have: Seq<InstalledFile>,
    on_disk: Seq<Option<u64>>,
)
    requires
        records(have, files),
        distinct_paths(files),
        on_disk.len() == files.len(),
        forall|k: int| 0 <= k < files.len() ==> on_disk[k] == Some(#[trigger] files[k].size),
    ensures
        to_fetch(files, have, on_disk, files.len()).len() == 0,
        fetch_bytes(files, have, on_disk, files.len()) == 0,
        forall|j: int| 0 <= j < have.len() ==> in_manifest(files, #[trigger] have[j].path@),
{
    assert forall|i: int| 0 <= i < files.len() implies in_place(
        #[trigger] files[i],
        have,
        on_disk[i],
    ) by {
        assert(have[i]@.path == files[i].path@);
        assert forall|m: int| 0 <= m < have.len() && m != i implies have[m].path@
            != files[i].path@ by {
            assert(have[m]@.path == files[m].path@);
            if m < i {
                assert(files[m].path@ != files[i].path@);
            } else {
                assert(files[i].path@ != files[m].path@);
            }
        }
        lemma_last_with_path_unique(have, files[i].path@, i, have.len());
        assert(have.subrange(0, have.len() as int) =~= have);
        assert(have[i]@.sha256 == files[i].sha256@);
    }
    lemma_nothing_to_fetch(files, have, on_disk, files.len());
    assert forall|j: int| 0 <= j < have.len() implies in_manifest(
        files,
        #[trigger] have[j].path@,
    ) by {
        assert(have[j]@.path == files[j].path@);
        assert(files[j].path@ == have[j].path@);
    }
}

/// Download progress as the window shows it.
#[derive(Debug)]
pub struct Progress {
    pub done: u64,
    pub total: u64,
    pub file: String,
}

/// Progress is shown again when 150 ms have passed since it last was, or when the download is
/// complete.
pub fn should_report(elapsed_ms: u64, done: u64, total: u64) -> (r: bool)
    ensures
        r == (elapsed_ms >= 150 || done >= total),
{
    elapsed_ms >= 150 || done >= total
}


/// The indices `0..k`, in order.
pub open spec fn indices(k: nat) -> Seq<int> {
    Seq::new(k, |i: int| i)
}

/// Filtering the indices `0..k` looks at `k - 1` last.
proof fn lemma_indices_filter_step(k: nat, pred: spec_fn(int) -> bool)
    requires
        k > 0,
    ensures
        indices(k).filter(pred) == if pred(k - 1) {
            indices((k - 1) as nat).filter(pred).push(k - 1)
        } else {
            indices((k - 1) as nat).filter(pred)
        },
{
    reveal(Seq::filter);
    assert(indices(k).drop_last() =~= indices((k - 1) as nat));
}

/// The indices `i` with `ok[i]`: the files whose hash checked out.
pub open spec fn hash_ok(ok: Seq<bool>) -> spec_fn(int) -> bool {
    |i: int| ok[i]
}

/// The indices `i` without `ok[i]`: the files whose hash did not check out.
pub open spec fn hash_failed(ok: Seq<bool>) -> spec_fn(int) -> bool {
    |i: int| !ok[i]
}

/// Installed file `i` as its contents.
pub open spec fn installed_at(files: Seq<InstalledFile>) -> spec_fn(int) -> InstalledFileView {
    |i: int| files[i]@
}

/// Verifying keeps, in order, exactly the files whose hash checked out, drops every other one,
/// and counts those it dropped: the record and the count add up to the files checked.
pub proof fn lemma_verify_keeps_exactly_the_good_files(files: Seq<InstalledFile>, ok: Seq<bool>, k: nat)
    requires
        k <= ok.len(),
        ok.len() == files.len(),
    ensures
        kept_files(files, ok, k) == indices(k).filter(hash_ok(ok)).map_values(installed_at(files)),
        failed_count(ok, k) == indices(k).filter(hash_failed(ok)).len(),
        kept_files(files, ok, k).len() + failed_count(ok, k) == k,
    decreases k,
{
    if k > 0 {
        lemma_verify_keeps_exactly_the_good_files(files, ok, (k - 1) as nat);
        lemma_indices_filter_step(k, hash_ok(ok));
        lemma_indices_filter_step(k, hash_failed(ok));
        let prev = indices((k - 1) as nat).filter(hash_ok(ok));
        assert(prev.push(k - 1).map_values(installed_at(files)) =~= prev.map_values(
            installed_at(files),
        ).push(files[k - 1]@));
    }
}


/// The installed record's last entry for path `p` has hash `sha` (a later entry for a path
/// replaces an earlier one).
pub open spec fn recorded_as(have: Seq<InstalledFile>, p: Seq<char>, sha: Seq<char>) -> bool {
    exists|j: int|
        0 <= j < have.len() && #[trigger] have[j].path@ == p && have[j].sha256@ == sha && forall|
            j2: int,
        | j < j2 < have.len() ==> have[j2].path@ != p
}

/// The manifest files to fetch: all but those on disk with the manifest's size whose recorded
/// hash is the manifest's.
pub open spec fn needs_fetch(
    files: Seq<ManifestFile>,
    have: Seq<InstalledFile>,
    on_disk: Seq<Option<u64>>,
) -> spec_fn(int) -> bool {
    |k: int|
        !(on_disk[k] == Some(files[k].size) && recorded_as(
            have,
            files[k].path@,
            files[k].sha256@,
        ))
}

/// Manifest file `k` as its contents.
pub open spec fn manifest_at(files: Seq<ManifestFile>) -> spec_fn(int) -> ManifestFileView {
    |k: int| files[k]@
}

/// Adds a file's size to a running total.
pub open spec fn add_size() -> spec_fn(nat, ManifestFileView) -> nat {
    |total: nat, f: ManifestFileView| (total + f.size) as nat
}

/// The last recorded entry for a path is the one `recorded_as` speaks of.
proof fn lemma_last_recorded(have: Seq<InstalledFile>, p: Seq<char>, sha: Seq<char>)
    ensures
        (last_with_path(have, p) matches Some(h) && h.sha256@ == sha) <==> recorded_as(
            have,
            p,
            sha,
        ),
    decreases have.len(),
{
    if have.len() > 0 {
        let init = have.drop_last();
        let n = have.len() - 1;
        lemma_last_recorded(init, p, sha);
        if have.last().path@ == p {
            if recorded_as(have, p, sha) {
                let j = choose|j: int|
                    0 <= j < have.len() && #[trigger] have[j].path@ == p && have[j].sha256@ == sha
                        && forall|j2: int| j < j2 < have.len() ==> have[j2].path@ != p;
                if j < n {
                    assert(have[n].path@ != p);
                }
            }
            if have.last().sha256@ == sha {
                assert(have[n].path@ == p);
            }
        } else {
            if recorded_as(have, p, sha) {
                let j = choose|j: int|
                    0 <= j < have.len() && #[trigger] have[j].path@ == p && have[j].sha256@ == sha
                        && forall|j2: int| j < j2 < have.len() ==> have[j2].path@ != p;
                assert(j < n);
                assert(init[j].path@ == p);
                assert(recorded_as(init, p, sha));
            }
            if recorded_as(init, p, sha) {
                let j = choose|j: int|
                    0 <= j < init.len() && #[trigger] init[j].path@ == p && init[j].sha256@ == sha
                        && forall|j2: int| j < j2 < init.len() ==> init[j2].path@ != p;
                assert(have[j].path@ == p);
                assert forall|j2: int| j < j2 < have.len() implies have[j2].path@ != p by {
                    if j2 < n {
                        assert(init[j2].path@ != p);
                    }
                }
                assert(recorded_as(have, p, sha));
            }
        }
    }
}

/// The plan fetches, in manifest order, exactly the files that are not on disk with the
/// manifest's size and the manifest's recorded hash, and counts the sum of their sizes. In
/// particular a file missing from disk, or of another size there, is always fetched.
pub proof fn lemma_plan_fetches_what_is_not_in_place(
    files: Seq<ManifestFile>,
    have: Seq<InstalledFile>,
    on_disk: Seq<Option<u64>>,
    k: nat,
)
    requires
        k <= files.len(),
        on_disk.len() == files.len(),
    ensures
        to_fetch(files, have, on_disk, k) == indices(k).filter(needs_fetch(files, have, on_disk)).map_values(
            manifest_at(files),
        ),
        fetch_bytes(files, have, on_disk, k) == to_fetch(files, have, on_disk, k).fold_left(
            0nat,
            add_size(),
        ),
        forall|i: int|
            0 <= i < k && on_disk[i] != Some(files[i].size) ==> to_fetch(
                files,
                have,
                on_disk,
                k,
            ).contains(#[trigger] files[i]@),
    decreases k,
{
    if k > 0 {
        lemma_plan_fetches_what_is_not_in_place(files, have, on_disk, (k - 1) as nat);
        let pred = needs_fetch(files, have, on_disk);
        lemma_indices_filter_step(k, pred);
        lemma_last_recorded(have, files[k - 1].path@, files[k - 1].sha256@);
        let prev_idx = indices((k - 1) as nat).filter(pred);
        let prev = to_fetch(files, have, on_disk, (k - 1) as nat);
        assert(prev_idx.push(k - 1).map_values(manifest_at(files)) =~= prev_idx.map_values(
            manifest_at(files),
        ).push(files[k - 1]@));
        let cur = to_fetch(files, have, on_disk, k);
        if pred(k - 1) {
            assert(cur.drop_last() =~= prev);
        }
        assert forall|i: int|
            0 <= i < k && on_disk[i] != Some(files[i].size) implies cur.contains(
            #[trigger] files[i]@,
        ) by {
            if i < k - 1 {
                let j = choose|j: int| 0 <= j < prev.len() && prev[j] == files[i]@;
                assert(cur[j] == files[i]@);
            } else {
                assert(cur[cur.len() - 1] == files[i]@);
            }
        }
    }
}

} // verus!
