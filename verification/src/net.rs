//! What the site answers: the newest build's manifest, who is signed in, and the errors.

use vstd::prelude::*;

verus! {

/// One file of a build.
#[derive(Debug)]
pub struct ManifestFile {
    pub path: String,
    pub sha256: String,
    pub size: u64,
    /// Set the executable bit on this file (`exec` in the manifest's JSON).
    pub executable: bool,
    pub url: Option<String>,
    /// Block blobs: size of the blob in the store (what a fresh install downloads).
    pub stored: Option<u64>,
}

/// The contents of a `ManifestFile`, strings as their characters.
pub struct ManifestFileView {
    pub path: Seq<char>,
    pub sha256: Seq<char>,
    pub size: u64,
    pub executable: bool,
    pub url: Option<Seq<char>>,
    pub stored: Option<u64>,
}

/// The characters of an optional string.
pub open spec fn opt_chars(s: Option<String>) -> Option<Seq<char>> {
    match s {
        Some(t) => Some(t@),
        None => None,
    }
}

/// A copy of an optional string.
pub fn copy_opt(s: &Option<String>) -> (r: Option<String>)
    ensures
        opt_chars(r) == opt_chars(*s),
{
    match s {
        Some(t) => Some(t.clone()),
        None => None,
    }
}

impl View for ManifestFile {
    type V = ManifestFileView;

    open spec fn view(&self) -> ManifestFileView {
        ManifestFileView {
            path: self.path@,
            sha256: self.sha256@,
            size: self.size,
            executable: self.executable,
            url: opt_chars(self.url),
            stored: self.stored,
        }
    }
}

impl ManifestFile {
    /// A copy of the entry.
    pub fn duplicate(&self) -> (r: ManifestFile)
        ensures
            r@ == self@,
    {
        ManifestFile {
            path: self.path.clone(),
            sha256: self.sha256.clone(),
            size: self.size,
            executable: self.executable,
            url: copy_opt(&self.url),
            stored: self.stored,
        }
    }
}

/// The newest build for a platform.
#[derive(Debug)]
pub struct Manifest {
    pub version: String,
    pub platform: String,
    /// The file to start the game with (`exec` in the manifest's JSON).
    pub exec_path: String,
    pub total: u64,
    pub files: Vec<ManifestFile>,
    pub commit: Option<String>,
    /// When the presigned download URLs expire, in milliseconds since the epoch.
    pub url_expires_at: Option<u64>,
    /// `None`: raw objects; "glb1": block blobs.
    pub format: Option<String>,
    pub block: Option<u32>,
}

/// The signed-in account.
#[derive(Debug)]
pub struct UserInfo {
    pub id: String,
    pub email: Option<String>,
    pub name: Option<String>,
}

/// What went wrong talking to the site.
#[derive(Debug)]
pub enum ApiError {
    /// The token is not (or no longer) accepted.
    Unauthorized,
    /// No build has been published for the platform.
    NoBuild,
    /// Anything else, with its message.
    Other(String),
}

impl ApiError {
    /// The message the launcher shows for this error.
    pub fn message(&self) -> (s: String)
        ensures
            s@ == match self {
                ApiError::Unauthorized => "unauthorized"@,
                ApiError::NoBuild => "no build has been published for this platform yet"@,
                ApiError::Other(m) => m@,
            },
    {
        match self {
            ApiError::Unauthorized => String::from_str("unauthorized"),
            ApiError::NoBuild => String::from_str(
                "no build has been published for this platform yet",
            ),
            ApiError::Other(m) => m.clone(),
        }
    }
}

/// How the site answered a request, by HTTP status.
#[derive(Debug, Clone, Copy, PartialEq, Eq, Structural)]
pub enum StatusKind {
    /// 200: the body is the answer.
    Success,
    /// 401 or 403.
    Unauthorized,
    /// 404.
    NoBuild,
    /// Any other status: an error that quotes the body.
    Other,
}

/// The kind of answer an HTTP status code gives.
pub fn status_kind(code: u16) -> (k: StatusKind)
    ensures
        k == if code == 200 {
            StatusKind::Success
        } else if code == 401 || code == 403 {
            StatusKind::Unauthorized
        } else if code == 404 {
            StatusKind::NoBuild
        } else {
            StatusKind::Other
        },
{
    if code == 200 {
        StatusKind::Success
    } else if code == 401 || code == 403 {
        StatusKind::Unauthorized
    } else if code == 404 {
        StatusKind::NoBuild
    } else {
        StatusKind::Other
    }
}

/// The decimal digit `d`.
pub open spec fn digit_char(d: nat) -> char {
    (('0' as nat) + d) as char
}

/// The decimal representation of `n`, without leading zeros.
pub open spec fn decimal_of(n: nat) -> Seq<char>
    decreases n,
{
    if n < 10 {
        seq![digit_char(n)]
    } else {
        decimal_of(n / 10).push(digit_char(n % 10))
    }
}

/// The one-character string of the digit `d`.
fn digit_str(d: u64) -> (s: &'static str)
    requires
        d < 10,
    ensures
        s@ == seq![digit_char(d as nat)],
{
    proof {
        reveal_strlit("0");
        reveal_strlit("1");
        reveal_strlit("2");
        reveal_strlit("3");
        reveal_strlit("4");
        reveal_strlit("5");
        reveal_strlit("6");
        reveal_strlit("7");
        reveal_strlit("8");
        reveal_strlit("9");
    }
    let s = if d == 0 {
        "0"
    } else if d == 1 {
        "1"
    } else if d == 2 {
        "2"
    } else if d == 3 {
        "3"
    } else if d == 4 {
        "4"
    } else if d == 5 {
        "5"
    } else if d == 6 {
        "6"
    } else if d == 7 {
        "7"
    } else if d == 8 {
        "8"
    } else {
        "9"
    };
    assert(s@ =~= seq![digit_char(d as nat)]);
    s
}

/// `n` in decimal.
pub fn decimal(n: u64) -> (s: String)
    ensures
        s@ == decimal_of(n as nat),
    decreases n,
{
    if n < 10 {
        String::from_str(digit_str(n))
    } else {
        let head = decimal(n / 10);
        head.concat(digit_str(n % 10))
    }
}

/// The error for a status of kind `Other`: the status code, then up to 200 characters of the body.
pub fn other_error(code: u16, body: &str) -> (e: ApiError)
    ensures
        e matches ApiError::Other(m) && m@ == decimal_of(code as nat) + ": "@ + body@.take(
            if body@.len() < 200 {
                body@.len() as int
            } else {
                200
            },
        ),
{
    let len = body.unicode_len();
    let keep = if len < 200 {
        len
    } else {
        200
    };
    let head = body.substring_char(0, keep);
    let m = decimal(code as u64).concat(": ").concat(head);
    ApiError::Other(m)
}

/// The address that tells who is signed in.
pub fn me_url(site: &str) -> (u: String)
    ensures
        u@ == site@ + "/api/me"@,
{
    String::from_str(site).concat("/api/me")
}

/// The address of the newest manifest for a platform.
pub fn manifest_url(site: &str, platform: &str) -> (u: String)
    ensures
        u@ == site@ + "/api/manifest?platform="@ + platform@,
{
    String::from_str(site).concat("/api/manifest?platform=").concat(platform)
}

/// The sign-in page, which sends the browser back to the loopback port.
pub fn login_url(site: &str, port: u16) -> (u: String)
    ensures
        u@ == site@ + "/launcher/login?port="@ + decimal_of(port as nat),
{
    String::from_str(site).concat("/launcher/login?port=").concat(decimal(port as u64).as_str())
}

/// `p` starts with `q`.
pub open spec fn starts_with(p: Seq<char>, q: Seq<char>) -> bool {
    p.len() >= q.len() && p.subrange(0, q.len() as int) == q
}

/// The value of the first `token=` parameter of a query, split at `&`, starting at `i`.
pub open spec fn token_from(q: Seq<char>, i: int) -> Option<Seq<char>>
    decreases q.len() + 1 - i,
{
    if i < 0 || i > q.len() {
        None
    } else {
        let end = segment_end(q, i);
        proof {
            lemma_segment_end(q, i);
        }
        if starts_with(q.subrange(i, end), "token="@) {
            Some(q.subrange(i + 6, end))
        } else {
            token_from(q, end + 1)
        }
    }
}

/// Where the `&`-separated parameter starting at `i` ends.
pub open spec fn segment_end(q: Seq<char>, i: int) -> int
    decreases q.len() - i,
{
    if i >= q.len() || q[i] == '&' {
        i
    } else {
        segment_end(q, i + 1)
    }
}

/// Where a parameter ends: at the next `&` or the end of the query.
pub proof fn lemma_segment_end(q: Seq<char>, i: int)
    requires
        0 <= i <= q.len(),
    ensures
        i <= segment_end(q, i) <= q.len(),
        segment_end(q, i) < q.len() ==> q[segment_end(q, i)] == '&',
        forall|j: int| i <= j < segment_end(q, i) ==> q[j] != '&',
    decreases q.len() - i,
{
    if i < q.len() && q[i] != '&' {
        lemma_segment_end(q, i + 1);
    }
}

/// The token the sign-in page hands back: the request path is `/callback?` and a query whose
/// first `token=` parameter is not empty.
pub open spec fn callback_token_of(path: Seq<char>) -> Option<Seq<char>> {
    if starts_with(path, "/callback?"@) {
        match token_from(path.subrange(10, path.len() as int), 0) {
            Some(t) if t.len() > 0 => Some(t),
            _ => None,
        }
    } else {
        None
    }
}

/// Whether `s[at..]` starts with `p`.
fn has_at(s: &str, n: usize, at: usize, p: &str) -> (r: bool)
    requires
        n == s@.len(),
        at <= n,
    ensures
        r == starts_with(s@.subrange(at as int, n as int), p@),
{
    let m = p.unicode_len();
    if n - at < m {
        return false;
    }
    let mut k: usize = 0;
    while k < m
        invariant
            m == p@.len(),
            at + m <= n,
            n == s@.len(),
            k <= m,
            forall|j: int| 0 <= j < k ==> s@[at + j] == p@[j],
        decreases m - k,
    {
        if s.get_char(at + k) != p.get_char(k) {
            assert(s@.subrange(at as int, n as int).subrange(0, m as int)[k as int] != p@[k as int]);
            return false;
        }
        k = k + 1;
    }
    assert(s@.subrange(at as int, n as int).subrange(0, m as int) =~= p@);
    true
}

/// The token of a sign-in callback request path; `None` for any other request.
pub fn callback_token(path: &str) -> (r: Option<String>)
    ensures
        match (r, callback_token_of(path@)) {
            (Some(t), Some(c)) => t@ == c,
            (None, None) => true,
            _ => false,
        },
        r is Some ==> {
            &&& r.unwrap()@.len() > 0
            &&& starts_with(path@, "/callback?"@)
            &&& exists|s: int|
                10 <= s && (path@[s - 1] == '?' || path@[s - 1] == '&') && #[trigger] whole_token_at(
                    path@,
                    s,
                    r.unwrap()@,
                ) && forall|s2: int|
                    10 <= s2 < s && (s2 == 10 || path@[s2 - 1] == '&') ==> !#[trigger] token_param_at(
                        path@,
                        s2,
                    )
        },
{
    proof {
        reveal_strlit("/callback?");
        reveal_strlit("token=");
    }
    let n = path.unicode_len();
    assert(path@.subrange(0, n as int) =~= path@);
    if !has_at(path, n, 0, "/callback?") {
        return None;
    }
    let ghost q = path@.subrange(10, n as int);
    let mut i: usize = 10;
    while i <= n
        invariant
            10 <= i,
            10 <= n,
            n == path@.len(),
            q == path@.subrange(10, n as int),
            starts_with(path@, "/callback?"@),
            i <= n + 1,
            token_from(q, i - 10) == token_from(q, 0),
        decreases n + 1 - i,
    {
        let mut end = i;
        proof {
            reveal_strlit("token=");
            lemma_segment_end(q, i - 10);
        }
        while end < n && path.get_char(end) != '&'
            invariant
                i <= end <= n,
                10 <= i,
                10 <= n,
                n == path@.len(),
                q == path@.subrange(10, n as int),
                segment_end(q, i - 10) == segment_end(q, end - 10),
            decreases n - end,
        {
            assert(q[end - 10] == path@[end as int]);
            end = end + 1;
        }
        proof {
            lemma_segment_end(q, end - 10);
        }
        assert(segment_end(q, i - 10) == end - 10);
        let seg = path.substring_char(i, end);
        assert(seg@ =~= q.subrange(i - 10, end - 10));
        assert(seg@.subrange(0, seg@.len() as int) =~= seg@);
        if has_at(seg, seg.unicode_len(), 0, "token=") {
            assert(i + 6 <= end);
            let t = path.substring_char(i + 6, end);
            assert(t@ =~= q.subrange(i - 10 + 6, end - 10));
            assert(token_from(q, i - 10) == Some(q.subrange(i - 10 + 6, end - 10)));
            if t.unicode_len() > 0 {
                proof {
                    lemma_callback_token_is_a_whole_parameter(path@);
                }
                assert(callback_token_of(path@) == Some(t@));
                return Some(String::from_str(t));
            } else {
                return None;
            }
        }
        if end >= n {
            assert(token_from(q, end - 10 + 1) == None::<Seq<char>>);
            return None;
        }
        i = end + 1;
    }
    None
}


/// `t` is the value of a whole `token=` parameter of `q` that starts at `s`: the parameter opens
/// at `s`, its value runs to the next `&` or the end of `q`, and holds no `&`.
pub open spec fn whole_token_at(q: Seq<char>, s: int, t: Seq<char>) -> bool {
    &&& 0 <= s
    &&& s + 6 + t.len() <= q.len()
    &&& q.subrange(s, s + 6) == "token="@
    &&& q.subrange(s + 6, s + 6 + t.len()) == t
    &&& (s + 6 + t.len() == q.len() || q[s + 6 + t.len()] == '&')
    &&& forall|x: int| 0 <= x < t.len() ==> t[x] != '&'
}

/// A `token=` parameter could start at `s` of `q`: its first six characters are `token=`.
pub open spec fn token_param_at(q: Seq<char>, s: int) -> bool {
    0 <= s && s + 6 <= q.len() && q.subrange(s, s + 6) == "token="@
}

/// What `token_from` finds from a parameter start is a whole `token=` parameter that starts at
/// a parameter start at or after it, and no parameter between them is a `token=` one.
proof fn lemma_token_from_whole(q: Seq<char>, i: int)
    requires
        0 <= i,
        i <= q.len() ==> (i == 0 || q[i - 1] == '&'),
    ensures
        token_from(q, i) is Some ==> exists|s: int|
            i <= s && (s == 0 || q[s - 1] == '&') && #[trigger] whole_token_at(
                q,
                s,
                token_from(q, i).unwrap(),
            ) && forall|s2: int|
                i <= s2 < s && (s2 == i || q[s2 - 1] == '&') ==> !#[trigger] token_param_at(q, s2),
    decreases q.len() + 1 - i,
{
    reveal_strlit("token=");
    if i <= q.len() {
        lemma_segment_end(q, i);
        let end = segment_end(q, i);
        if starts_with(q.subrange(i, end), "token="@) {
            let t = q.subrange(i + 6, end);
            assert(q.subrange(i, i + 6) =~= q.subrange(i, end).subrange(0, 6));
            assert(q.subrange(i + 6, i + 6 + t.len()) =~= t);
            assert(forall|x: int| 0 <= x < t.len() ==> t[x] == q[i + 6 + x]);
            assert(token_from(q, i) == Some(t));
            // the parameter that starts at `i` is the witness
            assert(whole_token_at(q, i, token_from(q, i).unwrap()));
        } else {
            assert(token_from(q, i) == token_from(q, end + 1));
            if end + 1 <= q.len() {
                assert(q[end] == '&');
            }
            lemma_token_from_whole(q, end + 1);
            // the parameter at `i` is not a `token=` one
            if token_param_at(q, i) {
                if i + 6 <= end {
                    assert(q.subrange(i, end).subrange(0, 6) =~= q.subrange(i, i + 6));
                } else {
                    assert(q[end] == q.subrange(i, i + 6)[end - i]);
                }
            }
            if token_from(q, i) is Some {
                let t = token_from(q, i).unwrap();
                let s = choose|s: int|
                    end + 1 <= s && (s == 0 || q[s - 1] == '&') && #[trigger] whole_token_at(q, s, t)
                        && forall|s2: int|
                        end + 1 <= s2 < s && (s2 == end + 1 || q[s2 - 1] == '&')
                            ==> !#[trigger] token_param_at(q, s2);
                assert forall|s2: int|
                    i <= s2 < s && (s2 == i || q[s2 - 1] == '&') implies !#[trigger] token_param_at(
                    q,
                    s2,
                ) by {
                    if s2 <= end && s2 != i {
                        assert(q[s2 - 1] != '&');
                    }
                }
            }
        }
    }
}

/// The token of a sign-in callback is the value of the first `token=` parameter of its query,
/// taken whole: the path opens with `/callback?`, the parameter starts right after the `?` or
/// after an `&`, no parameter before it starts with `token=`, and the token runs to the next `&`
/// or the end of the path; it is not empty.
pub proof fn lemma_callback_token_is_a_whole_parameter(path: Seq<char>)
    ensures
        callback_token_of(path) is Some ==> {
            &&& callback_token_of(path).unwrap().len() > 0
            &&& starts_with(path, "/callback?"@)
            &&& exists|s: int|
                10 <= s && (path[s - 1] == '?' || path[s - 1] == '&') && #[trigger] whole_token_at(
                    path,
                    s,
                    callback_token_of(path).unwrap(),
                ) && forall|s2: int|
                    10 <= s2 < s && (s2 == 10 || path[s2 - 1] == '&') ==> !#[trigger] token_param_at(
                        path,
                        s2,
                    )
        },
{
    reveal_strlit("/callback?");
    reveal_strlit("token=");
    if callback_token_of(path) is Some {
        let t = callback_token_of(path).unwrap();
        let q = path.subrange(10, path.len() as int);
        lemma_token_from_whole(q, 0);
        let s = choose|s: int|
            0 <= s && (s == 0 || q[s - 1] == '&') && #[trigger] whole_token_at(q, s, t) && forall|
                s2: int,
            | 0 <= s2 < s && (s2 == 0 || q[s2 - 1] == '&') ==> !#[trigger] token_param_at(q, s2);
        assert(path.subrange(0, 10)[9] == '?');
        assert(path.subrange(s + 10, s + 16) =~= q.subrange(s, s + 6));
        assert(path.subrange(s + 16, s + 16 + t.len()) =~= q.subrange(s + 6, s + 6 + t.len()));
        assert(whole_token_at(path, s + 10, t));
        assert forall|s2: int|
            10 <= s2 < s + 10 && (s2 == 10 || path[s2 - 1] == '&') implies !#[trigger] token_param_at(
            path,
            s2,
        ) by {
            if token_param_at(path, s2) {
                assert(path.subrange(s2, s2 + 6) =~= q.subrange(s2 - 10, s2 - 4));
                assert(token_param_at(q, s2 - 10));
            }
        }
    }
}

} // verus!
