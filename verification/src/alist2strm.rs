//! Alist2Strm: task configuration, remote path model, `.strm` deletion
//! protection and the decisions of a synchronisation run.
pub mod path;
pub mod protection;
pub mod runner;
pub mod scan;

use vstd::prelude::*;
use crate::text::{
    chars_of, lower_char, occurs_at, find, find_exec, lemma_find_from, lower, lower_vec, slice_vec, string_from, trim_vec,
    trim_ws,
};

verus! {

/// Connection settings of the AList server a task reads from.
pub struct AlistConfig {
    /// Address of the AList server; the scheme may be omitted (`https://` is assumed).
    pub base_url: String,
    /// Address written into `.strm` files in place of `base_url`, when set.
    pub public_url: Option<String>,
    pub username: Option<String>,
    pub password: Option<String>,
    pub otp_code: Option<String>,
    /// Permanent token; preferred over user name and password.
    pub token: Option<String>,
}

/// Which companion files are downloaded next to the `.strm` files.
pub struct DownloadOption {
    pub subtitle: bool,
    pub image: bool,
    pub nfo: bool,
    /// Further extensions, each lower case with a leading `.`.
    pub other_ext: Vec<String>,
}

/// What a `.strm` file contains.
#[derive(Debug, Clone, Copy, PartialEq, Eq, Structural)]
pub enum Mode {
    /// The AList `/d` download link.
    AlistURL,
    /// The raw link of the storage backend.
    RawURL,
    /// The AList path itself.
    AlistPath,
}

/// Protection against mass deletion of `.strm` files.
pub struct SmartProtection {
    pub enabled: bool,
    /// Deleting this many `.strm` files or more at once needs confirmation.
    pub threshold: usize,
    /// The number of consecutive scans that must confirm a protected deletion.
    pub grace_scans: usize,
}

/// Local clean-up of files that vanished from the server.
pub struct SyncConfig {
    pub enabled: bool,
    /// Regular expression on file names that are never deleted.
    pub ignore: Option<String>,
    pub smart_protection: Option<SmartProtection>,
}

/// One Alist2Strm task.
pub struct Config {
    pub id: String,
    pub cron: Option<String>,
    pub alist: AlistConfig,
    pub source_dir: String,
    pub target_dir: String,
    pub mode: Mode,
    pub flatten_mode: bool,
    pub overwrite: bool,
    pub download: DownloadOption,
    pub sync: Option<SyncConfig>,
    pub max_workers: usize,
    pub max_downloaders: usize,
}

/// `rawurl`
pub open spec fn rawurl() -> Seq<char> {
    seq!['r', 'a', 'w', 'u', 'r', 'l']
}

/// `alistpath`
pub open spec fn alistpath() -> Seq<char> {
    seq!['a', 'l', 'i', 's', 't', 'p', 'a', 't', 'h']
}

/// The mode named by `v`, ignoring ASCII case; unknown names mean `AlistURL`.
pub open spec fn mode_named(v: Seq<char>) -> Mode {
    if lower(v) == rawurl() {
        Mode::RawURL
    } else if lower(v) == alistpath() {
        Mode::AlistPath
    } else {
        Mode::AlistURL
    }
}

/// `a` and `b` are equal up to ASCII case.
pub open spec fn equal_ignoring_ascii_case(a: Seq<char>, b: Seq<char>) -> bool {
    a.len() == b.len() && forall|i: int| 0 <= i < a.len() ==> lower_char(a[i]) == lower_char(b[i])
}

/// Mode names ignore ASCII case: names equal up to case name the same mode,
/// and `RawURL` and `AlistPath`, in any case, name those modes.
pub proof fn law_mode_names_ignore_case(a: Seq<char>, b: Seq<char>)
    requires
        equal_ignoring_ascii_case(a, b),
    ensures
        mode_named(a) == mode_named(b),
        equal_ignoring_ascii_case(a, seq!['R', 'a', 'w', 'U', 'R', 'L']) ==> mode_named(a) == Mode::RawURL,
        equal_ignoring_ascii_case(a, seq!['A', 'l', 'i', 's', 't', 'P', 'a', 't', 'h']) ==> mode_named(a) == Mode::AlistPath,
        !equal_ignoring_ascii_case(a, seq!['R', 'a', 'w', 'U', 'R', 'L'])
            && !equal_ignoring_ascii_case(a, seq!['A', 'l', 'i', 's', 't', 'P', 'a', 't', 'h'])
            ==> mode_named(a) == Mode::AlistURL,
{
    assert(lower(a) =~= lower(b));
    let raw = seq!['R', 'a', 'w', 'U', 'R', 'L'];
    let path = seq!['A', 'l', 'i', 's', 't', 'P', 'a', 't', 'h'];
    assert(lower(raw) =~= rawurl());
    assert(lower(path) =~= alistpath());
    if equal_ignoring_ascii_case(a, raw) {
        assert(lower(a) =~= lower(raw));
    }
    if equal_ignoring_ascii_case(a, path) {
        assert(lower(a) =~= lower(path));
    }
    if lower(a) == rawurl() {
        assert forall|i: int| 0 <= i < a.len() implies lower_char(a[i]) == lower_char(raw[i]) by {
            assert(lower(a)[i] == lower(raw)[i]);
        }
    }
    if lower(a) == alistpath() {
        assert forall|i: int| 0 <= i < a.len() implies lower_char(a[i]) == lower_char(path[i]) by {
            assert(lower(a)[i] == lower(path)[i]);
        }
    }
}

impl Mode {
    /// Parses a mode name case-insensitively; unknown names give `AlistURL`.
    pub fn from_str(value: &str) -> (m: Mode)
        ensures
            m == mode_named(value@),
    {
        let v = chars_of(value);
        let l = lower_vec(&v);
        let r: Vec<char> = vec!['r', 'a', 'w', 'u', 'r', 'l'];
        let a: Vec<char> = vec!['a', 'l', 'i', 's', 't', 'p', 'a', 't', 'h'];
        assert(r@ == rawurl());
        assert(a@ == alistpath());
        if crate::extensions::chars_eq(&l, &r) {
            Mode::RawURL
        } else if crate::extensions::chars_eq(&l, &a) {
            Mode::AlistPath
        } else {
            Mode::AlistURL
        }
    }
}

impl Default for Mode {
    fn default() -> (m: Mode)
        ensures
            m == Mode::AlistURL,
    {
        Mode::AlistURL
    }
}

/// The default number of concurrently processed paths.
pub fn default_max_workers() -> (n: usize)
    ensures
        n == 50,
{
    50
}

/// The default number of concurrent companion downloads.
pub fn default_max_downloaders() -> (n: usize)
    ensures
        n == 5,
{
    5
}

/// The default deletion count that triggers protection.
pub fn default_protection_threshold() -> (n: usize)
    ensures
        n == 100,
{
    100
}

/// The default number of confirming scans.
pub fn default_grace_scans() -> (n: usize)
    ensures
        n == 3,
{
    3
}

impl Default for DownloadOption {
    fn default() -> (d: DownloadOption)
        ensures
            !d.subtitle && !d.image && !d.nfo,
            d.other_ext@.len() == 0,
    {
        DownloadOption { subtitle: false, image: false, nfo: false, other_ext: Vec::new() }
    }
}

impl Default for SmartProtection {
    fn default() -> (p: SmartProtection)
        ensures
            !p.enabled,
            p.threshold == 100,
            p.grace_scans == 3,
    {
        SmartProtection {
            enabled: false,
            threshold: default_protection_threshold(),
            grace_scans: default_grace_scans(),
        }
    }
}

/// An extension trimmed, in ASCII lower case, with a leading `.`.
pub open spec fn normalized_ext(v: Seq<char>) -> Seq<char> {
    let l = lower(trim_ws(v));
    if l.len() > 0 && l[0] == '.' {
        l
    } else {
        seq!['.'] + l
    }
}

/// The extensions named in a comma-separated list: each item trimmed, empty
/// items dropped, the rest normalised.
pub open spec fn exts_in_list(s: Seq<char>) -> Seq<Seq<char>>
    decreases s.len(),
{
    let head = match find(s, seq![',']) {
        Some(k) => s.take(k),
        None => s,
    };
    let rest = match find(s, seq![',']) {
        Some(k) => if 0 <= k < s.len() { exts_in_list(s.skip(k + 1)) } else { Seq::empty() },
        None => Seq::empty(),
    };
    if trim_ws(head).len() == 0 {
        rest
    } else {
        seq![normalized_ext(head)] + rest
    }
}

/// The views of a list of strings.
pub open spec fn string_views(v: Seq<String>) -> Seq<Seq<char>> {
    v.map_values(|s: String| s@)
}

fn normalize_ext_vec(v: &Vec<char>) -> (r: Vec<char>)
    ensures
        r@ == normalized_ext(v@),
{
    let t = trim_vec(v);
    let l = lower_vec(&t);
    if l.len() > 0 && l[0] == '.' {
        l
    } else {
        let mut r: Vec<char> = vec!['.'];
        let mut i: usize = 0;
        while i < l.len()
            invariant
                i <= l@.len(),
                r@ == seq!['.'] + l@.take(i as int),
            decreases l.len() - i,
        {
            r.push(l[i]);
            i += 1;
            assert(l@.take(i as int) == l@.take(i - 1).push(l@[i - 1]));
        }
        assert(l@.take(l@.len() as int) == l@);
        r
    }
}

/// Normalises one extension: trimmed, lower case, with a leading `.`.
pub fn normalize_ext(value: &str) -> (r: String)
    ensures
        r@ == normalized_ext(value@),
{
    let v = chars_of(value);
    let n = normalize_ext_vec(&v);
    string_from(&n)
}

fn exts_in_list_vec(s: &Vec<char>) -> (r: Vec<String>)
    ensures
        string_views(r@) == exts_in_list(s@),
    decreases s@.len(),
{
    let comma: Vec<char> = vec![','];
    assert(comma@ == seq![',']);
    let found = find_exec(s, &comma);
    proof { lemma_find_from(s@, seq![','], 0); }
    let (head, mut rest) = match found {
        Some(k) => {
            assert(occurs_at(s@, seq![','], k as int));
            assert(seq![','].len() == 1);
            assert(k < s.len());
            let head = slice_vec(s, 0, k);
            let tail = slice_vec(s, k + 1, s.len());
            assert(tail@ == s@.skip(k + 1));
            (head, exts_in_list_vec(&tail))
        },
        None => (slice_vec(s, 0, s.len()), Vec::new()),
    };
    assert(head@ == match find(s@, seq![',']) { Some(k) => s@.take(k), None => s@ });
    let t = trim_vec(&head);
    if t.len() == 0 {
        assert(string_views(rest@) == exts_in_list(s@));
        rest
    } else {
        let e = string_from(&normalize_ext_vec(&head));
        let mut r: Vec<String> = vec![e];
        let mut i: usize = 0;
        let ghost rv = string_views(rest@);
        while i < rest.len()
            invariant
                i <= rest@.len(),
                rv == string_views(rest@),
                string_views(r@) == seq![normalized_ext(head@)] + rv.take(i as int),
            decreases rest.len() - i,
        {
            let ghost old_r = r@;
            let x = rest[i].clone();
            assert(x@ == rv[i as int]);
            r.push(x);
            i += 1;
            assert(r@ == old_r.push(x));
            assert(string_views(r@) =~= string_views(old_r).push(x@));
            assert(rv.take(i as int) =~= rv.take(i - 1).push(rv[i - 1]));
        }
        assert(rv.take(rv.len() as int) == rv);
        r
    }
}

/// The extensions named in a comma-separated list, normalised, without empty items.
pub fn parse_ext_list(value: &str) -> (r: Vec<String>)
    ensures
        string_views(r@) == exts_in_list(value@),
{
    let v = chars_of(value);
    exts_in_list_vec(&v)
}

/// Every extension of a list, normalised.
pub fn normalize_exts(values: &Vec<String>) -> (r: Vec<String>)
    ensures
        string_views(r@) == string_views(values@).map_values(|e: Seq<char>| normalized_ext(e)),
{
    let mut r: Vec<String> = Vec::new();
    let mut i: usize = 0;
    while i < values.len()
        invariant
            i <= values@.len(),
            string_views(r@) == string_views(values@).take(i as int).map_values(
                |e: Seq<char>| normalized_ext(e),
            ),
        decreases values.len() - i,
    {
        let ghost old_r = r@;
        let x = normalize_ext(values[i].as_str());
        assert(x@ == normalized_ext(string_views(values@)[i as int]));
        r.push(x);
        i += 1;
        assert(string_views(r@) =~= string_views(old_r).push(x@));
        assert(string_views(values@).take(i as int) =~= string_views(values@).take(i - 1).push(
            string_views(values@)[i - 1],
        ));
        assert(string_views(r@) =~= string_views(values@).take(i as int).map_values(
            |e: Seq<char>| normalized_ext(e),
        ));
    }
    assert(string_views(values@).take(values@.len() as int) == string_views(values@));
    r
}

} // verus!
