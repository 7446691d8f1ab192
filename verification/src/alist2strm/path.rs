//! The remote path model: one file or directory of an AList listing, and
//! where it lands in the local library.
use vstd::prelude::*;
use vstd::utf8::encode_utf8;
use crate::extensions::is_video_ext;
use crate::fspath::{join_vec, path_join, with_strm_extension, with_strm_extension_vec};
use crate::text::{
    chars_of, concat_vec, contains, find, find_exec, lemma_find_from, lemma_rfind_char, lower,
    lower_vec, push_all, push_str, rfind_char, rfind_char_exec, slice_vec, starts_with,
    occurs_at_exec, string_from, trim_end_by, trim_end_by_vec, trim_start_by, trim_start_by_vec,
};

verus! {

/// An entry of an AList directory listing.
pub struct AlistObject {
    pub name: String,
    pub size: i64,
    pub is_dir: bool,
    /// Modification time, in seconds since the Unix epoch.
    pub modified: i64,
    pub sign: String,
}

/// A remote file or directory, with what is needed to link to it.
pub struct AlistPath {
    /// Root address of the AList site, used for `/d` download links.
    pub server_url: String,
    /// The user's base path; kept in download links of non-root users.
    pub base_path: String,
    /// The path relative to the user's root.
    pub full_path: String,
    pub name: String,
    pub size: u64,
    pub is_dir: bool,
    pub modified_timestamp: i64,
    pub sign: String,
    pub raw_url: Option<String>,
}

// ---------------------------------------------------------------------------
// Specifications
// ---------------------------------------------------------------------------

/// `parent/name`, with exactly one `/` between them.
pub open spec fn joined_alist_path(parent: Seq<char>, name: Seq<char>) -> Seq<char> {
    let p = trim_end_by(parent, '/');
    if p.len() == 0 {
        seq!['/'] + name
    } else {
        p + seq!['/'] + name
    }
}

/// The lower-case extension of `name` with its dot, or empty without a dot.
pub open spec fn suffix_spec(name: Seq<char>) -> Seq<char> {
    let k = rfind_char(name, '.');
    if k < 0 {
        Seq::empty()
    } else {
        seq!['.'] + lower(name.skip(k + 1))
    }
}

/// `p`, with a `/` in front if it has none.
pub open spec fn with_leading_slash(p: Seq<char>) -> Seq<char> {
    if p.len() > 0 && p[0] == '/' {
        p
    } else {
        seq!['/'] + p
    }
}

/// `path` relative to `source`: the `source` prefix (without trailing `/`)
/// removed when present, then leading `/` removed.
pub open spec fn relative_to_source(path: Seq<char>, source: Seq<char>) -> Seq<char> {
    let s = trim_end_by(source, '/');
    let r = if starts_with(path, s) {
        path.skip(s.len() as int)
    } else {
        path
    };
    trim_start_by(r, '/')
}

/// `/BDMV/`
pub open spec fn bdmv_marker() -> Seq<char> {
    seq!['/', 'B', 'D', 'M', 'V', '/']
}

/// `/BDMV/STREAM/`
pub open spec fn bdmv_stream_marker() -> Seq<char> {
    seq!['/', 'B', 'D', 'M', 'V', '/', 'S', 'T', 'R', 'E', 'A', 'M', '/']
}

/// `.m2ts`
pub open spec fn m2ts() -> Seq<char> {
    seq!['.', 'm', '2', 't', 's']
}

/// A stream file of a Blu-ray folder: under `/BDMV/STREAM/`, with extension `.m2ts`.
pub open spec fn is_bdmv_stream(full_path: Seq<char>, name: Seq<char>) -> bool {
    contains(full_path, bdmv_stream_marker()) && suffix_spec(name) == m2ts()
}

/// The folder that holds the first `/BDMV/` of `full_path`, when not empty.
pub open spec fn bdmv_root_of(full_path: Seq<char>) -> Option<Seq<char>> {
    match find(full_path, bdmv_marker()) {
        Some(i) => if i > 0 {
            Some(full_path.take(i))
        } else {
            None
        },
        None => None,
    }
}

/// The last component of `root` (trailing `/` ignored), or `BDMV` when empty.
pub open spec fn movie_title(root: Seq<char>) -> Seq<char> {
    let t = trim_end_by(root, '/');
    let last = t.skip(rfind_char(t, '/') + 1);
    if last.len() > 0 {
        last
    } else {
        seq!['B', 'D', 'M', 'V']
    }
}

/// `.strm`
pub open spec fn strm_ext() -> Seq<char> {
    seq!['.', 's', 't', 'r', 'm']
}

/// A byte that URL encoding keeps: ASCII letters, digits and `-`, `.`, `_`, `~`.
pub open spec fn is_unreserved(b: u8) -> bool {
    ||| 48 <= b <= 57
    ||| 65 <= b <= 90
    ||| 97 <= b <= 122
    ||| b == 45
    ||| b == 46
    ||| b == 95
    ||| b == 126
}

/// The upper-case hexadecimal digit of `d < 16`.
pub open spec fn hex_digit(d: int) -> char {
    if d < 10 {
        (48 + d) as char
    } else {
        (55 + d) as char
    }
}

/// One byte, URL encoded.
pub open spec fn encoded_byte(b: u8) -> Seq<char> {
    if is_unreserved(b) {
        seq![b as char]
    } else {
        seq!['%', hex_digit((b / 16) as int), hex_digit((b % 16) as int)]
    }
}

/// A byte string, URL encoded byte by byte.
pub open spec fn encoded_bytes(b: Seq<u8>) -> Seq<char>
    decreases b.len(),
{
    if b.len() == 0 {
        Seq::empty()
    } else {
        encoded_byte(b[0]) + encoded_bytes(b.drop_first())
    }
}

/// `s` URL encoded: each byte of its UTF-8 form percent-encoded, except
/// ASCII letters, digits and `-`, `.`, `_`, `~`.
pub open spec fn url_encoded(s: Seq<char>) -> Seq<char> {
    encoded_bytes(encode_utf8(s))
}

/// `p` with each `/`-separated segment URL encoded and the `/` kept.
pub open spec fn encoded_path(p: Seq<char>) -> Seq<char>
    decreases p.len(),
{
    match find(p, seq!['/']) {
        Some(k) => if 0 <= k < p.len() {
            url_encoded(p.take(k)) + seq!['/'] + encoded_path(p.skip(k + 1))
        } else {
            url_encoded(p)
        },
        None => url_encoded(p),
    }
}

/// `?sign=`
pub open spec fn sign_query() -> Seq<char> {
    seq!['?', 's', 'i', 'g', 'n', '=']
}

/// The AList download link: `server + "/d" + encoded(base + full)`, then
/// `?sign=` and the encoded sign when there is one.
pub open spec fn download_url_of(
    server: Seq<char>,
    base: Seq<char>,
    full: Seq<char>,
    sign: Seq<char>,
) -> Seq<char> {
    let abs = trim_end_by(base, '/') + with_leading_slash(full);
    let url = trim_end_by(server, '/') + seq!['/', 'd'] + encoded_path(abs);
    if sign.len() == 0 {
        url
    } else {
        url + sign_query() + url_encoded(sign)
    }
}

/// Where a remote file lands locally.
///
/// A Blu-ray stream (given its root) becomes `<movie title>.strm`, flat in the
/// target or under the root's place relative to the source; any other file
/// keeps its name, flat or at its relative place, and a video gets the
/// extension `.strm`.
pub open spec fn local_path_of(
    name: Seq<char>,
    full: Seq<char>,
    source: Seq<char>,
    target: Seq<char>,
    flatten: bool,
    bdmv_root: Option<Seq<char>>,
) -> Seq<char> {
    match bdmv_root {
        Some(root) => {
            let file = movie_title(root) + strm_ext();
            if flatten {
                path_join(target, file)
            } else {
                path_join(path_join(target, relative_to_source(root, source)), file)
            }
        },
        None => {
            let base = if flatten {
                path_join(target, name)
            } else {
                path_join(target, relative_to_source(full, source))
            };
            if is_video_ext(suffix_spec(name)) {
                with_strm_extension(base)
            } else {
                base
            }
        },
    }
}

// ---------------------------------------------------------------------------
// Trusted: URL encoding
// ---------------------------------------------------------------------------

/// `urlencoding::encode`: percent-encodes every UTF-8 byte of `s` except ASCII
/// alphanumerics and `-`, `.`, `_`, `~`, with upper-case hex digits.
#[verifier::external_body]
fn url_encode(s: &str) -> (r: String)
    ensures
        r@ == url_encoded(s@),
{
    urlencoding::encode(s).into_owned()
}

// ---------------------------------------------------------------------------
// Executable code
// ---------------------------------------------------------------------------

fn joined_alist_path_vec(parent: &Vec<char>, name: &Vec<char>) -> (r: Vec<char>)
    ensures
        r@ == joined_alist_path(parent@, name@),
{
    let p = trim_end_by_vec(parent, '/');
    if p.len() == 0 {
        let slash: Vec<char> = vec!['/'];
        concat_vec(&slash, name)
    } else {
        let mut q = p;
        q.push('/');
        concat_vec(&q, name)
    }
}

/// Joins an AList directory and a name with exactly one `/`.
pub fn join_alist_path(parent: &str, name: &str) -> (r: String)
    ensures
        r@ == joined_alist_path(parent@, name@),
{
    let p = chars_of(parent);
    let n = chars_of(name);
    string_from(&joined_alist_path_vec(&p, &n))
}

fn suffix_vec(name: &Vec<char>) -> (r: Vec<char>)
    ensures
        r@ == suffix_spec(name@),
{
    match rfind_char_exec(name, '.') {
        None => Vec::new(),
        Some(k) => {
            proof { lemma_rfind_char(name@, '.'); }
            assert(k < name.len());
            let ext = slice_vec(name, k + 1, name.len());
            assert(ext@ == name@.skip(k + 1));
            let l = lower_vec(&ext);
            let dot: Vec<char> = vec!['.'];
            concat_vec(&dot, &l)
        },
    }
}

/// The lower-case extension of a file name, with its dot (empty without one).
pub fn suffix_of(name: &str) -> (r: String)
    ensures
        r@ == suffix_spec(name@),
{
    let n = chars_of(name);
    string_from(&suffix_vec(&n))
}

fn leading_slash_vec(p: &Vec<char>) -> (r: Vec<char>)
    ensures
        r@ == with_leading_slash(p@),
{
    if p.len() > 0 && p[0] == '/' {
        slice_vec(p, 0, p.len())
    } else {
        let slash: Vec<char> = vec!['/'];
        concat_vec(&slash, p)
    }
}

/// `path` with a leading `/`.
pub fn ensure_leading_slash(path: &str) -> (r: String)
    ensures
        r@ == with_leading_slash(path@),
{
    let p = chars_of(path);
    string_from(&leading_slash_vec(&p))
}

fn relative_vec(path: &Vec<char>, source: &Vec<char>) -> (r: Vec<char>)
    ensures
        r@ == relative_to_source(path@, source@),
{
    let s = trim_end_by_vec(source, '/');
    let rest = if occurs_at_exec(path, &s, 0) {
        let rest = slice_vec(path, s.len(), path.len());
        assert(rest@ == path@.skip(s@.len() as int));
        rest
    } else {
        let rest = slice_vec(path, 0, path.len());
        assert(rest@ == path@);
        rest
    };
    trim_start_by_vec(&rest, '/')
}

/// `path` relative to the task's source directory.
pub fn relative_from_source(path: &str, source_dir: &str) -> (r: String)
    ensures
        r@ == relative_to_source(path@, source_dir@),
{
    let p = chars_of(path);
    let s = chars_of(source_dir);
    string_from(&relative_vec(&p, &s))
}

fn movie_title_vec(root: &Vec<char>) -> (r: Vec<char>)
    ensures
        r@ == movie_title(root@),
{
    let t = trim_end_by_vec(root, '/');
    proof { lemma_rfind_char(t@, '/'); }
    let start = match rfind_char_exec(&t, '/') {
        Some(k) => {
            assert(k < t.len());
            k + 1
        },
        None => 0,
    };
    let last = slice_vec(&t, start, t.len());
    assert(last@ == t@.skip(rfind_char(t@, '/') + 1));
    if last.len() > 0 {
        last
    } else {
        vec!['B', 'D', 'M', 'V']
    }
}

/// The movie title of a Blu-ray folder: its last path component, or `BDMV`.
pub fn movie_title_from_bdmv_root(root: &str) -> (r: String)
    ensures
        r@ == movie_title(root@),
{
    let v = chars_of(root);
    string_from(&movie_title_vec(&v))
}

fn bdmv_root_vec(full: &Vec<char>) -> (r: Option<Vec<char>>)
    ensures
        r is Some == bdmv_root_of(full@) is Some,
        r matches Some(x) ==> bdmv_root_of(full@) == Some(x@),
{
    let marker: Vec<char> = vec!['/', 'B', 'D', 'M', 'V', '/'];
    assert(marker@ == bdmv_marker());
    match find_exec(full, &marker) {
        Some(i) => {
            proof { lemma_find_from(full@, bdmv_marker(), 0); }
            if i > 0 {
                Some(slice_vec(full, 0, i))
            } else {
                None
            }
        },
        None => None,
    }
}

/// The Blu-ray folder of a path: what precedes its first `/BDMV/`, if not empty.
pub fn bdmv_root(path: &AlistPath) -> (r: Option<String>)
    ensures
        r is Some == bdmv_root_of(path.full_path@) is Some,
        r matches Some(x) ==> bdmv_root_of(path.full_path@) == Some(x@),
{
    let full = chars_of(path.full_path.as_str());
    match bdmv_root_vec(&full) {
        Some(x) => Some(string_from(&x)),
        None => None,
    }
}

fn is_bdmv_stream_vec(full: &Vec<char>, name: &Vec<char>) -> (b: bool)
    ensures
        b == is_bdmv_stream(full@, name@),
{
    let marker: Vec<char> = vec!['/', 'B', 'D', 'M', 'V', '/', 'S', 'T', 'R', 'E', 'A', 'M', '/'];
    assert(marker@ == bdmv_stream_marker());
    let found = find_exec(full, &marker);
    if found.is_none() {
        return false;
    }
    let s = suffix_vec(name);
    let m: Vec<char> = vec!['.', 'm', '2', 't', 's'];
    assert(m@ == m2ts());
    crate::extensions::chars_eq(&s, &m)
}

/// Whether a path is a Blu-ray stream (`.m2ts` under `/BDMV/STREAM/`).
pub fn is_bdmv_file(path: &AlistPath) -> (b: bool)
    ensures
        b == is_bdmv_stream(path.full_path@, path.name@),
{
    let full = chars_of(path.full_path.as_str());
    let name = chars_of(path.name.as_str());
    is_bdmv_stream_vec(&full, &name)
}

fn encode_path_vec(p: &Vec<char>) -> (r: String)
    ensures
        r@ == encoded_path(p@),
    decreases p@.len(),
{
    let slash: Vec<char> = vec!['/'];
    assert(slash@ == seq!['/']);
    match find_exec(p, &slash) {
        Some(k) => {
            proof { lemma_find_from(p@, seq!['/'], 0); }
            assert(seq!['/'].len() == 1);
            assert(k < p.len());
            let head = string_from(&slice_vec(p, 0, k));
            let mut r = url_encode(head.as_str());
            r.push('/');
            let tail = slice_vec(p, k + 1, p.len());
            assert(tail@ == p@.skip(k + 1));
            let rest = encode_path_vec(&tail);
            push_str(&mut r, rest.as_str());
            r
        },
        None => {
            let s = string_from(p);
            url_encode(s.as_str())
        },
    }
}

/// Each `/`-separated segment of `path` URL encoded, the `/` kept.
pub fn encode_path(path: &str) -> (r: String)
    ensures
        r@ == encoded_path(path@),
{
    let p = chars_of(path);
    encode_path_vec(&p)
}

impl AlistPath {
    /// The path model of an entry listed in the directory `parent_path`.
    pub fn from_obj(
        server_url: String,
        base_path: String,
        parent_path: &str,
        object: AlistObject,
    ) -> (r: AlistPath)
        ensures
            r.server_url@ == server_url@,
            r.base_path@ == base_path@,
            r.full_path@ == joined_alist_path(parent_path@, object.name@),
            r.name@ == object.name@,
            r.size == (if object.size < 0 { 0 } else { object.size as int }),
            r.is_dir == object.is_dir,
            r.modified_timestamp == object.modified,
            r.sign@ == object.sign@,
            r.raw_url is None,
    {
        let full_path = join_alist_path(parent_path, object.name.as_str());
        let size: u64 = if object.size < 0 { 0 } else { object.size as u64 };
        AlistPath {
            server_url,
            base_path,
            full_path,
            name: object.name,
            size,
            is_dir: object.is_dir,
            modified_timestamp: object.modified,
            sign: object.sign,
            raw_url: None,
        }
    }

    /// The same path, with its raw link set.
    pub fn with_raw_url(self, raw_url: String) -> (r: AlistPath)
        ensures
            r == (AlistPath { raw_url: Some(raw_url), ..self }),
    {
        let mut p = self;
        p.raw_url = Some(raw_url);
        p
    }

    /// The lower-case extension of the name, with its dot.
    pub fn suffix(&self) -> (r: String)
        ensures
            r@ == suffix_spec(self.name@),
    {
        suffix_of(self.name.as_str())
    }

    /// The AList `/d` download link of this path.
    pub fn download_url(&self) -> (r: String)
        ensures
            r@ == download_url_of(self.server_url@, self.base_path@, self.full_path@, self.sign@),
    {
        let base = trim_end_by_vec(&chars_of(self.base_path.as_str()), '/');
        let full = leading_slash_vec(&chars_of(self.full_path.as_str()));
        let abs = concat_vec(&base, &full);
        let server = trim_end_by_vec(&chars_of(self.server_url.as_str()), '/');
        let mut url = string_from(&server);
        url.push('/');
        url.push('d');
        let encoded = encode_path_vec(&abs);
        push_str(&mut url, encoded.as_str());
        assert(url@ =~= trim_end_by(self.server_url@, '/') + seq!['/', 'd'] + encoded_path(abs@));
        if !self.sign.as_str().is_empty() {
            let q: Vec<char> = vec!['?', 's', 'i', 'g', 'n', '='];
            push_all(&mut url, &q);
            let s = url_encode(self.sign.as_str());
            push_str(&mut url, s.as_str());
            assert(q@ == sign_query());
        } else {
            assert(self.sign@.len() == 0);
        }
        url
    }

    /// Where this path lands under `target_dir`.
    pub fn local_path(
        &self,
        source_dir: &str,
        target_dir: &str,
        flatten_mode: bool,
        bdmv_root: Option<&str>,
    ) -> (r: String)
        ensures
            r@ == local_path_of(
                self.name@,
                self.full_path@,
                source_dir@,
                target_dir@,
                flatten_mode,
                match bdmv_root {
                    Some(x) => Some(x@),
                    None => None,
                },
            ),
    {
        let target = chars_of(target_dir);
        let source = chars_of(source_dir);
        match bdmv_root {
            Some(root) => {
                let root_chars = chars_of(root);
                let title = movie_title_vec(&root_chars);
                let ext: Vec<char> = vec!['.', 's', 't', 'r', 'm'];
                assert(ext@ == strm_ext());
                let file = concat_vec(&title, &ext);
                if flatten_mode {
                    string_from(&join_vec(&target, &file))
                } else {
                    let rel = relative_vec(&root_chars, &source);
                    let dir = join_vec(&target, &rel);
                    string_from(&join_vec(&dir, &file))
                }
            },
            None => {
                let name = chars_of(self.name.as_str());
                let base = if flatten_mode {
                    join_vec(&target, &name)
                } else {
                    let full = chars_of(self.full_path.as_str());
                    let rel = relative_vec(&full, &source);
                    join_vec(&target, &rel)
                };
                let suffix = suffix_vec(&name);
                if crate::extensions::is_video_extension(&suffix) {
                    string_from(&with_strm_extension_vec(&base))
                } else {
                    string_from(&base)
                }
            },
        }
    }
}

/// In flat mode a video with a plain name (not empty, no `/`, not `.` or
/// `..`) becomes a `.strm` file directly in the target directory.
pub proof fn law_flat_videos_become_strm_files(
    name: Seq<char>,
    full: Seq<char>,
    source: Seq<char>,
    target: Seq<char>,
)
    requires
        is_video_ext(suffix_spec(name)),
        name.len() > 0,
        forall|i: int| 0 <= i < name.len() ==> name[i] != '/',
        name != seq!['.'],
        name != seq!['.', '.'],
    ensures
        crate::fspath::is_strm(local_path_of(name, full, source, target, true, None)),
{
    crate::fspath::law_join_name_is_file_name(target, name);
    crate::fspath::law_strm_extension_is_strm(path_join(target, name));
}

/// Outside flat mode, a file other than a video or a disc stream keeps its
/// place: below the target directory, its path is its path below the source
/// directory (when that is a plain relative path, see `is_plain_relative`).
pub proof fn law_local_path_mirrors_source(
    name: Seq<char>,
    full: Seq<char>,
    source: Seq<char>,
    target: Seq<char>,
)
    requires
        !is_video_ext(suffix_spec(name)),
        crate::fspath::is_plain_relative(relative_to_source(full, source)),
    ensures
        crate::fspath::strip_prefix(local_path_of(name, full, source, target, false, None), target)
            == Some(relative_to_source(full, source)),
{
    crate::fspath::lemma_strip_joined(target, relative_to_source(full, source));
}

/// `trim_start_by(s, c)` does not start with `c`.
proof fn lemma_trim_start_first(s: Seq<char>, c: char)
    ensures
        trim_start_by(s, c).len() == 0 || trim_start_by(s, c)[0] != c,
    decreases s.len(),
{
    if s.len() > 0 && s[0] == c {
        lemma_trim_start_first(s.drop_first(), c);
    }
}

/// The place of a file relative to the source never starts at the root,
/// whatever the source (the whole server `/` included), so outside flat mode
/// a file other than a video or a disc stream lands under the target.
pub proof fn law_relative_place_stays_under_target(
    name: Seq<char>,
    full: Seq<char>,
    source: Seq<char>,
    target: Seq<char>,
)
    ensures
        relative_to_source(full, source).len() == 0 || relative_to_source(full, source)[0] != '/',
        !is_video_ext(suffix_spec(name))
            ==> crate::fspath::strip_prefix(local_path_of(name, full, source, target, false, None), target) is Some,
{
    let s = trim_end_by(source, '/');
    let r = if starts_with(full, s) { full.skip(s.len() as int) } else { full };
    lemma_trim_start_first(r, '/');
    crate::fspath::lemma_joined_is_under(target, relative_to_source(full, source));
}

} // verus!
