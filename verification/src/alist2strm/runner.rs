//! The decisions of an Alist2Strm run: which remote files to process, what a
//! `.strm` file holds, which companion files to download, which Blu-ray
//! stream stands for a disc, and which local files to delete.
use vstd::prelude::*;
use crate::alist2strm::path::{
    bdmv_root, bdmv_root_of, download_url_of, is_bdmv_file, is_bdmv_stream, local_path_of,
    suffix_spec, AlistPath,
};
use crate::alist2strm::protection::{set_of, ProtectionManager};
use crate::alist2strm::{Config, Mode, SmartProtection, AlistConfig};
use crate::extensions::{
    image_ext_list, image_exts, member, nfo_ext_list, nfo_exts, subtitle_ext_list, subtitle_exts,
    video_ext_list, video_exts, views, chars_eq,
};
use crate::fspath::{file_name, file_name_vec, holds_path, is_strm, is_strm_vec, path_member, same_path};
use crate::text::{
    chars_of, concat_vec, contains, find, find_exec, lemma_find_from, lower, lower_vec,
    occurs_at, occurs_at_exec, push_all, slice_vec, starts_with, string_from, trim_end_by,
    trim_end_by_vec, trim_vec, trim_ws,
};

verus! {

// ---------------------------------------------------------------------------
// Errors
// ---------------------------------------------------------------------------

#[verifier::external_type_specification]
#[verifier::external_body]
pub struct ExRegex(regex::Regex);

#[verifier::external_type_specification]
#[verifier::external_body]
pub struct ExRegexError(regex::Error);

/// What can stop a run before it starts.
pub enum RunError {
    /// Neither a token nor a user name and password is configured.
    MissingAuthentication,
    /// The sync ignore pattern is not a valid regular expression.
    Regex(regex::Error),
}

// ---------------------------------------------------------------------------
// Trusted: regular expressions
// ---------------------------------------------------------------------------

/// Whether `regex::Regex::new` accepts the pattern (with its default size limit).
pub uninterp spec fn regex_compiles(pattern: Seq<char>) -> bool;

/// Whether the regular expression `pattern` matches somewhere in `haystack`.
pub uninterp spec fn regex_is_match(pattern: Seq<char>, haystack: Seq<char>) -> bool;

/// `regex::Regex::new`: succeeds exactly on the patterns it accepts.
#[verifier::external_body]
fn compile_regex(pattern: &str) -> (r: Result<regex::Regex, regex::Error>)
    ensures
        r is Ok <==> regex_compiles(pattern@),
{
    regex::Regex::new(pattern)
}

/// A compiled sync ignore pattern, with the pattern it was compiled from.
pub struct IgnoreRule {
    pattern: String,
    regex: regex::Regex,
}

impl View for IgnoreRule {
    type V = Seq<char>;

    closed spec fn view(&self) -> Seq<char> {
        self.pattern@
    }
}

/// `regex::Regex::is_match` on the rule's compiled pattern: whether it matches
/// somewhere in `haystack`.
#[verifier::external_body]
fn rule_is_match(rule: &IgnoreRule, haystack: &str) -> (b: bool)
    ensures
        b == regex_is_match(rule@, haystack@),
{
    rule.regex.is_match(haystack)
}

impl IgnoreRule {
    /// Compiles a pattern.
    pub fn new(pattern: &str) -> (r: Result<IgnoreRule, RunError>)
        ensures
            r is Ok <==> regex_compiles(pattern@),
            r matches Ok(rule) ==> rule@ == pattern@,
            r matches Err(e) ==> e is Regex,
    {
        match compile_regex(pattern) {
            Ok(regex) => Ok(IgnoreRule { pattern: pattern.to_owned(), regex }),
            Err(e) => Err(RunError::Regex(e)),
        }
    }

    /// Whether the file name of `path` (empty without one) matches.
    pub fn ignores(&self, path: &str) -> (b: bool)
        ensures
            b == regex_is_match(self@, match file_name(path@) { Some(n) => n, None => Seq::empty() }),
    {
        let p = chars_of(path);
        let name = match file_name_vec(&p) {
            Some(n) => string_from(&n),
            None => String::new(),
        };
        rule_is_match(self, name.as_str())
    }
}

// ---------------------------------------------------------------------------
// Addresses and authentication
// ---------------------------------------------------------------------------

/// `http://`
pub open spec fn http_prefix() -> Seq<char> {
    seq!['h', 't', 't', 'p', ':', '/', '/']
}

/// `https://`
pub open spec fn https_prefix() -> Seq<char> {
    seq!['h', 't', 't', 'p', 's', ':', '/', '/']
}

/// An AList address trimmed, without trailing `/`, with `https://` added when
/// it names no scheme.
pub open spec fn normalized_url(url: Seq<char>) -> Seq<char> {
    let t = trim_end_by(trim_ws(url), '/');
    if starts_with(t, http_prefix()) || starts_with(t, https_prefix()) {
        t
    } else {
        https_prefix() + t
    }
}

/// Normalises an AList address.
pub fn normalize_url(url: &str) -> (r: String)
    ensures
        r@ == normalized_url(url@),
{
    let v = chars_of(url);
    let t = trim_end_by_vec(&trim_vec(&v), '/');
    let http: Vec<char> = vec!['h', 't', 't', 'p', ':', '/', '/'];
    let https: Vec<char> = vec!['h', 't', 't', 'p', 's', ':', '/', '/'];
    assert(http@ == http_prefix());
    assert(https@ == https_prefix());
    if occurs_at_exec(&t, &http, 0) || occurs_at_exec(&t, &https, 0) {
        string_from(&t)
    } else {
        string_from(&concat_vec(&https, &t))
    }
}

/// How the AList client authenticates.
pub enum Authentication {
    Token(String),
    UsernamePassword { username: String, password: String, otp_code: Option<String> },
}

/// `Some(s)` with `s` not empty after trimming.
pub open spec fn present_trimmed(s: Option<String>) -> bool {
    s matches Some(x) && trim_ws(x@).len() > 0
}

/// `Some(s)` with `s` not empty.
pub open spec fn present_nonempty(s: Option<String>) -> bool {
    s matches Some(x) && x@.len() > 0
}

pub fn is_blank_string(s: &String) -> (b: bool)
    ensures
        b == (trim_ws(s@).len() == 0),
{
    let v = chars_of(s.as_str());
    trim_vec(&v).len() == 0
}

/// The authentication of a task's client: the token when one is set (not
/// blank), else user name and password when both are set (not empty).
pub fn authentication(config: &AlistConfig) -> (r: Result<Authentication, RunError>)
    ensures
        present_trimmed(config.token) ==> (r matches Ok(Authentication::Token(t)) && t@ == config.token->0@),
        !present_trimmed(config.token) && present_nonempty(config.username) && present_nonempty(config.password)
            ==> (r matches Ok(Authentication::UsernamePassword { username, password, otp_code })
                && username@ == config.username->0@ && password@ == config.password->0@
                && otp_code == config.otp_code),
        !present_trimmed(config.token) && !(present_nonempty(config.username) && present_nonempty(config.password))
            ==> r matches Err(RunError::MissingAuthentication),
{
    match &config.token {
        Some(t) => {
            if !is_blank_string(t) {
                return Ok(Authentication::Token(t.clone()));
            }
        },
        None => {},
    }
    match (&config.username, &config.password) {
        (Some(u), Some(p)) => {
            if !u.as_str().is_empty() && !p.as_str().is_empty() {
                Ok(Authentication::UsernamePassword {
                    username: u.clone(),
                    password: p.clone(),
                    otp_code: config.otp_code.clone(),
                })
            } else {
                Err(RunError::MissingAuthentication)
            }
        },
        _ => Err(RunError::MissingAuthentication),
    }
}

// ---------------------------------------------------------------------------
// The task
// ---------------------------------------------------------------------------

/// The lower-case views of a list of strings.
pub open spec fn lowered(v: Seq<String>) -> Set<Seq<char>> {
    Set::new(|e: Seq<char>| exists|i: int| 0 <= i < v.len() && e == lower(v[i]@))
}

/// The companion extensions of a task: none in flat mode; otherwise the
/// enabled subtitle, image and metadata extensions and the extra ones.
pub open spec fn companion_exts(config: Config) -> Set<Seq<char>> {
    if config.flatten_mode {
        Set::empty()
    } else {
        (if config.download.subtitle { subtitle_ext_list().to_set() } else { Set::empty() })
            + (if config.download.image { image_ext_list().to_set() } else { Set::empty() })
            + (if config.download.nfo { nfo_ext_list().to_set() } else { Set::empty() })
            + lowered(config.download.other_ext@)
    }
}

/// The extensions a task processes: the videos and its companion extensions.
pub open spec fn processed_exts(config: Config) -> Set<Seq<char>> {
    video_ext_list().to_set() + companion_exts(config)
}

/// `old` replaced by `new` at its first occurrence in `s`.
pub open spec fn replace_first(s: Seq<char>, old: Seq<char>, new: Seq<char>) -> Seq<char> {
    match find(s, old) {
        Some(i) => s.take(i) + new + s.skip(i + old.len()),
        None => s,
    }
}

/// `@eaDir`, `Thumbs.db`, `.DS_Store`: files of other systems.
pub open spec fn is_system_file(full: Seq<char>) -> bool {
    ||| contains(full, seq!['@', 'e', 'a', 'D', 'i', 'r'])
    ||| contains(full, seq!['T', 'h', 'u', 'm', 'b', 's', '.', 'd', 'b'])
    ||| contains(full, seq!['.', 'D', 'S', '_', 'S', 't', 'o', 'r', 'e'])
}

/// `/BDMV/`
pub open spec fn bdmv_dir() -> Seq<char> {
    seq!['/', 'B', 'D', 'M', 'V', '/']
}

/// A path the scan skips: a system file, a Blu-ray file other than a stream,
/// or one whose extension is not processed.
pub open spec fn is_filtered(full: Seq<char>, name: Seq<char>, processed: Set<Seq<char>>) -> bool {
    ||| is_system_file(full)
    ||| (contains(full, bdmv_dir()) && !is_bdmv_stream(full, name))
    ||| !processed.contains(suffix_spec(name))
}

/// The view of an optional string.
pub open spec fn opt_view(o: Option<String>) -> Option<Seq<char>> {
    match o {
        Some(s) => Some(s@),
        None => None,
    }
}

/// The content of a `.strm` file: the download link (with the normalised
/// public address in place of `server_url` when one is set), the raw link,
/// or the AList path, as the mode says.
pub open spec fn strm_content_of(cfg: Config, server_url: Seq<char>, path: AlistPath) -> Option<Seq<char>> {
    match cfg.mode {
        Mode::AlistURL => {
            let link = download_url_of(path.server_url@, path.base_path@, path.full_path@, path.sign@);
            Some(
                if present_trimmed(cfg.alist.public_url) {
                    replace_first(link, server_url, normalized_url(cfg.alist.public_url->0@))
                } else {
                    link
                },
            )
        },
        Mode::RawURL => opt_view(path.raw_url),
        Mode::AlistPath => Some(path.full_path@),
    }
}

/// What the scan does with a remote file.
pub enum PathDecision {
    /// Skipped and counted as filtered.
    Filtered,
    /// A Blu-ray stream, kept with the other streams of its disc (the root);
    /// a stream without a root is dropped.
    BdmvCandidate(Option<String>),
    /// A file to write at `local_path`, unless something is there already;
    /// `companion` tells a downloaded companion file from a `.strm` target.
    Candidate { local_path: String, companion: bool },
}

/// What to do with a candidate whose local file may exist.
pub enum ExistingDecision {
    Process,
    /// Skipped: the `.strm` file exists.
    SkipStrm,
    /// Skipped: the companion file exists.
    SkipAttachment,
}

/// An Alist2Strm task.
pub struct Alist2Strm {
    config: Config,
}

impl Alist2Strm {
    /// The task's configuration.
    pub closed spec fn cfg(self) -> Config {
        self.config
    }

    /// A task for `config`; nothing is contacted before a run.
    pub fn new(config: Config) -> (r: Alist2Strm)
        ensures
            r.cfg() == config,
    {
        Alist2Strm { config }
    }

    /// The task's configuration.
    pub fn config(&self) -> (r: &Config)
        ensures
            *r == self.cfg(),
    {
        &self.config
    }

    /// The public address, normalised, when one is set and not blank.
    pub fn public_url(&self) -> (r: Option<String>)
        ensures
            present_trimmed(self.cfg().alist.public_url) ==> opt_view(r) == Some(
                normalized_url(self.cfg().alist.public_url->0@),
            ),
            !present_trimmed(self.cfg().alist.public_url) ==> r is None,
    {
        match &self.config.alist.public_url {
            Some(u) => {
                if is_blank_string(u) {
                    None
                } else {
                    Some(normalize_url(u.as_str()))
                }
            },
            None => None,
        }
    }

    /// Whether local clean-up is enabled.
    pub fn sync_enabled(&self) -> (b: bool)
        ensures
            b == (self.cfg().sync matches Some(s) && s.enabled),
    {
        match &self.config.sync {
            Some(s) => s.enabled,
            None => false,
        }
    }

    /// The deletion protection, when configured and enabled.
    pub fn sync_smart_protection(&self) -> (r: Option<&SmartProtection>)
        ensures
            r matches Some(p) ==> (self.cfg().sync matches Some(s) && s.smart_protection == Some(*p)
                && p.enabled),
            r is None ==> !(self.cfg().sync matches Some(s) && s.smart_protection matches Some(p)
                && p.enabled),
    {
        match &self.config.sync {
            Some(s) => match &s.smart_protection {
                Some(p) => if p.enabled { Some(p) } else { None },
                None => None,
            },
            None => None,
        }
    }

    /// The companion extensions to download.
    pub fn download_exts(&self) -> (r: Vec<String>)
        ensures
            set_of(r@) == companion_exts(self.cfg()),
    {
        let ghost cfg = self.config;
        let mut r: Vec<String> = Vec::new();
        if self.config.flatten_mode {
            assert(set_of(r@) =~= companion_exts(cfg));
            return r;
        }
        let ghost mut acc: Set<Seq<char>> = Set::empty();
        if self.config.download.subtitle {
            append_exts(&mut r, &subtitle_exts());
            proof { acc = acc + subtitle_ext_list().to_set(); }
        }
        assert(set_of(r@) == acc);
        if self.config.download.image {
            append_exts(&mut r, &image_exts());
            proof { acc = acc + image_ext_list().to_set(); }
        }
        assert(set_of(r@) == acc);
        if self.config.download.nfo {
            append_exts(&mut r, &nfo_exts());
            proof { acc = acc + nfo_ext_list().to_set(); }
        }
        assert(set_of(r@) == acc);
        let ghost before = r@;
        let mut i: usize = 0;
        let other = &self.config.download.other_ext;
        while i < other.len()
            invariant
                i <= other@.len(),
                *other == cfg.download.other_ext,
                set_of(r@) == set_of(before) + lowered(other@.take(i as int)),
            decreases other.len() - i,
        {
            let l = string_from(&lower_vec(&chars_of(other[i].as_str())));
            let ghost r_old = r@;
            r.push(l);
            proof { crate::alist2strm::protection::lemma_set_of_push(r_old, l); }
            i += 1;
            assert(lowered(other@.take(i as int)) =~= lowered(other@.take(i - 1)).insert(lower(other@[i - 1]@))) by {
                let cur = other@.take(i as int);
                let prev = other@.take(i - 1);
                assert forall|e: Seq<char>| lowered(cur).contains(e) implies lowered(prev).insert(lower(other@[i - 1]@)).contains(e) by {
                    let j = choose|j: int| 0 <= j < cur.len() && e == lower(#[trigger] cur[j]@);
                    if j < i - 1 {
                        assert(prev[j] == cur[j]);
                    }
                }
                assert forall|e: Seq<char>| lowered(prev).insert(lower(other@[i - 1]@)).contains(e) implies lowered(cur).contains(e) by {
                    if e != lower(other@[i - 1]@) {
                        let j = choose|j: int| 0 <= j < prev.len() && e == lower(#[trigger] prev[j]@);
                        assert(cur[j] == prev[j]);
                    } else {
                        assert(cur[i - 1] == other@[i - 1]);
                    }
                }
            }
            assert(set_of(r@) =~= set_of(before) + lowered(other@.take(i as int)));
        }
        assert(other@.take(other@.len() as int) == other@);
        assert(set_of(r@) =~= companion_exts(cfg));
        r
    }

    /// The extensions processed: videos and companion files.
    pub fn process_exts(&self) -> (r: Vec<String>)
        ensures
            set_of(r@) == processed_exts(self.cfg()),
    {
        let mut r: Vec<String> = Vec::new();
        append_exts(&mut r, &video_exts());
        let d = self.download_exts();
        let ghost r0 = r@;
        let mut i: usize = 0;
        while i < d.len()
            invariant
                i <= d@.len(),
                set_of(r@) == set_of(r0) + set_of(d@.take(i as int)),
            decreases d.len() - i,
        {
            let ghost r_old = r@;
            let x = d[i].clone();
            r.push(x);
            proof {
                crate::alist2strm::protection::lemma_set_of_push(r_old, x);
                crate::alist2strm::protection::lemma_set_of_push(d@.take(i as int), d@[i as int]);
                assert(d@.take(i + 1) == d@.take(i as int).push(d@[i as int]));
            }
            i += 1;
            assert(set_of(r@) =~= set_of(r0) + set_of(d@.take(i as int)));
        }
        assert(d@.take(d@.len() as int) == d@);
        assert(set_of(r@) =~= processed_exts(self.config));
        r
    }

    /// Where a remote path lands locally (a Blu-ray stream as its disc's title).
    pub fn local_path(&self, path: &AlistPath) -> (r: String)
        ensures
            r@ == local_path_of(
                path.name@,
                path.full_path@,
                self.cfg().source_dir@,
                self.cfg().target_dir@,
                self.cfg().flatten_mode,
                if is_bdmv_stream(path.full_path@, path.name@) {
                    bdmv_root_of(path.full_path@)
                } else {
                    None
                },
            ),
    {
        let root = if is_bdmv_file(path) { bdmv_root(path) } else { None };
        let r = match &root {
            Some(x) => path.local_path(self.config.source_dir.as_str(), self.config.target_dir.as_str(), self.config.flatten_mode, Some(x.as_str())),
            None => path.local_path(self.config.source_dir.as_str(), self.config.target_dir.as_str(), self.config.flatten_mode, None),
        };
        r
    }

    /// The content of a `.strm` file: the download link (with the public
    /// address in place of `server_url` when one is set), the raw link, or the
    /// AList path, as the mode says.
    pub fn strm_content(&self, server_url: &str, path: &AlistPath) -> (r: Option<String>)
        ensures
            opt_view(r) == strm_content_of(self.cfg(), server_url@, *path),
    {
        match self.config.mode {
            Mode::AlistURL => {
                let content = path.download_url();
                match self.public_url() {
                    Some(p) => Some(replace_first_exec(content.as_str(), server_url, p.as_str())),
                    None => Some(content),
                }
            },
            Mode::RawURL => path.raw_url.clone(),
            Mode::AlistPath => Some(path.full_path.clone()),
        }
    }

    /// The first decision of the scan on a remote file.
    pub fn classify_path(&self, path: &AlistPath, process_exts: &Vec<String>, download_exts: &Vec<String>) -> (r: PathDecision)
        ensures
            (r is Filtered) == is_filtered(path.full_path@, path.name@, set_of(process_exts@)),
            r matches PathDecision::BdmvCandidate(root) ==> is_bdmv_stream(path.full_path@, path.name@)
                && opt_view(root) == bdmv_root_of(path.full_path@),
            r matches PathDecision::Candidate { local_path, companion } ==> !is_bdmv_stream(path.full_path@, path.name@)
                && local_path@ == local_path_of(path.name@, path.full_path@, self.cfg().source_dir@,
                    self.cfg().target_dir@, self.cfg().flatten_mode, None)
                && companion == set_of(download_exts@).contains(suffix_spec(path.name@)),
            !is_filtered(path.full_path@, path.name@, set_of(process_exts@)) ==> (r is BdmvCandidate
                <==> is_bdmv_stream(path.full_path@, path.name@)),
    {
        let full = chars_of(path.full_path.as_str());
        let m1: Vec<char> = vec!['@', 'e', 'a', 'D', 'i', 'r'];
        let m2: Vec<char> = vec!['T', 'h', 'u', 'm', 'b', 's', '.', 'd', 'b'];
        let m3: Vec<char> = vec!['.', 'D', 'S', '_', 'S', 't', 'o', 'r', 'e'];
        assert(m1@ == seq!['@', 'e', 'a', 'D', 'i', 'r']);
        assert(m2@ == seq!['T', 'h', 'u', 'm', 'b', 's', '.', 'd', 'b']);
        assert(m3@ == seq!['.', 'D', 'S', '_', 'S', 't', 'o', 'r', 'e']);
        if find_exec(&full, &m1).is_some() || find_exec(&full, &m2).is_some() || find_exec(&full, &m3).is_some() {
            return PathDecision::Filtered;
        }
        let bd: Vec<char> = vec!['/', 'B', 'D', 'M', 'V', '/'];
        assert(bd@ == bdmv_dir());
        let stream = is_bdmv_file(path);
        if find_exec(&full, &bd).is_some() && !stream {
            return PathDecision::Filtered;
        }
        let suffix = path.suffix();
        let suffix_chars = chars_of(suffix.as_str());
        if !string_member(process_exts, &suffix_chars) {
            return PathDecision::Filtered;
        }
        if stream {
            return PathDecision::BdmvCandidate(bdmv_root(path));
        }
        let local_path = path.local_path(self.config.source_dir.as_str(), self.config.target_dir.as_str(), self.config.flatten_mode, None);
        let companion = string_member(download_exts, &suffix_chars);
        PathDecision::Candidate { local_path, companion }
    }

    /// The decision on a candidate whose local file was `found` (and, for a
    /// companion, is `stale`): without overwrite, an existing file is skipped
    /// unless it is a stale companion.
    pub fn existing_decision(&self, local_path: &str, found: bool, companion: bool, stale: bool) -> (r: ExistingDecision)
        ensures
            (self.cfg().overwrite || !found || (companion && stale)) ==> r is Process,
            !(self.cfg().overwrite || !found || (companion && stale)) && is_strm(local_path@) ==> r is SkipStrm,
            !(self.cfg().overwrite || !found || (companion && stale)) && !is_strm(local_path@) ==> r is SkipAttachment,
    {
        if !self.config.overwrite && found {
            if companion && stale {
                return ExistingDecision::Process;
            }
            if is_strm_vec(&chars_of(local_path)) {
                ExistingDecision::SkipStrm
            } else {
                ExistingDecision::SkipAttachment
            }
        } else {
            ExistingDecision::Process
        }
    }

    /// The sync ignore rule, compiled, when a pattern is set and not blank.
    pub fn sync_ignore_pattern(&self) -> (r: Result<Option<IgnoreRule>, RunError>)
        ensures
            ({
                let pat = match self.cfg().sync {
                    Some(s) => s.ignore,
                    None => None,
                };
                &&& !present_trimmed(pat) ==> (r matches Ok(None))
                &&& present_trimmed(pat) && regex_compiles(pat->0@) ==> (r matches Ok(Some(rule)) && rule@ == pat->0@)
                &&& present_trimmed(pat) && !regex_compiles(pat->0@) ==> (r matches Err(RunError::Regex(_)))
            }),
    {
        match &self.config.sync {
            Some(s) => match &s.ignore {
                Some(p) => {
                    if is_blank_string(p) {
                        Ok(None)
                    } else {
                        match IgnoreRule::new(p.as_str()) {
                            Ok(rule) => Ok(Some(rule)),
                            Err(e) => Err(e),
                        }
                    }
                },
                None => Ok(None),
            },
            None => Ok(None),
        }
    }
}

/// Whether the view of `e` is one of the strings.
fn string_member(list: &Vec<String>, e: &Vec<char>) -> (b: bool)
    ensures
        b == set_of(list@).contains(e@),
{
    let mut i: usize = 0;
    while i < list.len()
        invariant
            i <= list@.len(),
            forall|j: int| 0 <= j < i ==> list@[j]@ != e@,
        decreases list.len() - i,
    {
        let c = chars_of(list[i].as_str());
        if chars_eq(&c, e) {
            assert(list@.map_values(|s: String| s@)[i as int] == e@);
            return true;
        }
        i += 1;
    }
    let ghost vs = list@.map_values(|s: String| s@);
    assert(!vs.contains(e@)) by {
        if vs.contains(e@) {
            let j = choose|j: int| 0 <= j < vs.len() && #[trigger] vs[j] == e@;
            assert(list@[j]@ == e@);
        }
    }
    false
}

/// Appends the strings of some character vectors.
fn append_exts(r: &mut Vec<String>, exts: &Vec<Vec<char>>)
    ensures
        set_of(final(r)@) == set_of(old(r)@) + views(exts@).to_set(),
{
    let mut i: usize = 0;
    while i < exts.len()
        invariant
            i <= exts@.len(),
            set_of(r@) == set_of(old(r)@) + views(exts@.take(i as int)).to_set(),
        decreases exts.len() - i,
    {
        let s = string_from(&exts[i]);
        let ghost r_old = r@;
        r.push(s);
        proof {
            crate::alist2strm::protection::lemma_set_of_push(r_old, s);
            assert(views(exts@.take(i + 1)) == views(exts@.take(i as int)).push(exts@[i as int]@));
            crate::text::lemma_to_set_push(views(exts@.take(i as int)), exts@[i as int]@);
        }
        i += 1;
        assert(set_of(r@) =~= set_of(old(r)@) + views(exts@.take(i as int)).to_set());
    }
    assert(exts@.take(exts@.len() as int) == exts@);
}

/// `replace_first(s, old, new)`.
pub fn replace_first_exec(s: &str, old: &str, new: &str) -> (r: String)
    ensures
        r@ == replace_first(s@, old@, new@),
{
    let v = chars_of(s);
    let o = chars_of(old);
    match find_exec(&v, &o) {
        Some(i) => {
            proof { lemma_find_from(v@, o@, 0); }
            assert(occurs_at(v@, o@, i as int));
            assert(i + o@.len() <= v@.len());
            let vl = v.len();
            assert(i + o.len() <= vl);
            let mut r = string_from(&slice_vec(&v, 0, i));
            crate::text::push_str(&mut r, new);
            let tail = slice_vec(&v, i + o.len(), v.len());
            push_all(&mut r, &tail);
            assert(tail@ == v@.skip(i + o@.len()));
            assert(v@.subrange(0, i as int) == v@.take(i as int));
            r
        },
        None => string_from(&v),
    }
}

// ---------------------------------------------------------------------------
// Companion files
// ---------------------------------------------------------------------------

/// A local companion file is stale when it is smaller than the remote file,
/// or when its modification time (seconds since the epoch, as `i64`) is not
/// after the remote one.
pub open spec fn is_stale(local_len: u64, local_modified: Option<u64>, remote_size: u64, remote_modified: i64) -> bool {
    ||| local_len < remote_size
    ||| (local_modified matches Some(secs) && (secs as i64) <= remote_modified)
}

/// Whether a local companion file must be downloaded again.
pub fn companion_file_is_stale(local_len: u64, local_modified: Option<u64>, remote_path: &AlistPath) -> (b: bool)
    ensures
        b == is_stale(local_len, local_modified, remote_path.size, remote_path.modified_timestamp),
{
    if local_len < remote_path.size {
        return true;
    }
    match local_modified {
        Some(secs) => (secs as i64) <= remote_path.modified_timestamp,
        None => false,
    }
}

// ---------------------------------------------------------------------------
// Blu-ray discs
// ---------------------------------------------------------------------------

/// The index of the largest size; the last one among equals.
pub open spec fn largest_index(s: Seq<AlistPath>) -> int
    decreases s.len(),
{
    if s.len() <= 1 {
        0
    } else {
        let j = largest_index(s.drop_last());
        if s.last().size >= s[j].size {
            s.len() - 1
        } else {
            j
        }
    }
}

/// The stream selected for a disc is one of its streams, none is larger,
/// and every later one is smaller.
pub proof fn law_selected_stream_is_largest(s: Seq<AlistPath>)
    requires
        s.len() > 0,
    ensures
        0 <= largest_index(s) < s.len(),
        forall|i: int| 0 <= i < s.len() ==> (#[trigger] s[i]).size <= s[largest_index(s)].size,
        forall|i: int| largest_index(s) < i < s.len() ==> (#[trigger] s[i]).size < s[largest_index(s)].size,
    decreases s.len(),
{
    if s.len() > 1 {
        law_selected_stream_is_largest(s.drop_last());
        let j = largest_index(s.drop_last());
        assert forall|i: int| 0 <= i < s.len() - 1 implies s[i].size <= s.drop_last()[j].size by {
            assert(s[i] == s.drop_last()[i]);
        }
        assert forall|i: int| j < i < s.len() - 1 implies s[i].size < s.drop_last()[j].size by {
            assert(s[i] == s.drop_last()[i]);
        }
    }
}

/// The largest stream of a disc: the one of greatest size, the last of equals.
pub open spec fn largest(s: Seq<AlistPath>) -> AlistPath {
    s[largest_index(s)]
}

/// The Blu-ray streams seen so far, grouped by disc root in order of first sight.
pub struct BdmvCollections {
    groups: Vec<(String, Vec<AlistPath>)>,
}

/// The views of the groups.
pub open spec fn group_views(g: Seq<(String, Vec<AlistPath>)>) -> Seq<(Seq<char>, Seq<AlistPath>)> {
    g.map_values(|e: (String, Vec<AlistPath>)| (e.0@, e.1@))
}

/// The streams of `root` appended to its group, or a new group at the end.
pub open spec fn with_stream(g: Seq<(Seq<char>, Seq<AlistPath>)>, root: Seq<char>, p: AlistPath) -> Seq<(Seq<char>, Seq<AlistPath>)> {
    if exists|i: int| 0 <= i < g.len() && g[i].0 == root {
        let i = choose|i: int| 0 <= i < g.len() && g[i].0 == root;
        g.update(i, (root, g[i].1.push(p)))
    } else {
        g.push((root, seq![p]))
    }
}

impl BdmvCollections {
    #[verifier::type_invariant]
    spec fn well_formed(self) -> bool {
        &&& forall|i: int, j: int| 0 <= i < j < self.groups@.len() ==> self.groups@[i].0@ != self.groups@[j].0@
        &&& forall|i: int| 0 <= i < self.groups@.len() ==> self.groups@[i].1@.len() > 0
    }

    /// The groups: each disc root with its streams, in order.
    pub closed spec fn groups(self) -> Seq<(Seq<char>, Seq<AlistPath>)> {
        group_views(self.groups@)
    }

    /// No streams yet.
    pub fn new() -> (r: BdmvCollections)
        ensures
            r.groups().len() == 0,
    {
        BdmvCollections { groups: Vec::new() }
    }

    /// Adds a stream to the group of its root.
    pub fn add(&mut self, root: String, path: AlistPath)
        ensures
            final(self).groups() == with_stream(old(self).groups(), root@, path),
            forall|i: int| 0 <= i < final(self).groups().len() ==> #[trigger] final(self).groups()[i].1.len() > 0,
            forall|i: int, j: int| 0 <= i < j < final(self).groups().len()
                ==> #[trigger] final(self).groups()[i].0 != #[trigger] final(self).groups()[j].0,
    {
        proof { use_type_invariant(&*self); }
        let ghost g = group_views(self.groups@);
        let ghost og = self.groups@;
        let ghost r = root@;
        let mut groups: Vec<(String, Vec<AlistPath>)> = Vec::new();
        std::mem::swap(&mut groups, &mut self.groups);
        assert(groups@ == og);
        let mut i: usize = 0;
        while i < groups.len()
            invariant
                i <= groups@.len(),
                groups@ == og,
                og == old(self).groups@,
                r == root@,
                g == group_views(og),
                forall|a: int, b: int| 0 <= a < b < og.len() ==> og[a].0@ != og[b].0@,
                forall|a: int| 0 <= a < og.len() ==> og[a].1@.len() > 0,
                forall|j: int| 0 <= j < i ==> og[j].0@ != r,
            decreases groups.len() - i,
        {
            let same = crate::alist2strm::runner::string_eq(&groups[i].0, &root);
            if same {
                assert(exists|k: int| 0 <= k < g.len() && g[k].0 == r) by {
                    assert(g[i as int].0 == r);
                }
                let ghost c = choose|k: int| 0 <= k < g.len() && g[k].0 == r;
                assert(c == i) by {
                    if c != i {
                        assert(og[c].0@ == og[i as int].0@);
                    }
                }
                let (key, mut paths) = groups.remove(i);
                paths.push(path);
                groups.insert(i, (key, paths));
                assert(group_views(groups@) =~= with_stream(g, r, path));
                assert forall|a: int, b: int| 0 <= a < b < groups@.len() implies groups@[a].0@ != groups@[b].0@ by {
                    assert(groups@[a].0@ == og[a].0@);
                    assert(groups@[b].0@ == og[b].0@);
                }
                assert forall|a: int| 0 <= a < groups@.len() implies groups@[a].1@.len() > 0 by {
                    if a != i {
                        assert(groups@[a] == og[a]);
                    }
                }
                self.groups = groups;
                return;
            }
            i += 1;
        }
        assert(!exists|k: int| 0 <= k < g.len() && g[k].0 == r) by {
            if exists|k: int| 0 <= k < g.len() && g[k].0 == r {
                let k = choose|k: int| 0 <= k < g.len() && g[k].0 == r;
                assert(og[k].0@ == r);
            }
        }
        let mut v: Vec<AlistPath> = Vec::new();
        v.push(path);
        groups.push((root, v));
        assert(group_views(groups@) =~= with_stream(g, r, path));
        assert forall|a: int, b: int| 0 <= a < b < groups@.len() implies groups@[a].0@ != groups@[b].0@ by {
            assert(groups@[a] == og[a]);
            if b < og.len() {
                assert(groups@[b] == og[b]);
            }
        }
        assert forall|a: int| 0 <= a < groups@.len() implies groups@[a].1@.len() > 0 by {
            if a < og.len() {
                assert(groups@[a] == og[a]);
            }
        }
        self.groups = groups;
    }

    /// The number of discs.
    pub fn len(&self) -> (n: usize)
        ensures
            n == self.groups().len(),
            forall|i: int| 0 <= i < self.groups().len() ==> #[trigger] self.groups()[i].1.len() > 0,
            forall|i: int, j: int| 0 <= i < j < self.groups().len()
                ==> #[trigger] self.groups()[i].0 != #[trigger] self.groups()[j].0,
    {
        proof { use_type_invariant(self); }
        self.groups.len()
    }

    /// The largest stream of each disc, in the order of the groups.
    pub fn finalize(self) -> (r: Vec<AlistPath>)
        ensures
            r@ == self.groups().map_values(|e: (Seq<char>, Seq<AlistPath>)| largest(e.1)),
    {
        proof { use_type_invariant(&self); }
        let ghost g = group_views(self.groups@);
        let mut groups = self.groups;
        let mut r: Vec<AlistPath> = Vec::new();
        let ghost mut done: int = 0;
        while groups.len() > 0
            invariant
                0 <= done <= g.len(),
                group_views(groups@) == g.skip(done),
                forall|i: int| 0 <= i < groups@.len() ==> groups@[i].1@.len() > 0,
                r@ == g.take(done).map_values(|e: (Seq<char>, Seq<AlistPath>)| largest(e.1)),
            decreases groups.len(),
        {
            let ghost before = groups@;
            let (_root, mut paths) = groups.remove(0);
            assert(paths@.len() > 0) by {
                assert(before[0].1@.len() > 0);
            }
            assert forall|i: int| 0 <= i < groups@.len() implies groups@[i].1@.len() > 0 by {
                assert(groups@[i] == before[i + 1]);
            }
            let ghost ps = paths@;
            assert(ps == g[done].1) by {
                assert(group_views(groups@) =~= g.skip(done + 1)) by {
                    assert(g.skip(done + 1) =~= g.skip(done).drop_first());
                }
                assert(g.skip(done)[0] == g[done]);
            }
            let idx = largest_of(&paths);
            proof { law_selected_stream_is_largest(paths@); }
            let p = paths.remove(idx);
            r.push(p);
            proof {
                assert(g.skip(done + 1) =~= g.skip(done).drop_first());
                assert(g.take(done + 1) == g.take(done).push(g[done]));
                done = done + 1;
            }
            assert(r@ =~= g.take(done).map_values(|e: (Seq<char>, Seq<AlistPath>)| largest(e.1)));
        }
        assert(g.take(done) == g);
        r
    }
}

/// Whether two strings are equal.
pub fn string_eq(a: &String, b: &String) -> (r: bool)
    ensures
        r == (a@ == b@),
{
    chars_eq(&chars_of(a.as_str()), &chars_of(b.as_str()))
}

/// `largest_index` of the paths.
fn largest_of(paths: &Vec<AlistPath>) -> (k: usize)
    requires
        paths@.len() > 0,
    ensures
        k == largest_index(paths@),
{
    let mut best: usize = 0;
    let mut i: usize = 1;
    assert(paths@.take(1).len() == 1);
    while i < paths.len()
        invariant
            1 <= i <= paths@.len(),
            best == largest_index(paths@.take(i as int)),
            best < i,
        decreases paths.len() - i,
    {
        proof { law_selected_stream_is_largest(paths@.take(i as int)); }
        assert(paths@.take(i + 1).drop_last() == paths@.take(i as int));
        assert(paths@.take(i as int)[best as int] == paths@[best as int]);
        if paths[i].size >= paths[best].size {
            best = i;
        }
        i += 1;
    }
    assert(paths@.take(paths@.len() as int) == paths@);
    best
}

// ---------------------------------------------------------------------------
// Local clean-up
// ---------------------------------------------------------------------------

/// The views of a list of strings are pairwise distinct.
pub open spec fn distinct_views(v: Seq<String>) -> bool {
    v.map_values(|s: String| s@).no_duplicates()
}

/// The local files that the scan did not produce, in the order of `all`,
/// each path once: a file goes when no produced file and no file already
/// kept is the same path, however either is spelt.
pub open spec fn stale_paths(all: Seq<Seq<char>>, processed: Set<Seq<char>>) -> Seq<Seq<char>>
    decreases all.len(),
{
    if all.len() == 0 {
        Seq::empty()
    } else {
        let prev = stale_paths(all.drop_last(), processed);
        let x = all.last();
        if holds_path(processed, x) || holds_path(prev.to_set(), x) {
            prev
        } else {
            prev.push(x)
        }
    }
}

/// Each stale path is a local file that no produced file is, and no two
/// stale paths are the same path.
pub proof fn lemma_stale_paths(all: Seq<Seq<char>>, processed: Set<Seq<char>>)
    ensures
        forall|a: int| 0 <= a < stale_paths(all, processed).len() ==> all.contains(#[trigger] stale_paths(all, processed)[a])
            && !holds_path(processed, stale_paths(all, processed)[a]),
        forall|a: int, b: int| 0 <= a < b < stale_paths(all, processed).len()
            ==> !same_path(#[trigger] stale_paths(all, processed)[a], #[trigger] stale_paths(all, processed)[b]),
    decreases all.len(),
{
    if all.len() > 0 {
        let prev = stale_paths(all.drop_last(), processed);
        lemma_stale_paths(all.drop_last(), processed);
        let x = all.last();
        assert forall|a: int| 0 <= a < prev.len() implies all.contains(#[trigger] prev[a]) by {
            let c = choose|c: int| 0 <= c < all.drop_last().len() && all.drop_last()[c] == prev[a];
            assert(all[c] == prev[a]);
        }
        if !(holds_path(processed, x) || holds_path(prev.to_set(), x)) {
            let r = prev.push(x);
            assert(all[all.len() - 1] == x);
            assert forall|a: int, b: int| 0 <= a < b < r.len() implies !same_path(#[trigger] r[a], #[trigger] r[b]) by {
                if b == r.len() - 1 {
                    assert(prev.to_set().contains(prev[a]));
                }
            }
        }
    }
}

/// The local files that the scan did not produce (see `stale_paths`).
pub fn stale_local_files(all_local: &Vec<String>, processed: &Vec<String>) -> (r: Vec<String>)
    ensures
        r@.map_values(|s: String| s@) == stale_paths(all_local@.map_values(|s: String| s@), set_of(processed@)),
        distinct_views(r@),
{
    let ghost all = all_local@.map_values(|s: String| s@);
    let ghost done = set_of(processed@);
    let processed_chars = crate::alist2strm::protection::chars_list(processed);
    let mut kept: Vec<Vec<char>> = Vec::new();
    let mut r: Vec<String> = Vec::new();
    let mut i: usize = 0;
    while i < all_local.len()
        invariant
            i <= all_local@.len(),
            all == all_local@.map_values(|s: String| s@),
            done == set_of(processed@),
            views(processed_chars@) == processed@.map_values(|s: String| s@),
            views(kept@) == r@.map_values(|s: String| s@),
            r@.map_values(|s: String| s@) == stale_paths(all.take(i as int), done),
        decreases all_local.len() - i,
    {
        let c = chars_of(all_local[i].as_str());
        let ghost x = all[i as int];
        let ghost prev = stale_paths(all.take(i as int), done);
        assert(all.take(i + 1).drop_last() == all.take(i as int));
        assert(all.take(i + 1).last() == x);
        let in_processed = path_member(&processed_chars, &c);
        let in_kept = path_member(&kept, &c);
        proof {
            if in_processed {
                let k = choose|k: int| 0 <= k < processed_chars@.len() && same_path(#[trigger] processed_chars@[k]@, c@);
                assert(views(processed_chars@)[k] == processed_chars@[k]@);
                assert(processed@.map_values(|s: String| s@)[k] == processed_chars@[k]@);
                assert(done.contains(processed_chars@[k]@));
            } else if holds_path(done, x) {
                let q = choose|q: Seq<char>| done.contains(q) && same_path(q, x);
                let pv = views(processed_chars@);
                let k = choose|k: int| 0 <= k < pv.len() && #[trigger] pv[k] == q;
                assert(views(processed_chars@)[k] == processed_chars@[k]@);
                assert(same_path(processed_chars@[k]@, c@));
            }
            if in_kept {
                let k = choose|k: int| 0 <= k < kept@.len() && same_path(#[trigger] kept@[k]@, c@);
                assert(views(kept@)[k] == kept@[k]@);
                assert(prev[k] == kept@[k]@);
                assert(prev.to_set().contains(prev[k]));
            } else if holds_path(prev.to_set(), x) {
                let q = choose|q: Seq<char>| prev.to_set().contains(q) && same_path(q, x);
                let k = choose|k: int| 0 <= k < prev.len() && prev[k] == q;
                assert(views(kept@)[k] == kept@[k]@);
                assert(same_path(kept@[k]@, c@));
            }
        }
        if !in_processed && !in_kept {
            let s = all_local[i].clone();
            proof {
                let f = |s: String| s@;
                assert(r@.push(s).map_values(f) =~= r@.map_values(f).push(s@));
                assert(views(kept@.push(c)) =~= views(kept@).push(c@));
            }
            r.push(s);
            kept.push(c);
        }
        i += 1;
    }
    assert(all.take(all_local@.len() as int) == all);
    proof {
        lemma_stale_paths(all, done);
        let f = |s: String| s@;
        assert forall|a: int, b: int| 0 <= a < r@.len() && 0 <= b < r@.len() && a != b implies r@.map_values(f)[a] != r@.map_values(f)[b] by {
            let st = stale_paths(all, done);
            if a < b {
                assert(!same_path(st[a], st[b]));
            } else {
                assert(!same_path(st[b], st[a]));
            }
        }
    }
    r
}

proof fn lemma_to_set_push_views(r: Seq<String>, x: String)
    ensures
        set_of(r.push(x)) == set_of(r).insert(x@),
{
    crate::alist2strm::protection::lemma_set_of_push(r, x);
}

/// The `.strm` files among `files`, and the others, each in the order of `files`.
pub fn split_strm(files: &Vec<String>) -> (r: (Vec<String>, Vec<String>))
    ensures
        r.0@.map_values(|s: String| s@) == files@.map_values(|s: String| s@).filter(|p: Seq<char>| is_strm(p)),
        r.1@.map_values(|s: String| s@) == files@.map_values(|s: String| s@).filter(|p: Seq<char>| !is_strm(p)),
        set_of(r.0@) == set_of(files@).filter(|p: Seq<char>| is_strm(p)),
        set_of(r.1@) == set_of(files@).filter(|p: Seq<char>| !is_strm(p)),
        distinct_views(files@) ==> distinct_views(r.0@),
        r.0@.len() <= files@.len(),
{
    let mut strm: Vec<String> = Vec::new();
    let mut other: Vec<String> = Vec::new();
    let mut i: usize = 0;
    while i < files.len()
        invariant
            i <= files@.len(),
            set_of(strm@) == set_of(files@.take(i as int)).filter(|p: Seq<char>| is_strm(p)),
            set_of(other@) == set_of(files@.take(i as int)).filter(|p: Seq<char>| !is_strm(p)),
            strm@.map_values(|s: String| s@) == files@.take(i as int).map_values(|s: String| s@).filter(|p: Seq<char>| is_strm(p)),
            other@.map_values(|s: String| s@) == files@.take(i as int).map_values(|s: String| s@).filter(|p: Seq<char>| !is_strm(p)),
            strm@.len() <= i,
            distinct_views(files@) ==> (distinct_views(strm@) && forall|a: int| 0 <= a < strm@.len()
                ==> exists|b: int| 0 <= b < i && #[trigger] strm@[a]@ == files@[b]@),
        decreases files.len() - i,
    {
        let s = files[i].clone();
        let ghost x = files@[i as int];
        proof {
            lemma_to_set_push_views(files@.take(i as int), x);
            assert(files@.take(i + 1) == files@.take(i as int).push(x));
            let f = |s: String| s@;
            let vs = files@.take(i + 1).map_values(f);
            assert(vs.drop_last() =~= files@.take(i as int).map_values(f));
            assert(vs.last() == x@);
            reveal(Seq::filter);
            assert(vs.filter(|p: Seq<char>| is_strm(p)) == if is_strm(x@) {
                files@.take(i as int).map_values(f).filter(|p: Seq<char>| is_strm(p)).push(x@)
            } else {
                files@.take(i as int).map_values(f).filter(|p: Seq<char>| is_strm(p))
            });
            assert(vs.filter(|p: Seq<char>| !is_strm(p)) == if !is_strm(x@) {
                files@.take(i as int).map_values(f).filter(|p: Seq<char>| !is_strm(p)).push(x@)
            } else {
                files@.take(i as int).map_values(f).filter(|p: Seq<char>| !is_strm(p))
            });
        }
        if is_strm_vec(&chars_of(s.as_str())) {
            let ghost old_s = strm@;
            strm.push(s);
            proof {
                lemma_to_set_push_views(old_s, s);
                let f = |s: String| s@;
                assert(strm@.map_values(f) =~= old_s.map_values(f).push(s@));
                if distinct_views(files@) {
                    assert forall|a: int, b: int| 0 <= a < strm@.len() && 0 <= b < strm@.len() && a != b implies strm@.map_values(f)[a] != strm@.map_values(f)[b] by {
                        if b == strm@.len() - 1 {
                            let c = choose|c: int| 0 <= c < i && #[trigger] old_s[a]@ == files@[c]@;
                            assert(files@.map_values(f)[c] != files@.map_values(f)[i as int]);
                        } else if a == strm@.len() - 1 {
                            let c = choose|c: int| 0 <= c < i && #[trigger] old_s[b]@ == files@[c]@;
                            assert(files@.map_values(f)[c] != files@.map_values(f)[i as int]);
                        } else {
                            assert(old_s.map_values(f)[a] != old_s.map_values(f)[b]);
                        }
                    }
                    assert forall|a: int| 0 <= a < strm@.len() implies exists|b: int| 0 <= b < i + 1 && #[trigger] strm@[a]@ == files@[b]@ by {
                        if a == strm@.len() - 1 {
                            assert(strm@[a]@ == files@[i as int]@);
                        } else {
                            let c = choose|c: int| 0 <= c < i && #[trigger] old_s[a]@ == files@[c]@;
                            assert(strm@[a]@ == files@[c]@);
                        }
                    }
                }
            }
            assert(set_of(strm@) =~= set_of(files@.take(i + 1)).filter(|p: Seq<char>| is_strm(p)));
            assert(set_of(other@) =~= set_of(files@.take(i + 1)).filter(|p: Seq<char>| !is_strm(p)));
        } else {
            let ghost old_o = other@;
            other.push(s);
            proof {
                lemma_to_set_push_views(old_o, s);
                assert(other@.map_values(|s: String| s@) =~= old_o.map_values(|s: String| s@).push(s@));
            }
            assert(set_of(strm@) =~= set_of(files@.take(i + 1)).filter(|p: Seq<char>| is_strm(p)));
            assert(set_of(other@) =~= set_of(files@.take(i + 1)).filter(|p: Seq<char>| !is_strm(p)));
        }
        i += 1;
    }
    assert(files@.take(files@.len() as int) == files@);
    (strm, other)
}

/// The files to delete under deletion protection: all stale files that are
/// not `.strm` files, and the `.strm` files that the protection releases
/// (counting as present the `.strm` files the scan produced).
pub fn protected_deletions(manager: &mut ProtectionManager, stale: &Vec<String>, processed: &Vec<String>) -> (r: Vec<String>)
    requires
        distinct_views(stale@),
        forall|k: Seq<char>| old(manager).counters().contains_key(k) ==> old(manager).counters()[k] + stale@.len() <= usize::MAX,
    ensures
        exists|strm: Seq<String>| {
            &&& set_of(strm) == set_of(stale@).filter(|p: Seq<char>| is_strm(p))
            &&& distinct_views(strm)
            &&& final(manager).counters() == crate::alist2strm::protection::after_scan(
                old(manager).counters(), old(manager).target(), old(manager).limit(), old(manager).grace(),
                strm.map_values(|s: String| s@), set_of(processed@).filter(|p: Seq<char>| is_strm(p)))
            &&& set_of(r@) == set_of(stale@).filter(|p: Seq<char>| !is_strm(p)) + crate::alist2strm::protection::ready_after_scan(
                old(manager).counters(), old(manager).target(), old(manager).limit(), old(manager).grace(),
                strm.map_values(|s: String| s@), set_of(processed@).filter(|p: Seq<char>| is_strm(p)))
        },
        final(manager).target() == old(manager).target(),
        final(manager).state_path() == old(manager).state_path(),
        final(manager).limit() == old(manager).limit(),
        final(manager).grace() == old(manager).grace(),
{
    let (strm, mut other) = split_strm(stale);
    let (present, _) = split_strm(processed);
    let ghost strm_v = strm@;
    let ready = manager.process(strm, &present);
    let ghost o = other@;
    let mut i: usize = 0;
    while i < ready.len()
        invariant
            i <= ready@.len(),
            set_of(other@) == set_of(o) + set_of(ready@.take(i as int)),
        decreases ready.len() - i,
    {
        let ghost old_o = other@;
        let x = ready[i].clone();
        other.push(x);
        proof {
            lemma_to_set_push_views(old_o, x);
            lemma_to_set_push_views(ready@.take(i as int), ready@[i as int]);
            assert(ready@.take(i + 1) == ready@.take(i as int).push(ready@[i as int]));
        }
        i += 1;
        assert(set_of(other@) =~= set_of(o) + set_of(ready@.take(i as int)));
    }
    assert(ready@.take(ready@.len() as int) == ready@);
    other
}

/// The file name of a path, empty without one.
pub open spec fn name_or_empty(p: Seq<char>) -> Seq<char> {
    match file_name(p) {
        Some(n) => n,
        None => Seq::empty(),
    }
}

/// Whether the ignore rule (if any) keeps the file at `p`.
pub open spec fn is_ignored(rule: Option<Seq<char>>, p: Seq<char>) -> bool {
    rule matches Some(pat) && regex_is_match(pat, name_or_empty(p))
}

/// The pattern of an optional rule.
pub open spec fn rule_view(rule: Option<IgnoreRule>) -> Option<Seq<char>> {
    match rule {
        Some(x) => Some(x@),
        None => None,
    }
}

/// Not kept by the rule, as a predicate.
pub open spec fn not_ignored_by(rule: Option<Seq<char>>) -> spec_fn(Seq<char>) -> bool {
    |p: Seq<char>| !is_ignored(rule, p)
}

/// Kept by the rule, as a predicate.
pub open spec fn ignored_by(rule: Option<Seq<char>>) -> spec_fn(Seq<char>) -> bool {
    |p: Seq<char>| is_ignored(rule, p)
}

/// The files to delete and the files the ignore rule keeps, in order.
pub fn split_ignored(files: &Vec<String>, rule: &Option<IgnoreRule>) -> (r: (Vec<String>, Vec<String>))
    ensures
        r.0@.map_values(|s: String| s@) == files@.map_values(|s: String| s@).filter(not_ignored_by(rule_view(*rule))),
        r.1@.map_values(|s: String| s@) == files@.map_values(|s: String| s@).filter(ignored_by(rule_view(*rule))),
{
    let ghost rv = rule_view(*rule);
    let ghost keep = not_ignored_by(rv);
    let ghost ign = ignored_by(rv);
    let ghost fv = files@.map_values(|s: String| s@);
    let mut delete: Vec<String> = Vec::new();
    let mut ignored: Vec<String> = Vec::new();
    let mut i: usize = 0;
    while i < files.len()
        invariant
            i <= files@.len(),
            fv == files@.map_values(|s: String| s@),
            rv == rule_view(*rule),
            keep == not_ignored_by(rv),
            ign == ignored_by(rv),
            delete@.map_values(|s: String| s@) == fv.take(i as int).filter(keep),
            ignored@.map_values(|s: String| s@) == fv.take(i as int).filter(ign),
        decreases files.len() - i,
    {
        let f = files[i].clone();
        let hit = match rule {
            Some(x) => x.ignores(f.as_str()),
            None => false,
        };
        assert(hit == is_ignored(rv, f@));
        proof {
            reveal_with_fuel(Seq::filter, 1);
            assert(fv.take(i + 1).drop_last() == fv.take(i as int));
            assert(fv.take(i + 1).last() == f@);
        }
        if hit {
            let ghost old_i = ignored@;
            ignored.push(f);
            assert(ignored@.map_values(|s: String| s@) =~= old_i.map_values(|s: String| s@).push(f@));
        } else {
            let ghost old_d = delete@;
            delete.push(f);
            assert(delete@.map_values(|s: String| s@) =~= old_d.map_values(|s: String| s@).push(f@));
        }
        i += 1;
    }
    assert(fv.take(fv.len() as int) == fv);
    (delete, ignored)
}

/// In flat mode no companion file is downloaded, whatever the options.
pub proof fn law_flat_mode_downloads_no_companions(config: Config)
    requires
        config.flatten_mode,
    ensures
        companion_exts(config) == Set::<Seq<char>>::empty(),
        processed_exts(config) == video_ext_list().to_set(),
{
    assert(processed_exts(config) =~= video_ext_list().to_set());
}

/// Clean-up spares what the scan produced: no stale file is the same path
/// as a produced file, however either is spelt, and under deletion
/// protection a produced `.strm` file is never released either (each stale
/// `.strm` file being the local path of its own counter key).
pub proof fn law_cleanup_spares_produced_files(
    all_local: Seq<Seq<char>>,
    produced: Set<Seq<char>>,
    m: Map<Seq<char>, nat>,
    target: Seq<char>,
    threshold: nat,
    grace: nat,
    stale_strm: Seq<Seq<char>>,
    p: Seq<char>,
)
    requires
        produced.contains(p),
        stale_strm.to_set() == stale_paths(all_local, produced).to_set().filter(|q: Seq<char>| is_strm(q)),
        forall|i: int| 0 <= i < stale_strm.len() ==> crate::fspath::path_join(target,
            crate::alist2strm::protection::relative_key(#[trigger] stale_strm[i], target)) == stale_strm[i],
    ensures
        !holds_path(stale_paths(all_local, produced).to_set(), p),
        is_strm(p) ==> !(stale_paths(all_local, produced).to_set().filter(|q: Seq<char>| !is_strm(q))
            + crate::alist2strm::protection::ready_after_scan(m, target, threshold, grace, stale_strm,
                produced.filter(|q: Seq<char>| is_strm(q)))).contains(p),
{
    let st = stale_paths(all_local, produced);
    lemma_stale_paths(all_local, produced);
    if holds_path(st.to_set(), p) {
        let q = choose|q: Seq<char>| st.to_set().contains(q) && same_path(q, p);
        let a = choose|a: int| 0 <= a < st.len() && st[a] == q;
        assert(!holds_path(produced, st[a]));
        assert(same_path(p, st[a]));
    }
    assert(!st.to_set().contains(p)) by {
        if st.to_set().contains(p) {
            assert(same_path(p, p));
        }
    }
    if is_strm(p) {
        let present = produced.filter(|q: Seq<char>| is_strm(q));
        assert forall|i: int| 0 <= i < stale_strm.len() implies !present.contains(#[trigger] stale_strm[i]) by {
            assert(stale_strm.to_set().contains(stale_strm[i]));
            let a = choose|a: int| 0 <= a < st.len() && st[a] == stale_strm[i];
            assert(!holds_path(produced, st[a]));
            assert(same_path(st[a], st[a]));
        }
        crate::alist2strm::protection::law_present_files_are_never_released(m, target, threshold, grace, stale_strm, present, p);
    }
}

/// In AList-link mode the `.strm` file holds the AList download link of the
/// file (what `AlistPath::download_url` gives): the link itself without a
/// public address, so that it starts with the server's address and `/d`; with
/// a public address, for a file listed from the same server (given without a
/// trailing `/`), the link starts with the normalised public address and `/d`.
pub proof fn law_alist_link_content(cfg: Config, server_url: Seq<char>, path: AlistPath)
    requires
        cfg.mode is AlistURL,
    ensures
        !present_trimmed(cfg.alist.public_url) ==> strm_content_of(cfg, server_url, path)
            == Some(download_url_of(path.server_url@, path.base_path@, path.full_path@, path.sign@)),
        !present_trimmed(cfg.alist.public_url) ==> (strm_content_of(cfg, server_url, path) matches Some(c)
            && starts_with(c, trim_end_by(path.server_url@, '/') + seq!['/', 'd'])),
        present_trimmed(cfg.alist.public_url) && path.server_url@ == server_url
            && (server_url.len() == 0 || server_url.last() != '/')
            ==> (strm_content_of(cfg, server_url, path) matches Some(c)
                && starts_with(c, normalized_url(cfg.alist.public_url->0@) + seq!['/', 'd'])),
{
    let link = download_url_of(path.server_url@, path.base_path@, path.full_path@, path.sign@);
    let head = trim_end_by(path.server_url@, '/') + seq!['/', 'd'];
    let abs = trim_end_by(path.base_path@, '/') + crate::alist2strm::path::with_leading_slash(path.full_path@);
    let url = head + crate::alist2strm::path::encoded_path(abs);
    assert(trim_end_by(path.server_url@, '/') + seq!['/', 'd'] + crate::alist2strm::path::encoded_path(abs) == url);
    assert(link.take(head.len() as int) == head) by {
        if path.sign@.len() == 0 {
            assert(link == url);
        } else {
            assert(link == url + crate::alist2strm::path::sign_query() + crate::alist2strm::path::url_encoded(path.sign@));
        }
        assert(url.take(head.len() as int) =~= head);
    }
    assert(link.subrange(0, head.len() as int) == head);
    if present_trimmed(cfg.alist.public_url) && path.server_url@ == server_url
        && (server_url.len() == 0 || server_url.last() != '/') {
        let new = normalized_url(cfg.alist.public_url->0@);
        assert(trim_end_by(server_url, '/') == server_url);
        assert(link.subrange(0, server_url.len() as int) =~= server_url);
        assert(occurs_at(link, server_url, 0));
        assert(find(link, server_url) == Some(0int));
        let c = replace_first(link, server_url, new);
        assert(c == new + link.skip(server_url.len() as int));
        assert(c.subrange(0, new.len() + 2int) =~= new + seq!['/', 'd']);
    }
}

/// `.ass`
pub open spec fn ext_ass() -> Seq<char> {
    seq!['.', 'a', 's', 's']
}

/// `.srt`
pub open spec fn ext_srt() -> Seq<char> {
    seq!['.', 's', 'r', 't']
}

/// `.png`
pub open spec fn ext_png() -> Seq<char> {
    seq!['.', 'p', 'n', 'g']
}

/// `.jpg`
pub open spec fn ext_jpg() -> Seq<char> {
    seq!['.', 'j', 'p', 'g']
}

/// `.nfo`
pub open spec fn ext_nfo() -> Seq<char> {
    seq!['.', 'n', 'f', 'o']
}

/// Outside flat mode each download option adds its extensions on its own,
/// whatever the others say: images (`.png`, `.jpg`) are downloaded exactly
/// when images are enabled or listed as extra extensions, and likewise for
/// subtitles (`.ass`, `.srt`) and `.nfo` files; every extra extension is
/// downloaded, in lower case. In flat mode nothing is.
pub proof fn law_download_options_are_independent(config: Config)
    ensures
        !config.flatten_mode ==> (companion_exts(config).contains(ext_png())
            <==> config.download.image || lowered(config.download.other_ext@).contains(ext_png())),
        !config.flatten_mode ==> (companion_exts(config).contains(ext_jpg())
            <==> config.download.image || lowered(config.download.other_ext@).contains(ext_jpg())),
        !config.flatten_mode ==> (companion_exts(config).contains(ext_ass())
            <==> config.download.subtitle || lowered(config.download.other_ext@).contains(ext_ass())),
        !config.flatten_mode ==> (companion_exts(config).contains(ext_srt())
            <==> config.download.subtitle || lowered(config.download.other_ext@).contains(ext_srt())),
        !config.flatten_mode ==> (companion_exts(config).contains(ext_nfo())
            <==> config.download.nfo || lowered(config.download.other_ext@).contains(ext_nfo())),
        !config.flatten_mode ==> forall|i: int| 0 <= i < config.download.other_ext@.len()
            ==> companion_exts(config).contains(lower(#[trigger] config.download.other_ext@[i]@)),
        config.flatten_mode ==> companion_exts(config).is_empty(),
{
    let sub = subtitle_ext_list();
    let img = image_ext_list();
    let nfo = nfo_ext_list();
    assert(sub[0] == ext_ass() && sub[1] == ext_srt());
    assert(img[0] == ext_png() && img[1] == ext_jpg());
    assert(nfo[0] == ext_nfo());
    assert(sub.to_set().contains(ext_ass()) && sub.to_set().contains(ext_srt()));
    assert(img.to_set().contains(ext_png()) && img.to_set().contains(ext_jpg()));
    assert(nfo.to_set().contains(ext_nfo()));
    assert forall|e: Seq<char>| #![trigger sub.to_set().contains(e)] sub.to_set().contains(e) implies e[1] == 'a' || e[1] == 's' by {
        let k = choose|k: int| 0 <= k < sub.len() && sub[k] == e;
    }
    assert forall|e: Seq<char>| #![trigger img.to_set().contains(e)] img.to_set().contains(e) implies e[1] == 'p' || e[1] == 'j' by {
        let k = choose|k: int| 0 <= k < img.len() && img[k] == e;
    }
    assert forall|e: Seq<char>| #![trigger nfo.to_set().contains(e)] nfo.to_set().contains(e) implies e[1] == 'n' by {
        let k = choose|k: int| 0 <= k < nfo.len() && nfo[k] == e;
    }
    assert(ext_srt()[1] == 's' && ext_ass()[1] == 'a' && ext_png()[1] == 'p' && ext_jpg()[1] == 'j' && ext_nfo()[1] == 'n');
    assert forall|i: int| 0 <= i < config.download.other_ext@.len()
        implies lowered(config.download.other_ext@).contains(lower(#[trigger] config.download.other_ext@[i]@)) by {}
}

/// Whether clean-up keeps a file depends on its file name alone: two paths
/// with the same file name (or both without one) are kept or deleted alike.
pub proof fn law_ignore_depends_on_file_name_only(rule: Option<Seq<char>>, p: Seq<char>, q: Seq<char>)
    requires
        file_name(p) == file_name(q),
    ensures
        is_ignored(rule, p) == is_ignored(rule, q),
{
}

/// The ignore rule as clean-up applies it to a path agrees with
/// `IgnoreRule::ignores`: a file is kept exactly when the rule matches its
/// file name, and a file whose path is just a plain name is kept as its name.
pub proof fn law_ignore_matches_the_file_name(pat: Seq<char>, dir: Seq<char>, name: Seq<char>)
    requires
        name.len() > 0,
        forall|i: int| 0 <= i < name.len() ==> name[i] != '/',
        name != seq!['.'],
        name != seq!['.', '.'],
    ensures
        is_ignored(Some(pat), crate::fspath::path_join(dir, name)) == regex_is_match(pat, name),
        is_ignored(Some(pat), crate::fspath::path_join(dir, name)) == is_ignored(Some(pat), name),
{
    crate::fspath::law_join_name_is_file_name(dir, name);
    crate::fspath::law_join_name_is_file_name(Seq::empty(), name);
    assert(crate::fspath::path_join(Seq::empty(), name) == name) by {
        assert(Seq::<char>::empty() + name == name);
    }
}

} // verus!
