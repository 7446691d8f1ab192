//! Local file-system paths, modelled as strings with the Unix semantics of
//! `std::path`: joining, file names, extensions and prefix stripping. As in
//! `std::path`, separators repeat freely and `.` components are ignored,
//! except for a `.` that starts a relative path.
use vstd::prelude::*;
use crate::text::{concat_vec, rfind_char, rfind_char_exec, slice_vec, lemma_rfind_char};

verus! {

/// `base.join(p)`: an absolute `p` replaces `base`; otherwise `p` is appended,
/// with a `/` in between unless `base` is empty or already ends in `/`.
pub open spec fn path_join(base: Seq<char>, p: Seq<char>) -> Seq<char> {
    if p.len() > 0 && p[0] == '/' {
        p
    } else if base.len() == 0 || base.last() == '/' {
        base + p
    } else {
        base + seq!['/'] + p
    }
}

/// `p` without what `std::path` ignores at its end: trailing separators and
/// trailing `.` components. A path of one character stays as it is, so a lone
/// `/` or `.` is kept.
pub open spec fn trimmed(p: Seq<char>) -> Seq<char>
    decreases p.len(),
{
    if p.len() > 1 && (p.last() == '/' || (p.last() == '.' && p[p.len() - 2] == '/')) {
        trimmed(p.drop_last())
    } else {
        p
    }
}

/// Where the last component of `p` starts in `trimmed(p)`.
pub open spec fn name_start(p: Seq<char>) -> int {
    rfind_char(trimmed(p), '/') + 1
}

/// The last component of `p` (possibly empty, `.` or `..`).
pub open spec fn last_component(p: Seq<char>) -> Seq<char> {
    trimmed(p).skip(name_start(p))
}

/// `p` has a file name: its last component is a normal one.
pub open spec fn has_file_name(p: Seq<char>) -> bool {
    let n = last_component(p);
    n.len() > 0 && n != seq!['.'] && n != seq!['.', '.']
}

/// `p.file_name()`.
pub open spec fn file_name(p: Seq<char>) -> Option<Seq<char>> {
    if has_file_name(p) {
        Some(last_component(p))
    } else {
        None
    }
}

/// Where the stem of the file name `n` ends: at its last `.`, unless that
/// dot is the first character or there is none.
pub open spec fn stem_end(n: Seq<char>) -> int {
    if rfind_char(n, '.') > 0 {
        rfind_char(n, '.')
    } else {
        n.len() as int
    }
}

/// `p.extension()`.
pub open spec fn extension(p: Seq<char>) -> Option<Seq<char>> {
    let n = last_component(p);
    if has_file_name(p) && rfind_char(n, '.') > 0 {
        Some(n.skip(rfind_char(n, '.') + 1))
    } else {
        None
    }
}

/// The extension `strm`.
pub open spec fn strm() -> Seq<char> {
    seq!['s', 't', 'r', 'm']
}

/// `p.extension() == Some("strm")`.
pub open spec fn is_strm(p: Seq<char>) -> bool {
    extension(p) == Some(strm())
}

/// `p` after `p.set_extension("strm")`.
pub open spec fn with_strm_extension(p: Seq<char>) -> Seq<char> {
    let n = last_component(p);
    if has_file_name(p) {
        trimmed(p).take(name_start(p)) + n.take(stem_end(n)) + seq!['.'] + strm()
    } else {
        p
    }
}

/// `p` starts at the root.
pub open spec fn has_root(p: Seq<char>) -> bool {
    p.len() > 0 && p[0] == '/'
}

/// `p` is relative and starts with a `.` component.
pub open spec fn has_cur_dir(p: Seq<char>) -> bool {
    !has_root(p) && p.len() > 0 && p[0] == '.' && (p.len() == 1 || p[1] == '/')
}

/// Where the components after the root or the leading `.` start.
pub open spec fn body_start(p: Seq<char>) -> int {
    if has_root(p) || has_cur_dir(p) {
        1
    } else {
        0
    }
}

/// At `i` stands a separator or a `.` component.
pub open spec fn ignored_at(p: Seq<char>, i: int) -> bool {
    p[i] == '/' || (p[i] == '.' && (i + 1 == p.len() || p[i + 1] == '/'))
}

/// From `i` on, the start of the next component, past separators and `.`
/// components (`p.len()` when none is left).
pub open spec fn skip_ignored(p: Seq<char>, i: int) -> int
    decreases p.len() - i,
{
    if 0 <= i < p.len() && ignored_at(p, i) {
        skip_ignored(p, i + 1)
    } else {
        i
    }
}

/// The end of the component that starts at `i`: the next separator or the end.
pub open spec fn component_end(p: Seq<char>, i: int) -> int
    decreases p.len() - i,
{
    if 0 <= i < p.len() && p[i] != '/' {
        component_end(p, i + 1)
    } else {
        i
    }
}

/// Matches the components of `b` from `j` on with those of `p` from `i` on,
/// one by one; where all of them match, where the match ended in `p`.
pub open spec fn match_components(p: Seq<char>, i: int, b: Seq<char>, j: int) -> Option<int>
    decreases b.len() - j,
{
    if i < 0 || j < 0 || i > p.len() || j > b.len() {
        None
    } else {
        let j1 = skip_ignored(b, j);
        if j1 >= b.len() {
            Some(i)
        } else {
            let i1 = skip_ignored(p, i);
            let i2 = component_end(p, i1);
            let j2 = component_end(b, j1);
            if i1 < p.len() && p.subrange(i1, i2) == b.subrange(j1, j2) {
                proof {
                    lemma_skip_ignored(b, j);
                    lemma_component_end(b, j1);
                }
                match_components(p, i2, b, j2)
            } else {
                None
            }
        }
    }
}

/// `p.strip_prefix(base)`: where the components of `base` (root, leading
/// `.`, then the others) are the first ones of `p`, the rest of `p` after
/// them, without leading and trailing separators and `.` components. An
/// empty `base` has no components: then the rest is all of `p`, trimmed at
/// its end.
pub open spec fn strip_prefix(p: Seq<char>, base: Seq<char>) -> Option<Seq<char>> {
    if base.len() == 0 {
        Some(trimmed(p))
    } else if has_root(p) != has_root(base) || has_cur_dir(p) != has_cur_dir(base) {
        None
    } else {
        match match_components(p, body_start(p), base, body_start(base)) {
            Some(i) => Some(trimmed(p.skip(skip_ignored(p, i)))),
            None => None,
        }
    }
}

/// The components of `p` from `i` on, without separators and `.` components.
pub open spec fn components_from(p: Seq<char>, i: int) -> Seq<Seq<char>>
    decreases p.len() - i,
{
    if i < 0 || i > p.len() {
        Seq::empty()
    } else {
        let i1 = skip_ignored(p, i);
        if i1 >= p.len() {
            Seq::empty()
        } else {
            let i2 = component_end(p, i1);
            proof {
                lemma_skip_ignored(p, i);
                lemma_component_end(p, i1);
            }
            seq![p.subrange(i1, i2)] + components_from(p, i2)
        }
    }
}

/// `a` and `b` are the same path for `std::path`: the same root, the same
/// leading `.`, and the same components.
pub open spec fn same_path(a: Seq<char>, b: Seq<char>) -> bool {
    &&& has_root(a) == has_root(b)
    &&& has_cur_dir(a) == has_cur_dir(b)
    &&& components_from(a, body_start(a)) == components_from(b, body_start(b))
}

/// `s` holds a path that is the same path as `p`.
pub open spec fn holds_path(s: Set<Seq<char>>, p: Seq<char>) -> bool {
    exists|q: Seq<char>| s.contains(q) && same_path(q, p)
}

/// `skip_ignored` moves forward, stays within `p`, and stops at a component.
pub proof fn lemma_skip_ignored(p: Seq<char>, i: int)
    requires
        0 <= i <= p.len(),
    ensures
        i <= skip_ignored(p, i) <= p.len(),
        skip_ignored(p, i) < p.len() ==> !ignored_at(p, skip_ignored(p, i)),
        forall|k: int| i <= k < skip_ignored(p, i) ==> ignored_at(p, k),
    decreases p.len() - i,
{
    if i < p.len() && ignored_at(p, i) {
        lemma_skip_ignored(p, i + 1);
    }
}

/// `component_end` stays within `p`, passes no separator, and moves past a
/// component that starts at `i`.
pub proof fn lemma_component_end(p: Seq<char>, i: int)
    requires
        0 <= i <= p.len(),
    ensures
        i <= component_end(p, i) <= p.len(),
        component_end(p, i) < p.len() ==> p[component_end(p, i)] == '/',
        forall|k: int| i <= k < component_end(p, i) ==> p[k] != '/',
        i < p.len() && p[i] != '/' ==> component_end(p, i) > i,
    decreases p.len() - i,
{
    if i < p.len() && p[i] != '/' {
        lemma_component_end(p, i + 1);
    }
}

/// `trimmed(p)` is a prefix of `p`.
pub proof fn lemma_trimmed_prefix(p: Seq<char>)
    ensures
        trimmed(p).len() <= p.len(),
        trimmed(p) == p.take(trimmed(p).len() as int),
    decreases p.len(),
{
    if p.len() > 1 && (p.last() == '/' || (p.last() == '.' && p[p.len() - 2] == '/')) {
        lemma_trimmed_prefix(p.drop_last());
        assert(p.drop_last().take(trimmed(p).len() as int) == p.take(trimmed(p).len() as int));
    } else {
        assert(p.take(p.len() as int) == p);
    }
}

proof fn lemma_name_bounds(p: Seq<char>)
    ensures
        0 <= name_start(p) <= trimmed(p).len(),
        trimmed(p).len() <= p.len(),
        trimmed(p) == p.take(trimmed(p).len() as int),
{
    lemma_rfind_char(trimmed(p), '/');
    lemma_trimmed_prefix(p);
}

/// `path_join(base, p)`.
pub fn join_vec(base: &Vec<char>, p: &Vec<char>) -> (r: Vec<char>)
    ensures
        r@ == path_join(base@, p@),
{
    if p.len() > 0 && p[0] == '/' {
        slice_vec(p, 0, p.len())
    } else if base.len() == 0 || base[base.len() - 1] == '/' {
        concat_vec(base, p)
    } else {
        let mut b = slice_vec(base, 0, base.len());
        b.push('/');
        concat_vec(&b, p)
    }
}

/// The length of `trimmed(p)`.
pub fn trimmed_len(p: &Vec<char>) -> (n: usize)
    ensures
        n == trimmed(p@).len(),
        n <= p@.len(),
        trimmed(p@) == p@.take(n as int),
{
    let mut n = p.len();
    assert(p@.take(n as int) == p@);
    while n > 1 && (p[n - 1] == '/' || (p[n - 1] == '.' && p[n - 2] == '/'))
        invariant
            n <= p@.len(),
            trimmed(p@) == trimmed(p@.take(n as int)),
        decreases n,
    {
        assert(p@.take(n as int).drop_last() == p@.take(n - 1));
        n -= 1;
    }
    assert(trimmed(p@.take(n as int)) == p@.take(n as int));
    n
}

/// The position where the last component starts, and the length of `trimmed(p)`.
fn name_bounds(p: &Vec<char>) -> (r: (usize, usize))
    ensures
        r.1 == trimmed(p@).len(),
        r.0 == name_start(p@),
        r.0 <= r.1 <= p@.len(),
{
    let n = trimmed_len(p);
    let t = slice_vec(p, 0, n);
    proof {
        lemma_name_bounds(p@);
        assert(t@ == trimmed(p@));
    }
    match rfind_char_exec(&t, '/') {
        Some(k) => (k + 1, n),
        None => (0, n),
    }
}

/// Whether the last component of `p` is a normal file name.
fn has_file_name_exec(p: &Vec<char>, start: usize, end: usize) -> (b: bool)
    requires
        start == name_start(p@),
        end == trimmed(p@).len(),
        start <= end <= p@.len(),
    ensures
        b == has_file_name(p@),
{
    proof {
        lemma_name_bounds(p@);
        assert(last_component(p@) == p@.subrange(start as int, end as int));
    }
    let len = end - start;
    if len == 0 {
        false
    } else if len == 1 && p[start] == '.' {
        assert(last_component(p@) == seq!['.']);
        false
    } else if len == 2 && p[start] == '.' && p[start + 1] == '.' {
        assert(last_component(p@) == seq!['.', '.']);
        false
    } else {
        assert(last_component(p@).len() != 1 || last_component(p@)[0] != '.');
        assert(last_component(p@).len() != 2 || last_component(p@)[0] != '.' || last_component(p@)[1] != '.');
        true
    }
}

/// `file_name(p)`.
pub fn file_name_vec(p: &Vec<char>) -> (r: Option<Vec<char>>)
    ensures
        r is Some == file_name(p@) is Some,
        r matches Some(n) ==> file_name(p@) == Some(n@),
{
    let (start, end) = name_bounds(p);
    if has_file_name_exec(p, start, end) {
        let n = slice_vec(p, start, end);
        proof {
            lemma_name_bounds(p@);
            assert(n@ == last_component(p@));
        }
        Some(n)
    } else {
        None
    }
}

/// `extension(p)`.
pub fn extension_vec(p: &Vec<char>) -> (r: Option<Vec<char>>)
    ensures
        r is Some == extension(p@) is Some,
        r matches Some(e) ==> extension(p@) == Some(e@),
{
    match file_name_vec(p) {
        None => None,
        Some(n) => {
            match rfind_char_exec(&n, '.') {
                Some(d) => {
                    if d > 0 {
                        proof { lemma_rfind_char(n@, '.'); }
                        Some(slice_vec(&n, d + 1, n.len()))
                    } else {
                        None
                    }
                },
                None => None,
            }
        },
    }
}

/// `is_strm(p)`.
pub fn is_strm_vec(p: &Vec<char>) -> (b: bool)
    ensures
        b == is_strm(p@),
{
    match extension_vec(p) {
        None => false,
        Some(e) => {
            let s: Vec<char> = vec!['s', 't', 'r', 'm'];
            assert(s@ == strm());
            crate::extensions::chars_eq(&e, &s)
        },
    }
}

/// `with_strm_extension(p)`.
pub fn with_strm_extension_vec(p: &Vec<char>) -> (r: Vec<char>)
    ensures
        r@ == with_strm_extension(p@),
{
    let (start, end) = name_bounds(p);
    if !has_file_name_exec(p, start, end) {
        return slice_vec(p, 0, p.len());
    }
    proof {
        lemma_name_bounds(p@);
        assert(last_component(p@) == p@.subrange(start as int, end as int));
    }
    let n = slice_vec(p, start, end);
    let stem = match rfind_char_exec(&n, '.') {
        Some(d) => if d > 0 { d } else { n.len() },
        None => n.len(),
    };
    proof { lemma_rfind_char(n@, '.'); }
    let head = slice_vec(p, 0, start);
    let stem_chars = slice_vec(&n, 0, stem);
    let mut r = concat_vec(&head, &stem_chars);
    r.push('.');
    r.push('s');
    r.push('t');
    r.push('r');
    r.push('m');
    assert(head@ == trimmed(p@).take(name_start(p@)));
    assert(r@ =~= with_strm_extension(p@));
    r
}

/// `skip_ignored(p, i)`.
fn skip_ignored_exec(p: &Vec<char>, i: usize) -> (r: usize)
    requires
        i <= p@.len(),
    ensures
        r == skip_ignored(p@, i as int),
        i <= r <= p@.len(),
{
    let mut k = i;
    while k < p.len() && (p[k] == '/' || (p[k] == '.' && (k + 1 == p.len() || p[k + 1] == '/')))
        invariant
            i <= k <= p@.len(),
            skip_ignored(p@, i as int) == skip_ignored(p@, k as int),
        decreases p.len() - k,
    {
        k += 1;
    }
    k
}

/// `component_end(p, i)`.
fn component_end_exec(p: &Vec<char>, i: usize) -> (r: usize)
    requires
        i <= p@.len(),
    ensures
        r == component_end(p@, i as int),
        i <= r <= p@.len(),
{
    let mut k = i;
    while k < p.len() && p[k] != '/'
        invariant
            i <= k <= p@.len(),
            component_end(p@, i as int) == component_end(p@, k as int),
        decreases p.len() - k,
    {
        k += 1;
    }
    k
}

/// Whether `p[i1..i2]` and `b[j1..j2]` are equal.
fn ranges_equal(p: &Vec<char>, i1: usize, i2: usize, b: &Vec<char>, j1: usize, j2: usize) -> (r: bool)
    requires
        i1 <= i2 <= p@.len(),
        j1 <= j2 <= b@.len(),
    ensures
        r == (p@.subrange(i1 as int, i2 as int) == b@.subrange(j1 as int, j2 as int)),
{
    if i2 - i1 != j2 - j1 {
        assert(p@.subrange(i1 as int, i2 as int).len() != b@.subrange(j1 as int, j2 as int).len());
        return false;
    }
    let mut k: usize = 0;
    while k < i2 - i1
        invariant
            i1 <= i2 <= p@.len(),
            j1 <= j2 <= b@.len(),
            i2 - i1 == j2 - j1,
            k <= i2 - i1,
            forall|m: int| 0 <= m < k ==> #[trigger] p@.subrange(i1 as int, i2 as int)[m] == b@.subrange(j1 as int, j2 as int)[m],
        decreases i2 - i1 - k,
    {
        if p[i1 + k] != b[j1 + k] {
            assert(p@.subrange(i1 as int, i2 as int)[k as int] != b@.subrange(j1 as int, j2 as int)[k as int]);
            return false;
        }
        k += 1;
    }
    assert(p@.subrange(i1 as int, i2 as int) =~= b@.subrange(j1 as int, j2 as int));
    true
}

/// `match_components(p, i, b, j)`.
fn match_components_exec(p: &Vec<char>, from_p: usize, b: &Vec<char>, from_b: usize) -> (r: Option<usize>)
    requires
        from_p <= p@.len(),
        from_b <= b@.len(),
    ensures
        r is Some ==> r->0 <= p@.len() && match_components(p@, from_p as int, b@, from_b as int) == Some(r->0 as int),
        r is None ==> match_components(p@, from_p as int, b@, from_b as int) is None,
{
    let mut i = from_p;
    let mut j = from_b;
    let ghost start = match_components(p@, i as int, b@, j as int);
    loop
        invariant
            i <= p@.len(),
            j <= b@.len(),
            start == match_components(p@, i as int, b@, j as int),
            start == match_components(p@, from_p as int, b@, from_b as int),
        decreases b@.len() - j,
    {
        let j1 = skip_ignored_exec(b, j);
        if j1 >= b.len() {
            assert(match_components(p@, i as int, b@, j as int) == Some(i as int));
            return Some(i);
        }
        let i1 = skip_ignored_exec(p, i);
        if i1 >= p.len() {
            assert(match_components(p@, i as int, b@, j as int) is None);
            return None;
        }
        let i2 = component_end_exec(p, i1);
        let j2 = component_end_exec(b, j1);
        if !ranges_equal(p, i1, i2, b, j1, j2) {
            return None;
        }
        proof {
            lemma_skip_ignored(b@, j as int);
            lemma_component_end(b@, j1 as int);
        }
        i = i2;
        j = j2;
    }
}

/// Whether `p` starts at the root, and whether it starts with a `.` component.
fn root_and_cur_dir(p: &Vec<char>) -> (r: (bool, bool))
    ensures
        r.0 == has_root(p@),
        r.1 == has_cur_dir(p@),
{
    if p.len() == 0 {
        (false, false)
    } else if p[0] == '/' {
        (true, false)
    } else {
        (false, p[0] == '.' && (p.len() == 1 || p[1] == '/'))
    }
}

/// `same_path(a, b)`: `a == b` on `std::path` paths.
pub fn same_path_exec(a: &Vec<char>, b: &Vec<char>) -> (r: bool)
    ensures
        r == same_path(a@, b@),
{
    let (a_root, a_cur) = root_and_cur_dir(a);
    let (b_root, b_cur) = root_and_cur_dir(b);
    if a_root != b_root || a_cur != b_cur {
        return false;
    }
    let mut i: usize = if a_root || a_cur { 1 } else { 0 };
    let mut j: usize = if b_root || b_cur { 1 } else { 0 };
    loop
        invariant
            i <= a@.len(),
            j <= b@.len(),
            same_path(a@, b@) == (components_from(a@, i as int) == components_from(b@, j as int)),
        decreases a@.len() - i,
    {
        let i1 = skip_ignored_exec(a, i);
        let j1 = skip_ignored_exec(b, j);
        if i1 >= a.len() || j1 >= b.len() {
            assert(i1 >= a.len() ==> components_from(a@, i as int).len() == 0);
            assert(j1 >= b.len() ==> components_from(b@, j as int).len() == 0);
            assert(i1 < a.len() ==> components_from(a@, i as int).len() > 0);
            assert(j1 < b.len() ==> components_from(b@, j as int).len() > 0);
            return i1 >= a.len() && j1 >= b.len();
        }
        let i2 = component_end_exec(a, i1);
        let j2 = component_end_exec(b, j1);
        let ghost ca = components_from(a@, i as int);
        let ghost cb = components_from(b@, j as int);
        assert(ca[0] == a@.subrange(i1 as int, i2 as int));
        assert(cb[0] == b@.subrange(j1 as int, j2 as int));
        if !ranges_equal(a, i1, i2, b, j1, j2) {
            assert(ca != cb);
            return false;
        }
        proof {
            lemma_skip_ignored(a@, i as int);
            lemma_component_end(a@, i1 as int);
            assert(ca.skip(1) =~= components_from(a@, i2 as int));
            assert(cb.skip(1) =~= components_from(b@, j2 as int));
            if ca == cb {
                assert(ca.skip(1) == cb.skip(1));
            }
            if components_from(a@, i2 as int) == components_from(b@, j2 as int) {
                assert(ca =~= cb);
            }
        }
        i = i2;
        j = j2;
    }
}

/// Whether one of the paths of `list` is the same path as `e`.
pub fn path_member(list: &Vec<Vec<char>>, e: &Vec<char>) -> (r: bool)
    ensures
        r == exists|k: int| 0 <= k < list@.len() && same_path(#[trigger] list@[k]@, e@),
{
    let mut k: usize = 0;
    while k < list.len()
        invariant
            k <= list@.len(),
            forall|m: int| 0 <= m < k ==> !same_path(#[trigger] list@[m]@, e@),
        decreases list.len() - k,
    {
        if same_path_exec(&list[k], e) {
            return true;
        }
        k += 1;
    }
    false
}

/// `strip_prefix(p, base)`.
pub fn strip_prefix_vec(p: &Vec<char>, base: &Vec<char>) -> (r: Option<Vec<char>>)
    ensures
        r is Some == strip_prefix(p@, base@) is Some,
        r matches Some(x) ==> strip_prefix(p@, base@) == Some(x@),
{
    if base.len() == 0 {
        let n = trimmed_len(p);
        return Some(slice_vec(p, 0, n));
    }
    let (p_root, p_cur) = root_and_cur_dir(p);
    let (b_root, b_cur) = root_and_cur_dir(base);
    if p_root != b_root || p_cur != b_cur {
        return None;
    }
    let ps: usize = if p_root || p_cur { 1 } else { 0 };
    let bs: usize = if b_root || b_cur { 1 } else { 0 };
    match match_components_exec(p, ps, base, bs) {
        None => None,
        Some(i) => {
            let k = skip_ignored_exec(p, i);
            let rest = slice_vec(p, k, p.len());
            assert(rest@ == p@.skip(k as int));
            let n = trimmed_len(&rest);
            Some(slice_vec(&rest, 0, n))
        },
    }
}

/// A relative path whose ends are clean: not empty, not at the root, not
/// starting with a `.` component, and with nothing that `trimmed` removes.
pub open spec fn is_plain_relative(r: Seq<char>) -> bool {
    &&& r.len() > 0
    &&& !has_root(r)
    &&& !has_cur_dir(r)
    &&& trimmed(r) == r
}

/// Below `t.len()`, `p` and its prefix `t` ignore the same positions, when `p`
/// goes on with a separator or `t` ends with one.
proof fn lemma_ignored_agree(p: Seq<char>, t: Seq<char>, k: int)
    requires
        0 < t.len() < p.len(),
        p.take(t.len() as int) == t,
        p[t.len() as int] == '/' || t.last() == '/',
        0 <= k < t.len(),
    ensures
        ignored_at(p, k) == ignored_at(t, k),
{
    assert(p[k] == t[k]);
    if k + 1 < t.len() {
        assert(p[k + 1] == t[k + 1]);
    }
}

/// `skip_ignored` on `p` and on its prefix `t` agree until `t` ends.
proof fn lemma_skip_agree(p: Seq<char>, t: Seq<char>, j: int)
    requires
        0 < t.len() < p.len(),
        p.take(t.len() as int) == t,
        p[t.len() as int] == '/' || t.last() == '/',
        0 <= j <= t.len(),
    ensures
        skip_ignored(t, j) < t.len() ==> skip_ignored(p, j) == skip_ignored(t, j),
        skip_ignored(t, j) >= t.len() ==> skip_ignored(p, j) == skip_ignored(p, t.len() as int),
    decreases t.len() - j,
{
    if j < t.len() {
        lemma_ignored_agree(p, t, j);
        if ignored_at(t, j) {
            lemma_skip_agree(p, t, j + 1);
        }
    }
}

/// `component_end` on `p` and on its prefix `t` agree for a component of `t`.
proof fn lemma_end_agree(p: Seq<char>, t: Seq<char>, j: int)
    requires
        0 < t.len() < p.len(),
        p.take(t.len() as int) == t,
        p[t.len() as int] == '/' || t.last() == '/',
        0 <= j <= t.len(),
        j < t.len() ==> t[j] != '/',
        j == t.len() ==> p[j] == '/',
    ensures
        component_end(p, j) == component_end(t, j),
    decreases t.len() - j,
{
    if j < t.len() {
        assert(p[j] == t[j]);
        if j + 1 < t.len() {
            assert(p[j + 1] == t[j + 1]);
            if t[j + 1] != '/' {
                lemma_end_agree(p, t, j + 1);
            } else {
                assert(component_end(p, j + 1) == j + 1);
                assert(component_end(t, j + 1) == j + 1);
            }
        } else {
            assert(p[j + 1] == '/');
            lemma_end_agree(p, t, j + 1);
        }
    }
}

/// The components of `t` from `j` on match those of `p`, of which `t` is a
/// prefix, and the match ends where `p` goes on after `t`.
proof fn lemma_match_prefix(p: Seq<char>, t: Seq<char>, j: int)
    requires
        0 < t.len() < p.len(),
        p.take(t.len() as int) == t,
        p[t.len() as int] == '/' || t.last() == '/',
        0 <= j <= t.len(),
    ensures
        match_components(p, j, t, j) matches Some(x) && skip_ignored(p, x) == skip_ignored(p, t.len() as int),
    decreases t.len() - j,
{
    lemma_skip_ignored(t, j);
    lemma_skip_agree(p, t, j);
    let j1 = skip_ignored(t, j);
    if j1 >= t.len() {
        assert(match_components(p, j, t, j) == Some(j));
    } else {
        lemma_component_end(t, j1);
        let j2 = component_end(t, j1);
        if j2 == t.len() {
            assert(t.last() != '/');
        }
        lemma_end_agree(p, t, j1);
        assert(p.subrange(j1, j2) == t.subrange(j1, j2));
        lemma_match_prefix(p, t, j2);
    }
}

/// Stripping `target` from `target` joined with a plain relative path gives
/// that path back.
pub proof fn lemma_strip_joined(target: Seq<char>, r: Seq<char>)
    requires
        is_plain_relative(r),
    ensures
        strip_prefix(path_join(target, r), target) == Some(r),
{
    let p = path_join(target, r);
    if target.len() == 0 {
        assert(p == r);
    } else {
        let n = target.len() as int;
        let sep: Seq<char> = if target.last() == '/' { Seq::empty() } else { seq!['/'] };
        assert(p == target + sep + r) by {
            if target.last() == '/' {
                assert(target + Seq::<char>::empty() == target);
            }
        }
        assert(p.take(n) == target);
        assert(p[0] == target[0]);
        if n >= 2 {
            assert(p[1] == target[1]);
        }
        assert(has_root(p) == has_root(target));
        assert(has_cur_dir(p) == has_cur_dir(target));
        let bs = body_start(target);
        lemma_match_prefix(p, target, bs);
        let start = n + sep.len();
        assert(p.skip(start) == r);
        assert(p[start] == r[0]);
        if r.len() > 1 {
            assert(p[start + 1] == r[1]);
        }
        assert(!ignored_at(p, start));
        assert(skip_ignored(p, start) == start);
        if target.last() != '/' {
            assert(ignored_at(p, n));
        }
        assert(skip_ignored(p, n) == start);
    }
}

/// The components of `t` from `j` on match themselves.
proof fn lemma_match_self(t: Seq<char>, j: int)
    requires
        0 <= j <= t.len(),
    ensures
        match_components(t, j, t, j) is Some,
    decreases t.len() - j,
{
    lemma_skip_ignored(t, j);
    let j1 = skip_ignored(t, j);
    if j1 < t.len() {
        lemma_component_end(t, j1);
        lemma_match_self(t, component_end(t, j1));
    }
}

/// A path joined under `target` from a relative path (not starting at the
/// root) lies under `target`: stripping `target` from it succeeds.
pub proof fn lemma_joined_is_under(target: Seq<char>, r: Seq<char>)
    requires
        r.len() == 0 || r[0] != '/',
    ensures
        strip_prefix(path_join(target, r), target) is Some,
{
    let p = path_join(target, r);
    if target.len() > 0 {
        let n = target.len() as int;
        let sep: Seq<char> = if target.last() == '/' { Seq::empty() } else { seq!['/'] };
        assert(p == target + sep + r) by {
            if target.last() == '/' {
                assert(target + Seq::<char>::empty() == target);
            }
        }
        assert(p.take(n) == target);
        assert(p[0] == target[0]);
        if n >= 2 {
            assert(p[1] == target[1]);
        }
        assert(has_root(p) == has_root(target));
        assert(has_cur_dir(p) == has_cur_dir(target));
        if p.len() == n {
            assert(p == target);
            lemma_match_self(target, body_start(target));
        } else {
            lemma_match_prefix(p, target, body_start(target));
        }
    }
}

/// The last `c` of `a + b` is in `b` when `b` has one, else in `a`.
pub proof fn lemma_rfind_concat(a: Seq<char>, b: Seq<char>, c: char)
    ensures
        rfind_char(a + b, c) == (if rfind_char(b, c) >= 0 {
            a.len() + rfind_char(b, c)
        } else {
            rfind_char(a, c)
        }),
    decreases b.len(),
{
    if b.len() == 0 {
        assert(a + b == a);
    } else {
        assert((a + b).drop_last() == a + b.drop_last());
        assert((a + b).last() == b.last());
        lemma_rfind_concat(a, b.drop_last(), c);
    }
}

/// Without `c` in `s`, `rfind_char` finds none.
pub proof fn lemma_rfind_none(s: Seq<char>, c: char)
    requires
        forall|i: int| 0 <= i < s.len() ==> s[i] != c,
    ensures
        rfind_char(s, c) == -1,
{
    lemma_rfind_char(s, c);
}

/// After `set_extension("strm")` on a path with a file name, the path's
/// extension is `strm`.
pub proof fn law_strm_extension_is_strm(p: Seq<char>)
    requires
        has_file_name(p),
    ensures
        is_strm(with_strm_extension(p)),
        file_name(with_strm_extension(p)) is Some,
{
    let t = trimmed(p);
    let k = rfind_char(t, '/');
    lemma_name_bounds(p);
    lemma_rfind_char(t, '/');
    let head = t.take(name_start(p));
    let n = last_component(p);
    let stem = n.take(stem_end(n));
    lemma_rfind_char(n, '.');
    assert(0 <= stem_end(n) <= n.len());
    let ext = seq!['.'] + strm();
    let r = head + stem + ext;
    assert(r == with_strm_extension(p)) by {
        assert(seq!['.'] + strm() =~= seq!['.', 's', 't', 'r', 'm']);
        assert(head + stem + seq!['.'] + strm() =~= head + stem + ext);
    }
    // No separator after the head.
    assert forall|i: int| 0 <= i < stem.len() implies stem[i] != '/' by {
        assert(stem[i] == n[i]);
        assert(n[i] == t[name_start(p) + i]);
    }
    assert forall|i: int| 0 <= i < ext.len() implies ext[i] != '/' by {}
    lemma_rfind_none(stem, '/');
    lemma_rfind_none(ext, '/');
    lemma_rfind_concat(head + stem, ext, '/');
    lemma_rfind_concat(head, stem, '/');
    // The head ends with its separator, if it is not empty.
    if head.len() > 0 {
        assert(head.last() == '/');
        assert(rfind_char(head, '/') == head.len() - 1);
    } else {
        assert(rfind_char(head, '/') == -1);
    }
    assert(r.last() == 'm');
    assert(trimmed(r) == r);
    assert(name_start(r) == head.len());
    assert(last_component(r) =~= stem + ext);
    // The extension starts at the added dot.
    assert forall|i: int| 0 <= i < 4 implies strm()[i] != '.' by {}
    lemma_rfind_none(strm(), '.');
    lemma_rfind_concat(stem + seq!['.'], strm(), '.');
    assert(rfind_char(stem + seq!['.'], '.') == stem.len());
    assert(stem + ext =~= (stem + seq!['.']) + strm());
    assert(stem.len() > 0) by {
        if rfind_char(n, '.') > 0 {
            assert(stem_end(n) == rfind_char(n, '.'));
        }
    }
    assert(last_component(r).len() >= 5);
    assert(last_component(r) != seq!['.']);
    assert(last_component(r) != seq!['.', '.']);
    assert(last_component(r).skip(stem.len() + 1int) =~= strm());
}

/// Joining a plain name (not empty, no `/`, not `.` or `..`) gives a path
/// whose file name is that name.
pub proof fn law_join_name_is_file_name(base: Seq<char>, name: Seq<char>)
    requires
        name.len() > 0,
        forall|i: int| 0 <= i < name.len() ==> name[i] != '/',
        name != seq!['.'],
        name != seq!['.', '.'],
    ensures
        file_name(path_join(base, name)) == Some(name),
{
    let sep: Seq<char> = if base.len() == 0 || base.last() == '/' { Seq::empty() } else { seq!['/'] };
    let head = base + sep;
    let r = path_join(base, name);
    assert(name[0] != '/');
    assert(r == head + name) by {
        if base.len() == 0 || base.last() == '/' {
            assert(base + Seq::<char>::empty() == base);
        }
    }
    assert(r.last() == name.last());
    assert(name.last() == '.' ==> name.len() >= 2 && r[r.len() - 2] == name[name.len() - 2]) by {
        if name.last() == '.' && name.len() == 1 {
            assert(name =~= seq!['.']);
        }
    }
    assert(trimmed(r) == r);
    lemma_rfind_none(name, '/');
    lemma_rfind_concat(head, name, '/');
    if head.len() > 0 {
        assert(head.last() == '/');
        assert(rfind_char(head, '/') == head.len() - 1);
    }
    assert(name_start(r) == head.len());
    assert(last_component(r) =~= name);
}

} // verus!
