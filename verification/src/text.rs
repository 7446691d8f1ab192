//! Character-level string helpers shared by the path and configuration logic.
//!
//! Strings are handled as sequences of Unicode scalar values (`str@`).  Each
//! executable helper here is specified by a spec function over `Seq<char>`.
use vstd::prelude::*;

verus! {

/// `String::push` appends one character to the end of the string.
pub assume_specification[ String::push ](s: &mut String, ch: char)
    ensures
        final(s)@ == old(s)@.push(ch),
;

// ---------------------------------------------------------------------------
// Specifications
// ---------------------------------------------------------------------------

/// `s` with every trailing `c` removed (`str::trim_end_matches(c)`).
pub open spec fn trim_end_by(s: Seq<char>, c: char) -> Seq<char>
    decreases s.len(),
{
    if s.len() > 0 && s.last() == c {
        trim_end_by(s.drop_last(), c)
    } else {
        s
    }
}

/// `s` with every leading `c` removed (`str::trim_start_matches(c)`).
pub open spec fn trim_start_by(s: Seq<char>, c: char) -> Seq<char>
    decreases s.len(),
{
    if s.len() > 0 && s[0] == c {
        trim_start_by(s.drop_first(), c)
    } else {
        s
    }
}

/// Unicode `White_Space`, the property that `char::is_whitespace` tests.
pub open spec fn is_ws(c: char) -> bool {
    ||| '\t' <= c <= '\r'
    ||| c == ' '
    ||| c == '\u{85}'
    ||| c == '\u{a0}'
    ||| c == '\u{1680}'
    ||| '\u{2000}' <= c <= '\u{200a}'
    ||| c == '\u{2028}'
    ||| c == '\u{2029}'
    ||| c == '\u{202f}'
    ||| c == '\u{205f}'
    ||| c == '\u{3000}'
}

/// `s` without trailing white space.
pub open spec fn trim_end_ws(s: Seq<char>) -> Seq<char>
    decreases s.len(),
{
    if s.len() > 0 && is_ws(s.last()) {
        trim_end_ws(s.drop_last())
    } else {
        s
    }
}

/// `s` without leading white space.
pub open spec fn trim_start_ws(s: Seq<char>) -> Seq<char>
    decreases s.len(),
{
    if s.len() > 0 && is_ws(s[0]) {
        trim_start_ws(s.drop_first())
    } else {
        s
    }
}

/// `s` without leading and trailing white space (`str::trim`).
pub open spec fn trim_ws(s: Seq<char>) -> Seq<char> {
    trim_start_ws(trim_end_ws(s))
}

/// ASCII lower case of one character (`char::to_ascii_lowercase`).
pub open spec fn lower_char(c: char) -> char {
    if 'A' <= c <= 'Z' {
        ((c as u32) + 32) as char
    } else {
        c
    }
}

/// ASCII lower case of a string (`str::to_ascii_lowercase`).
pub open spec fn lower(s: Seq<char>) -> Seq<char> {
    s.map_values(|c: char| lower_char(c))
}

/// `p` occurs in `s` starting at index `i`.
pub open spec fn occurs_at(s: Seq<char>, p: Seq<char>, i: int) -> bool {
    &&& 0 <= i
    &&& i + p.len() <= s.len()
    &&& s.subrange(i, i + p.len()) == p
}

/// The first index at or after `i` where `p` occurs in `s`.
pub open spec fn find_from(s: Seq<char>, p: Seq<char>, i: int) -> Option<int>
    decreases s.len() + 1 - i,
{
    if i < 0 || i + p.len() > s.len() {
        None
    } else if occurs_at(s, p, i) {
        Some(i)
    } else {
        find_from(s, p, i + 1)
    }
}

/// The first index where `p` occurs in `s` (`str::find`).
pub open spec fn find(s: Seq<char>, p: Seq<char>) -> Option<int> {
    find_from(s, p, 0)
}

/// `p` occurs somewhere in `s` (`str::contains`).
pub open spec fn contains(s: Seq<char>, p: Seq<char>) -> bool {
    find(s, p) is Some
}

/// `p` is a prefix of `s` (`str::starts_with`).
pub open spec fn starts_with(s: Seq<char>, p: Seq<char>) -> bool {
    occurs_at(s, p, 0)
}

/// The index of the last `c` in `s`, or `-1`.
pub open spec fn rfind_char(s: Seq<char>, c: char) -> int
    decreases s.len(),
{
    if s.len() == 0 {
        -1
    } else if s.last() == c {
        s.len() - 1
    } else {
        rfind_char(s.drop_last(), c)
    }
}

/// `s` repeated `n` times (`str::repeat`).
pub open spec fn repeat(s: Seq<char>, n: nat) -> Seq<char>
    decreases n,
{
    if n == 0 {
        Seq::empty()
    } else {
        repeat(s, (n - 1) as nat) + s
    }
}

// ---------------------------------------------------------------------------
// Lemmas
// ---------------------------------------------------------------------------

/// `rfind_char` names an index of `c`, after which no `c` occurs.
pub proof fn lemma_rfind_char(s: Seq<char>, c: char)
    ensures
        -1 <= rfind_char(s, c) < s.len(),
        rfind_char(s, c) >= 0 ==> s[rfind_char(s, c)] == c,
        forall|j: int| rfind_char(s, c) < j < s.len() ==> s[j] != c,
    decreases s.len(),
{
    if s.len() > 0 && s.last() != c {
        lemma_rfind_char(s.drop_last(), c);
        assert forall|j: int| rfind_char(s, c) < j < s.len() implies s[j] != c by {
            if j < s.len() - 1 {
                assert(s[j] == s.drop_last()[j]);
            }
        }
    }
}

/// A found index is an occurrence, and nothing occurs earlier.
pub proof fn lemma_find_from(s: Seq<char>, p: Seq<char>, i: int)
    requires
        0 <= i,
    ensures
        find_from(s, p, i) matches Some(k) ==> i <= k && occurs_at(s, p, k),
        find_from(s, p, i) matches Some(k) ==> forall|j: int| i <= j < k ==> !occurs_at(s, p, j),
        find_from(s, p, i) is None ==> forall|j: int| i <= j ==> !occurs_at(s, p, j),
    decreases s.len() + 1 - i,
{
    if i + p.len() > s.len() {
        assert forall|j: int| i <= j implies !occurs_at(s, p, j) by {}
    } else if !occurs_at(s, p, i) {
        lemma_find_from(s, p, i + 1);
    }
}

/// Pushing onto a sequence adds the element to its set.
pub proof fn lemma_to_set_push<A>(a: Seq<A>, x: A)
    ensures
        a.push(x).to_set() == a.to_set().insert(x),
{
    a.lemma_push_to_set_commute(x);
}

// ---------------------------------------------------------------------------
// Executable helpers
// ---------------------------------------------------------------------------

/// The characters of `s`, in order.
pub fn chars_of(s: &str) -> (v: Vec<char>)
    ensures
        v@ == s@,
{
    let mut v: Vec<char> = Vec::new();
    for c in it: s.chars()
        invariant
            v@ == it.seq().take(it.index() as int),
            it.seq() == s@,
    {
        v.push(c);
    }
    v
}

/// A `String` holding exactly the characters `v[from..to]`.
pub fn string_of(v: &Vec<char>, from: usize, to: usize) -> (s: String)
    requires
        from <= to <= v@.len(),
    ensures
        s@ == v@.subrange(from as int, to as int),
{
    let mut s = String::new();
    let mut i = from;
    while i < to
        invariant
            from <= i <= to <= v@.len(),
            s@ == v@.subrange(from as int, i as int),
        decreases to - i,
    {
        s.push(v[i]);
        i += 1;
    }
    s
}

/// A `String` holding the characters of `v`.
pub fn string_from(v: &Vec<char>) -> (s: String)
    ensures
        s@ == v@,
{
    let s = string_of(v, 0, v.len());
    assert(v@.subrange(0, v@.len() as int) == v@);
    s
}

/// Appends the characters of `t` to `s`.
pub fn push_all(s: &mut String, t: &Vec<char>)
    ensures
        final(s)@ == old(s)@ + t@,
{
    let mut i: usize = 0;
    while i < t.len()
        invariant
            i <= t@.len(),
            s@ == old(s)@ + t@.take(i as int),
        decreases t.len() - i,
    {
        s.push(t[i]);
        i += 1;
        assert(t@.take(i as int) == t@.take((i - 1) as int).push(t@[i - 1]));
    }
    assert(t@.take(t@.len() as int) == t@);
}

/// Appends the characters of `t` to `s`.
pub fn push_str(s: &mut String, t: &str)
    ensures
        final(s)@ == old(s)@ + t@,
{
    let v = chars_of(t);
    push_all(s, &v);
}

/// The length of `trim_end_by(v, c)`.
pub fn trim_end_len(v: &Vec<char>, c: char) -> (n: usize)
    ensures
        n <= v@.len(),
        trim_end_by(v@, c) == v@.take(n as int),
{
    let mut n = v.len();
    assert(v@.take(n as int) == v@);
    while n > 0 && v[n - 1] == c
        invariant
            n <= v@.len(),
            trim_end_by(v@, c) == trim_end_by(v@.take(n as int), c),
        decreases n,
    {
        assert(v@.take(n as int).drop_last() == v@.take(n - 1));
        n -= 1;
    }
    n
}

/// The index where `trim_start_by(v, c)` begins.
pub fn trim_start_pos(v: &Vec<char>, c: char) -> (k: usize)
    ensures
        k <= v@.len(),
        trim_start_by(v@, c) == v@.skip(k as int),
{
    let mut k: usize = 0;
    assert(v@.skip(0) == v@);
    while k < v.len() && v[k] == c
        invariant
            k <= v@.len(),
            trim_start_by(v@, c) == trim_start_by(v@.skip(k as int), c),
        decreases v.len() - k,
    {
        assert(v@.skip(k as int).drop_first() == v@.skip(k + 1));
        k += 1;
    }
    k
}

/// `trim_end_by(v, c)` as a new vector.
pub fn trim_end_by_vec(v: &Vec<char>, c: char) -> (r: Vec<char>)
    ensures
        r@ == trim_end_by(v@, c),
{
    let n = trim_end_len(v, c);
    slice_vec(v, 0, n)
}

/// `trim_start_by(v, c)` as a new vector.
pub fn trim_start_by_vec(v: &Vec<char>, c: char) -> (r: Vec<char>)
    ensures
        r@ == trim_start_by(v@, c),
{
    let k = trim_start_pos(v, c);
    let r = slice_vec(v, k, v.len());
    assert(v@.subrange(k as int, v@.len() as int) == v@.skip(k as int));
    r
}

/// `v[from..to]` as a new vector.
pub fn slice_vec(v: &Vec<char>, from: usize, to: usize) -> (r: Vec<char>)
    requires
        from <= to <= v@.len(),
    ensures
        r@ == v@.subrange(from as int, to as int),
{
    let mut r: Vec<char> = Vec::new();
    let mut i = from;
    while i < to
        invariant
            from <= i <= to <= v@.len(),
            r@ == v@.subrange(from as int, i as int),
        decreases to - i,
    {
        r.push(v[i]);
        i += 1;
    }
    r
}

/// `a` followed by `b`.
pub fn concat_vec(a: &Vec<char>, b: &Vec<char>) -> (r: Vec<char>)
    ensures
        r@ == a@ + b@,
{
    let mut r = slice_vec(a, 0, a.len());
    assert(a@.subrange(0, a@.len() as int) == a@);
    let mut i: usize = 0;
    while i < b.len()
        invariant
            i <= b@.len(),
            r@ == a@ + b@.take(i as int),
        decreases b.len() - i,
    {
        r.push(b[i]);
        i += 1;
        assert(b@.take(i as int) == b@.take((i - 1) as int).push(b@[i - 1]));
    }
    assert(b@.take(b@.len() as int) == b@);
    r
}

/// Whether `c` is white space in the sense of `char::is_whitespace`.
pub fn is_whitespace(c: char) -> (b: bool)
    ensures
        b == is_ws(c),
{
    ('\t' <= c && c <= '\r') || c == ' ' || c == '\u{85}' || c == '\u{a0}' || c == '\u{1680}'
        || ('\u{2000}' <= c && c <= '\u{200a}') || c == '\u{2028}' || c == '\u{2029}'
        || c == '\u{202f}' || c == '\u{205f}' || c == '\u{3000}'
}

/// `trim_ws(v)` as a new vector.
pub fn trim_vec(v: &Vec<char>) -> (r: Vec<char>)
    ensures
        r@ == trim_ws(v@),
{
    let mut n = v.len();
    assert(v@.take(n as int) == v@);
    while n > 0 && is_whitespace(v[n - 1])
        invariant
            n <= v@.len(),
            trim_end_ws(v@) == trim_end_ws(v@.take(n as int)),
        decreases n,
    {
        assert(v@.take(n as int).drop_last() == v@.take(n - 1));
        n -= 1;
    }
    let ghost t = v@.take(n as int);
    let mut k: usize = 0;
    assert(t.skip(0) == t);
    while k < n && is_whitespace(v[k])
        invariant
            k <= n <= v@.len(),
            t == v@.take(n as int),
            trim_start_ws(t) == trim_start_ws(t.skip(k as int)),
        decreases n - k,
    {
        assert(t.skip(k as int).drop_first() == t.skip(k + 1));
        k += 1;
    }
    let r = slice_vec(v, k, n);
    assert(r@ == t.skip(k as int));
    r
}

/// `lower_char(c)`.
pub fn to_lower_char(c: char) -> (r: char)
    ensures
        r == lower_char(c),
{
    if 'A' <= c && c <= 'Z' {
        let b = c as u8;
        assert(b == c as u32);
        ((b + 32) as char)
    } else {
        c
    }
}

/// `lower(v)` as a new vector.
pub fn lower_vec(v: &Vec<char>) -> (r: Vec<char>)
    ensures
        r@ == lower(v@),
{
    let mut r: Vec<char> = Vec::new();
    let mut i: usize = 0;
    while i < v.len()
        invariant
            i <= v@.len(),
            r@ == lower(v@.take(i as int)),
        decreases v.len() - i,
    {
        r.push(to_lower_char(v[i]));
        i += 1;
        assert(lower(v@.take(i as int)) == lower(v@.take((i - 1) as int)).push(lower_char(v@[i - 1])));
    }
    assert(v@.take(v@.len() as int) == v@);
    r
}

/// Whether `p` occurs in `s` at index `i`.
pub fn occurs_at_exec(s: &Vec<char>, p: &Vec<char>, i: usize) -> (b: bool)
    ensures
        b == occurs_at(s@, p@, i as int),
{
    if i > s.len() || p.len() > s.len() - i {
        return false;
    }
    let mut k: usize = 0;
    while k < p.len()
        invariant
            k <= p@.len(),
            i + p.len() <= s.len(),
            s@.subrange(i as int, i + k) == p@.take(k as int),
        decreases p.len() - k,
    {
        if s[i + k] != p[k] {
            assert(s@.subrange(i as int, i + p@.len())[k as int] != p@[k as int]);
            return false;
        }
        k += 1;
        assert(s@.subrange(i as int, i + k) == s@.subrange(i as int, i + k - 1).push(s@[i + k - 1]));
        assert(p@.take(k as int) == p@.take(k - 1).push(p@[k - 1]));
    }
    assert(p@.take(p@.len() as int) == p@);
    true
}

/// `find(s, p)`.
pub fn find_exec(s: &Vec<char>, p: &Vec<char>) -> (r: Option<usize>)
    ensures
        r matches Some(k) ==> find(s@, p@) == Some(k as int),
        r is None ==> find(s@, p@) is None,
{
    let mut i: usize = 0;
    while i < s.len()
        invariant
            i <= s@.len(),
            find(s@, p@) == find_from(s@, p@, i as int),
        decreases s.len() - i,
    {
        if occurs_at_exec(s, p, i) {
            return Some(i);
        }
        if p.len() > s.len() - i {
            return None;
        }
        i += 1;
    }
    if occurs_at_exec(s, p, i) {
        Some(i)
    } else {
        assert(find_from(s@, p@, i + 1) is None);
        None
    }
}

/// `rfind_char(v, c)`, as `None` for `-1`.
pub fn rfind_char_exec(v: &Vec<char>, c: char) -> (r: Option<usize>)
    ensures
        r matches Some(k) ==> rfind_char(v@, c) == k,
        r is None ==> rfind_char(v@, c) == -1,
{
    let mut n = v.len();
    assert(v@.take(n as int) == v@);
    while n > 0
        invariant
            n <= v@.len(),
            rfind_char(v@, c) == rfind_char(v@.take(n as int), c),
        decreases n,
    {
        if v[n - 1] == c {
            return Some(n - 1);
        }
        assert(v@.take(n as int).drop_last() == v@.take(n - 1));
        n -= 1;
    }
    None
}

} // verus!
