//! Protection of `.strm` files against mass deletion.
//!
//! When a scan wants to delete at least `threshold` `.strm` files at once, the
//! deletions are not carried out at once: each file's relative path gets a
//! counter, and a file is released for deletion only when `grace_scans`
//! consecutive scans have asked for it.  A file that shows up again in a scan
//! loses its counter.  The counters are what is persisted between runs.
use vstd::prelude::*;
use crate::alist2strm::SmartProtection;
use crate::extensions::views;
use crate::fspath::{
    holds_path, is_plain_relative, join_vec, lemma_strip_joined, path_join, path_member, strip_prefix,
    strip_prefix_vec,
};
use crate::text::{chars_of, push_str, slice_vec, string_from};

verus! {

// ---------------------------------------------------------------------------
// The model
// ---------------------------------------------------------------------------

/// The counters described by a list of entries; a later entry for the same
/// path replaces an earlier one.
pub open spec fn map_of(v: Seq<(Seq<char>, nat)>) -> Map<Seq<char>, nat>
    decreases v.len(),
{
    if v.len() == 0 {
        Map::empty()
    } else {
        map_of(v.drop_last()).insert(v.last().0, v.last().1)
    }
}

/// The views of counter entries.
pub open spec fn entry_views(v: Seq<(String, usize)>) -> Seq<(Seq<char>, nat)> {
    v.map_values(|e: (String, usize)| (e.0@, e.1 as nat))
}

/// No path occurs twice among the entries.
pub open spec fn distinct_keys(v: Seq<(Seq<char>, nat)>) -> bool {
    forall|i: int, j: int| 0 <= i < j < v.len() ==> v[i].0 != v[j].0
}

/// The set of the views of a list of strings.
pub open spec fn set_of(v: Seq<String>) -> Set<Seq<char>> {
    v.map_values(|s: String| s@).to_set()
}

/// `\` replaced by `/`.
pub open spec fn forward_slashes(s: Seq<char>) -> Seq<char> {
    s.map_values(|c: char| if c == '\\' { '/' } else { c })
}

/// The counter key of a local file: its path relative to the target
/// directory (or the whole path outside it), with `/` as separator.
pub open spec fn relative_key(p: Seq<char>, target: Seq<char>) -> Seq<char> {
    forward_slashes(
        match strip_prefix(p, target) {
            Some(r) => r,
            None => p,
        },
    )
}

/// The counters whose file did not show up in the scan (as the same path,
/// however it is spelt).
pub open spec fn retained(
    m: Map<Seq<char>, nat>,
    target: Seq<char>,
    present: Set<Seq<char>>,
) -> Map<Seq<char>, nat> {
    Map::new(|k: Seq<char>| m.contains_key(k) && !holds_path(present, path_join(target, k)), |k: Seq<char>| m[k])
}

/// The counters after one increment per key in `keys` (a missing counter starts at 1).
pub open spec fn bumped(m: Map<Seq<char>, nat>, keys: Seq<Seq<char>>) -> Map<Seq<char>, nat>
    decreases keys.len(),
{
    if keys.len() == 0 {
        m
    } else {
        let m1 = bumped(m, keys.drop_last());
        let k = keys.last();
        m1.insert(k, if m1.contains_key(k) { m1[k] + 1 } else { 1 })
    }
}

/// Equality with `k`, as a predicate.
pub open spec fn key_is(k: Seq<char>) -> spec_fn(Seq<char>) -> bool {
    |x: Seq<char>| x == k
}

/// The keys whose counter reached `grace`.
pub open spec fn released(m: Map<Seq<char>, nat>, grace: nat) -> Set<Seq<char>> {
    Set::new(|k: Seq<char>| m.contains_key(k) && m[k] >= grace)
}

/// The counters below `grace`.
pub open spec fn kept(m: Map<Seq<char>, nat>, grace: nat) -> Map<Seq<char>, nat> {
    Map::new(|k: Seq<char>| m.contains_key(k) && m[k] < grace, |k: Seq<char>| m[k])
}

/// The local paths of some keys.
pub open spec fn paths_of(keys: Set<Seq<char>>, target: Seq<char>) -> Set<Seq<char>> {
    Set::new(|p: Seq<char>| exists|k: Seq<char>| keys.contains(k) && p == path_join(target, k))
}

/// The counters after `retained` and, for a large deletion, the increments.
pub open spec fn counted(
    m: Map<Seq<char>, nat>,
    target: Seq<char>,
    threshold: nat,
    delete: Seq<Seq<char>>,
    present: Set<Seq<char>>,
) -> Map<Seq<char>, nat> {
    let m1 = retained(m, target, present);
    if delete.len() < threshold {
        m1
    } else {
        bumped(m1, delete.map_values(|p: Seq<char>| relative_key(p, target)))
    }
}

/// The counters after one scan.
pub open spec fn after_scan(
    m: Map<Seq<char>, nat>,
    target: Seq<char>,
    threshold: nat,
    grace: nat,
    delete: Seq<Seq<char>>,
    present: Set<Seq<char>>,
) -> Map<Seq<char>, nat> {
    let m2 = counted(m, target, threshold, delete, present);
    if delete.len() < threshold {
        m2
    } else {
        kept(m2, grace)
    }
}

/// The files a scan releases for deletion: all requested ones for a small
/// deletion, else those whose counter reached `grace`.
pub open spec fn ready_after_scan(
    m: Map<Seq<char>, nat>,
    target: Seq<char>,
    threshold: nat,
    grace: nat,
    delete: Seq<Seq<char>>,
    present: Set<Seq<char>>,
) -> Set<Seq<char>> {
    if delete.len() < threshold {
        delete.to_set()
    } else {
        paths_of(released(counted(m, target, threshold, delete, present), grace), target)
    }
}

// ---------------------------------------------------------------------------
// Lemmas on the model
// ---------------------------------------------------------------------------

proof fn lemma_map_of_dom(v: Seq<(Seq<char>, nat)>)
    ensures
        forall|k: Seq<char>| #[trigger] map_of(v).contains_key(k) <==> exists|i: int| 0 <= i < v.len() && v[i].0 == k,
    decreases v.len(),
{
    if v.len() > 0 {
        lemma_map_of_dom(v.drop_last());
        assert forall|k: Seq<char>| #[trigger] map_of(v).contains_key(k) <==> exists|i: int| 0 <= i < v.len() && v[i].0 == k by {
            if map_of(v).contains_key(k) && k != v.last().0 {
                assert(map_of(v.drop_last()).contains_key(k));
                let i = choose|i: int| 0 <= i < v.drop_last().len() && v.drop_last()[i].0 == k;
                assert(v[i].0 == k);
            }
            if exists|i: int| 0 <= i < v.len() && v[i].0 == k {
                let i = choose|i: int| 0 <= i < v.len() && v[i].0 == k;
                if i < v.len() - 1 {
                    assert(v.drop_last()[i].0 == k);
                    assert(map_of(v.drop_last()).contains_key(k));
                }
            }
        }
    }
}

proof fn lemma_map_of_val(v: Seq<(Seq<char>, nat)>)
    requires
        distinct_keys(v),
    ensures
        forall|i: int| 0 <= i < v.len() ==> map_of(v).contains_key(#[trigger] v[i].0) && map_of(v)[v[i].0] == v[i].1,
    decreases v.len(),
{
    if v.len() > 0 {
        lemma_map_of_val(v.drop_last());
        assert forall|i: int| 0 <= i < v.len() implies map_of(v).contains_key(#[trigger] v[i].0) && map_of(v)[v[i].0] == v[i].1 by {
            if i < v.len() - 1 {
                assert(v.drop_last()[i] == v[i]);
                assert(v[i].0 != v.last().0);
            }
        }
    }
}

proof fn lemma_update(v: Seq<(Seq<char>, nat)>, j: int, x: nat)
    requires
        distinct_keys(v),
        0 <= j < v.len(),
    ensures
        distinct_keys(v.update(j, (v[j].0, x))),
        map_of(v.update(j, (v[j].0, x))) == map_of(v).insert(v[j].0, x),
{
    let u = v.update(j, (v[j].0, x));
    assert(distinct_keys(u));
    lemma_map_of_dom(u);
    lemma_map_of_dom(v);
    lemma_map_of_val(u);
    lemma_map_of_val(v);
    assert forall|k: Seq<char>| #[trigger] map_of(u).contains_key(k) <==> map_of(v).insert(v[j].0, x).contains_key(k) by {
        if map_of(u).contains_key(k) {
            let i = choose|i: int| 0 <= i < u.len() && u[i].0 == k;
            assert(v[i].0 == k);
        }
        if map_of(v).contains_key(k) {
            let i = choose|i: int| 0 <= i < v.len() && v[i].0 == k;
            assert(u[i].0 == k);
        }
        if k == v[j].0 {
            assert(u[j].0 == k);
        }
    }
    assert forall|k: Seq<char>| map_of(u).contains_key(k) implies map_of(u)[k] == map_of(v).insert(v[j].0, x)[k] by {
        let i = choose|i: int| 0 <= i < u.len() && u[i].0 == k;
        assert(map_of(u)[u[i].0] == u[i].1);
        if i != j {
            assert(map_of(v)[v[i].0] == v[i].1);
        }
    }
    assert(map_of(u) =~= map_of(v).insert(v[j].0, x));
}

/// Distinct entries describe each counter exactly.
proof fn lemma_entries(v: Seq<(Seq<char>, nat)>)
    requires
        distinct_keys(v),
    ensures
        forall|k: Seq<char>| #[trigger] map_of(v).contains_key(k) <==> exists|i: int| 0 <= i < v.len() && v[i].0 == k,
        forall|i: int| 0 <= i < v.len() ==> map_of(v).contains_key(#[trigger] v[i].0) && map_of(v)[v[i].0] == v[i].1,
{
    lemma_map_of_dom(v);
    lemma_map_of_val(v);
}

/// Each key's counter grows by the number of its occurrences.
pub proof fn lemma_bumped(m: Map<Seq<char>, nat>, keys: Seq<Seq<char>>, k: Seq<char>)
    ensures
        bumped(m, keys).contains_key(k) <==> (m.contains_key(k) || keys.contains(k)),
        bumped(m, keys).contains_key(k) ==> bumped(m, keys)[k] == (if m.contains_key(k) { m[k] } else { 0 }) + keys.filter(key_is(k)).len(),
    decreases keys.len(),
{
    reveal_with_fuel(Seq::filter, 1);
    if keys.len() > 0 {
        lemma_bumped(m, keys.drop_last(), k);
        assert(keys.drop_last().push(keys.last()) == keys);
        if keys.drop_last().contains(k) {
            let i = choose|i: int| 0 <= i < keys.drop_last().len() && keys.drop_last()[i] == k;
            assert(keys[i] == k);
        }
        if keys.contains(k) && keys.last() != k {
            let i = choose|i: int| 0 <= i < keys.len() && keys[i] == k;
            assert(keys.drop_last()[i] == k);
        }
        if !bumped(m, keys.drop_last()).contains_key(k) {
            assert(keys.drop_last().filter(key_is(k)).len() == 0) by {
                let pred = key_is(k);
                if keys.drop_last().filter(pred).len() > 0 {
                    let y = keys.drop_last().filter(pred)[0];
                    keys.drop_last().lemma_filter_pred(pred, 0);
                    assert(keys.drop_last().filter(pred).contains(y));
                    keys.drop_last().lemma_filter_contains_rev(pred, y);
                    assert(keys.drop_last().contains(k));
                }
            }
        }
    } else {
        assert(keys.filter(key_is(k)) =~= Seq::<Seq<char>>::empty());
    }
}

/// No counter grows by more than the number of keys.
proof fn lemma_bumped_bound(m: Map<Seq<char>, nat>, keys: Seq<Seq<char>>, k: Seq<char>)
    ensures
        bumped(m, keys).contains_key(k) ==> bumped(m, keys)[k] <= (if m.contains_key(k) { m[k] } else { 0 }) + keys.len(),
    decreases keys.len(),
{
    if keys.len() > 0 {
        lemma_bumped_bound(m, keys.drop_last(), k);
    }
}

pub proof fn lemma_set_of_push(r: Seq<String>, x: String)
    ensures
        set_of(r.push(x)) == set_of(r).insert(x@),
{
    let f = |s: String| s@;
    assert(r.push(x).map_values(f) =~= r.map_values(f).push(x@));
    assert forall|p: Seq<char>| set_of(r.push(x)).contains(p) <==> set_of(r).insert(x@).contains(p) by {
        if set_of(r.push(x)).contains(p) && p != x@ {
            let i = choose|i: int| 0 <= i < r.push(x).map_values(f).len() && r.push(x).map_values(f)[i] == p;
            assert(r.map_values(f)[i] == p);
        }
        if set_of(r).contains(p) {
            let i = choose|i: int| 0 <= i < r.map_values(f).len() && r.map_values(f)[i] == p;
            assert(r.push(x).map_values(f)[i] == p);
        }
        if p == x@ {
            assert(r.push(x).map_values(f)[r.len() as int] == p);
        }
    }
    assert(set_of(r.push(x)) =~= set_of(r).insert(x@));
}

// ---------------------------------------------------------------------------
// Executable code
// ---------------------------------------------------------------------------

/// The relative key of `p` under `target`.
fn relative_key_vec(p: &Vec<char>, target: &Vec<char>) -> (r: Vec<char>)
    ensures
        r@ == relative_key(p@, target@),
{
    let base = match strip_prefix_vec(p, target) {
        Some(x) => x,
        None => slice_vec(p, 0, p.len()),
    };
    assert(base@ == match strip_prefix(p@, target@) { Some(r) => r, None => p@ });
    let mut r: Vec<char> = Vec::new();
    let mut i: usize = 0;
    while i < base.len()
        invariant
            i <= base@.len(),
            r@ == forward_slashes(base@.take(i as int)),
        decreases base.len() - i,
    {
        let c = base[i];
        r.push(if c == '\\' { '/' } else { c });
        i += 1;
        assert(forward_slashes(base@.take(i as int)) =~= forward_slashes(base@.take(i - 1)).push(
            if c == '\\' { '/' } else { c },
        ));
    }
    assert(base@.take(base@.len() as int) == base@);
    r
}

/// The characters of each string.
pub fn chars_list(v: &Vec<String>) -> (r: Vec<Vec<char>>)
    ensures
        views(r@) == v@.map_values(|s: String| s@),
{
    let mut r: Vec<Vec<char>> = Vec::new();
    let mut i: usize = 0;
    while i < v.len()
        invariant
            i <= v@.len(),
            views(r@) == v@.take(i as int).map_values(|s: String| s@),
        decreases v.len() - i,
    {
        let c = chars_of(v[i].as_str());
        let ghost old_r = r@;
        r.push(c);
        i += 1;
        assert(r@ == old_r.push(c));
        assert(views(r@) =~= views(old_r).push(c@));
        assert(v@.take(i as int) =~= v@.take(i - 1).push(v@[i - 1]));
        assert(views(r@) =~= v@.take(i as int).map_values(|s: String| s@));
    }
    assert(v@.take(v@.len() as int) == v@);
    r
}

/// The index of the entry for `key`, if any.
fn find_entry(v: &Vec<(String, usize)>, key: &String) -> (r: Option<usize>)
    ensures
        r matches Some(j) ==> j < v@.len() && entry_views(v@)[j as int].0 == key@,
        r is None ==> forall|i: int| 0 <= i < v@.len() ==> entry_views(v@)[i].0 != key@,
{
    let mut i: usize = 0;
    while i < v.len()
        invariant
            i <= v@.len(),
            forall|j: int| 0 <= j < i ==> entry_views(v@)[j].0 != key@,
        decreases v.len() - i,
    {
        if v[i].0 == *key {
            return Some(i);
        }
        i += 1;
    }
    None
}

/// Sets the counter of `key` to `count`.
fn set_entry(v: &mut Vec<(String, usize)>, key: String, count: usize)
    requires
        distinct_keys(entry_views(old(v)@)),
    ensures
        distinct_keys(entry_views(final(v)@)),
        map_of(entry_views(final(v)@)) == map_of(entry_views(old(v)@)).insert(key@, count as nat),
{
    let ghost k = key@;
    match find_entry(v, &key) {
        Some(j) => {
            proof { lemma_update(entry_views(v@), j as int, count as nat); }
            v.set(j, (key, count));
            assert(entry_views(v@) =~= entry_views(old(v)@).update(j as int, (k, count as nat)));
        },
        None => {
            v.push((key, count));
            assert(entry_views(v@) =~= entry_views(old(v)@).push((k, count as nat)));
            assert(entry_views(v@).drop_last() == entry_views(old(v)@));
        },
    }
}

/// Adds one to the counter of `key`, starting a missing counter at 1.
fn bump_entry(v: &mut Vec<(String, usize)>, key: String)
    requires
        distinct_keys(entry_views(old(v)@)),
        map_of(entry_views(old(v)@)).contains_key(key@) ==> map_of(entry_views(old(v)@))[key@] < usize::MAX,
    ensures
        distinct_keys(entry_views(final(v)@)),
        map_of(entry_views(final(v)@)) == map_of(entry_views(old(v)@)).insert(
            key@,
            if map_of(entry_views(old(v)@)).contains_key(key@) {
                map_of(entry_views(old(v)@))[key@] + 1
            } else {
                1
            },
        ),
{
    proof { lemma_entries(entry_views(v@)); }
    let count = match find_entry(v, &key) {
        Some(j) => {
            assert(map_of(entry_views(v@))[entry_views(v@)[j as int].0] == entry_views(v@)[j as int].1);
            v[j].1 + 1
        },
        None => {
            assert(!map_of(entry_views(v@)).contains_key(key@));
            1
        },
    };
    set_entry(v, key, count);
}

/// A copy of the entries.
fn copy_entries(v: &Vec<(String, usize)>) -> (r: Vec<(String, usize)>)
    ensures
        entry_views(r@) == entry_views(v@),
{
    let mut r: Vec<(String, usize)> = Vec::new();
    let mut i: usize = 0;
    while i < v.len()
        invariant
            i <= v@.len(),
            entry_views(r@) == entry_views(v@).take(i as int),
        decreases v.len() - i,
    {
        let ghost old_r = r@;
        let key = v[i].0.clone();
        assert(key@ == v@[i as int].0@);
        r.push((key, v[i].1));
        i += 1;
        assert(entry_views(r@) =~= entry_views(old_r).push(entry_views(v@)[i - 1]));
        assert(entry_views(r@) =~= entry_views(v@).take(i as int));
    }
    assert(entry_views(v@).take(v@.len() as int) == entry_views(v@));
    r
}

/// The deletion counters of one task.
pub struct ProtectionManager {
    target_dir: String,
    state_file: String,
    threshold: usize,
    grace_scans: usize,
    protected: Vec<(String, usize)>,
}

/// `.autofilm_strm_`
pub open spec fn state_prefix() -> Seq<char> {
    seq!['.', 'a', 'u', 't', 'o', 'f', 'i', 'l', 'm', '_', 's', 't', 'r', 'm', '_']
}

/// `.json`
pub open spec fn json_ext() -> Seq<char> {
    seq!['.', 'j', 's', 'o', 'n']
}

impl ProtectionManager {
    #[verifier::type_invariant]
    spec fn well_formed(self) -> bool {
        distinct_keys(entry_views(self.protected@))
    }

    /// The counter of each protected relative path.
    pub closed spec fn counters(self) -> Map<Seq<char>, nat> {
        map_of(entry_views(self.protected@))
    }

    /// The directory the relative paths are relative to.
    pub closed spec fn target(self) -> Seq<char> {
        self.target_dir@
    }

    /// Where the counters are persisted.
    pub closed spec fn state_path(self) -> Seq<char> {
        self.state_file@
    }

    /// The deletion count that triggers protection.
    pub closed spec fn limit(self) -> nat {
        self.threshold as nat
    }

    /// The number of confirming scans.
    pub closed spec fn grace(self) -> nat {
        self.grace_scans as nat
    }

    /// A manager for the task `task_id` writing into `target_dir`, resuming
    /// from the saved counters (a later entry for a path wins).
    pub fn new(
        target_dir: String,
        task_id: &str,
        config: &SmartProtection,
        saved: Vec<(String, usize)>,
    ) -> (r: ProtectionManager)
        ensures
            r.counters() == map_of(entry_views(saved@)),
            r.target() == target_dir@,
            r.state_path() == path_join(target_dir@, state_prefix() + task_id@ + json_ext()),
            r.limit() == config.threshold,
            r.grace() == config.grace_scans,
    {
        let mut name = String::new();
        let prefix: Vec<char> = vec!['.', 'a', 'u', 't', 'o', 'f', 'i', 'l', 'm', '_', 's', 't', 'r', 'm', '_'];
        crate::text::push_all(&mut name, &prefix);
        push_str(&mut name, task_id);
        let ext: Vec<char> = vec!['.', 'j', 's', 'o', 'n'];
        crate::text::push_all(&mut name, &ext);
        assert(prefix@ == state_prefix());
        assert(ext@ == json_ext());
        let state = join_vec(&chars_of(target_dir.as_str()), &chars_of(name.as_str()));
        let mut protected: Vec<(String, usize)> = Vec::new();
        let mut i: usize = 0;
        while i < saved.len()
            invariant
                i <= saved@.len(),
                distinct_keys(entry_views(protected@)),
                map_of(entry_views(protected@)) == map_of(entry_views(saved@).take(i as int)),
            decreases saved.len() - i,
        {
            set_entry(&mut protected, saved[i].0.clone(), saved[i].1);
            i += 1;
            assert(entry_views(saved@).take(i as int).drop_last() == entry_views(saved@).take(i - 1));
        }
        assert(entry_views(saved@).take(saved@.len() as int) == entry_views(saved@));
        ProtectionManager {
            target_dir,
            state_file: string_from(&state),
            threshold: config.threshold,
            grace_scans: config.grace_scans,
            protected,
        }
    }

    /// Where the counters are persisted.
    pub fn state_file(&self) -> (r: String)
        ensures
            r@ == self.state_path(),
    {
        self.state_file.clone()
    }

    /// The counters, one entry per protected path.
    pub fn entries(&self) -> (r: Vec<(String, usize)>)
        ensures
            distinct_keys(entry_views(r@)),
            map_of(entry_views(r@)) == self.counters(),
    {
        proof { use_type_invariant(self); }
        copy_entries(&self.protected)
    }

    /// Whether every counter can take `n` more confirmations.
    pub fn can_process(&self, n: usize) -> (b: bool)
        ensures
            b == forall|k: Seq<char>| self.counters().contains_key(k) ==> self.counters()[k] + n <= usize::MAX,
    {
        proof {
            use_type_invariant(self);
            lemma_entries(entry_views(self.protected@));
        }
        let mut i: usize = 0;
        while i < self.protected.len()
            invariant
                i <= self.protected@.len(),
                distinct_keys(entry_views(self.protected@)),
                forall|j: int| 0 <= j < i ==> self.protected@[j].1 + n <= usize::MAX,
            decreases self.protected.len() - i,
        {
            if self.protected[i].1 > usize::MAX - n {
                proof { lemma_entries(entry_views(self.protected@)); }
                assert(self.counters().contains_key(entry_views(self.protected@)[i as int].0));
                assert(map_of(entry_views(self.protected@))[entry_views(self.protected@)[i as int].0] == self.protected@[i as int].1);
                return false;
            }
            i += 1;
        }
        proof { lemma_entries(entry_views(self.protected@)); }
        assert forall|k: Seq<char>| self.counters().contains_key(k) implies self.counters()[k] + n <= usize::MAX by {
            let j = choose|j: int| 0 <= j < entry_views(self.protected@).len() && entry_views(self.protected@)[j].0 == k;
            assert(map_of(entry_views(self.protected@))[entry_views(self.protected@)[j].0] == entry_views(self.protected@)[j].1);
        }
        true
    }

    /// The counter key of a local file.
    pub fn to_relative(&self, path: &str) -> (r: String)
        ensures
            r@ == relative_key(path@, self.target()),
    {
        let p = chars_of(path);
        let t = chars_of(self.target_dir.as_str());
        string_from(&relative_key_vec(&p, &t))
    }

    /// Decides which of the `.strm` files that a scan wants to delete may go.
    ///
    /// Counters of files that are `strm_present` again are dropped.  Fewer than
    /// `threshold` deletions all go at once; otherwise each file's counter goes
    /// up by one and the files whose counter reached `grace_scans` go, their
    /// counters dropped.
    pub fn process(&mut self, strm_to_delete: Vec<String>, strm_present: &Vec<String>) -> (ready: Vec<String>)
        requires
            strm_to_delete@.map_values(|s: String| s@).no_duplicates(),
            forall|k: Seq<char>| old(self).counters().contains_key(k) ==> old(self).counters()[k] + strm_to_delete@.len() <= usize::MAX,
        ensures
            final(self).counters() == after_scan(
                old(self).counters(),
                old(self).target(),
                old(self).limit(),
                old(self).grace(),
                strm_to_delete@.map_values(|s: String| s@),
                set_of(strm_present@),
            ),
            set_of(ready@) == ready_after_scan(
                old(self).counters(),
                old(self).target(),
                old(self).limit(),
                old(self).grace(),
                strm_to_delete@.map_values(|s: String| s@),
                set_of(strm_present@),
            ),
            final(self).target() == old(self).target(),
            final(self).state_path() == old(self).state_path(),
            final(self).limit() == old(self).limit(),
            final(self).grace() == old(self).grace(),
    {
        proof { use_type_invariant(&*self); }
        let ghost m = self.counters();
        let ghost target_v = self.target_dir@;
        let ghost present = set_of(strm_present@);
        let ghost del = strm_to_delete@.map_values(|s: String| s@);
        let target = chars_of(self.target_dir.as_str());
        let present_chars = chars_list(strm_present);
        assert(views(present_chars@).to_set() == present);
        let ghost old_entries = entry_views(self.protected@);
        proof { lemma_entries(old_entries); }

        // Counters of files that showed up again are dropped.
        let mut w: Vec<(String, usize)> = Vec::new();
        let mut i: usize = 0;
        while i < self.protected.len()
            invariant
                i <= old_entries.len(),
                old_entries == entry_views(self.protected@),
                distinct_keys(old_entries),
                target@ == target_v,
                views(present_chars@).to_set() == present,
                distinct_keys(entry_views(w@)),
                forall|a: int| #![trigger entry_views(w@)[a]] 0 <= a < w@.len() ==> exists|b: int| 0 <= b < i && entry_views(w@)[a].0 == #[trigger] old_entries[b].0,
                map_of(entry_views(w@)) == retained(map_of(old_entries.take(i as int)), target_v, present),
            decreases old_entries.len() - i,
        {
            let key = chars_of(self.protected[i].0.as_str());
            let abs = join_vec(&target, &key);
            let ghost prev = map_of(old_entries.take(i as int));
            assert(old_entries.take(i + 1).drop_last() == old_entries.take(i as int));
            assert(map_of(old_entries.take(i + 1)) == prev.insert(old_entries[i as int].0, old_entries[i as int].1));
            let ghost e = old_entries[i as int];
            let found = path_member(&present_chars, &abs);
            proof {
                if found {
                    let k = choose|k: int| 0 <= k < present_chars@.len() && crate::fspath::same_path(#[trigger] present_chars@[k]@, abs@);
                    assert(views(present_chars@)[k] == present_chars@[k]@);
                    assert(present.contains(present_chars@[k]@));
                } else if holds_path(present, abs@) {
                    let q = choose|q: Seq<char>| present.contains(q) && crate::fspath::same_path(q, abs@);
                    let k = choose|k: int| 0 <= k < views(present_chars@).len() && views(present_chars@)[k] == q;
                    assert(crate::fspath::same_path(present_chars@[k]@, abs@));
                }
            }
            assert(found == holds_path(present, abs@));
            if !found {
                let ghost w_old = entry_views(w@);
                w.push((self.protected[i].0.clone(), self.protected[i].1));
                assert(entry_views(w@) =~= w_old.push(e));
                assert(entry_views(w@).drop_last() == w_old);
                assert forall|a: int, b: int| 0 <= a < b < entry_views(w@).len() implies entry_views(w@)[a].0 != entry_views(w@)[b].0 by {
                    if b == entry_views(w@).len() - 1 {
                        let c = choose|c: int| 0 <= c < i && w_old[a].0 == #[trigger] old_entries[c].0;
                        assert(old_entries[c].0 != old_entries[i as int].0);
                    }
                }
                assert forall|a: int| #![trigger entry_views(w@)[a]] 0 <= a < w@.len() implies exists|b: int| 0 <= b < i + 1 && entry_views(w@)[a].0 == #[trigger] old_entries[b].0 by {
                    if a == w@.len() - 1 {
                        assert(entry_views(w@)[a].0 == old_entries[i as int].0);
                    } else {
                        let c = choose|c: int| 0 <= c < i && w_old[a].0 == #[trigger] old_entries[c].0;
                        assert(entry_views(w@)[a].0 == old_entries[c].0);
                    }
                }
                assert(map_of(entry_views(w@)) =~= retained(map_of(old_entries.take(i + 1)), target_v, present));
            } else {
                assert(map_of(entry_views(w@)) =~= retained(map_of(old_entries.take(i + 1)), target_v, present));
            }
            i += 1;
        }
        assert(old_entries.take(old_entries.len() as int) == old_entries);
        let ghost m1 = retained(m, target_v, present);
        assert(map_of(entry_views(w@)) == m1);

        if strm_to_delete.len() < self.threshold {
            self.protected = w;
            return strm_to_delete;
        }

        // A large deletion: every requested file gets one more confirmation.
        let ghost rels = del.map_values(|p: Seq<char>| relative_key(p, target_v));
        let mut j: usize = 0;
        while j < strm_to_delete.len()
            invariant
                j <= strm_to_delete@.len(),
                del == strm_to_delete@.map_values(|s: String| s@),
                rels == del.map_values(|p: Seq<char>| relative_key(p, target_v)),
                target@ == target_v,
                distinct_keys(entry_views(w@)),
                map_of(entry_views(w@)) == bumped(m1, rels.take(j as int)),
                forall|k: Seq<char>| m1.contains_key(k) ==> m1[k] + strm_to_delete@.len() <= usize::MAX,
            decreases strm_to_delete.len() - j,
        {
            let p = chars_of(strm_to_delete[j].as_str());
            let key = string_from(&relative_key_vec(&p, &target));
            assert(key@ == rels[j as int]);
            proof {
                lemma_bumped_bound(m1, rels.take(j as int), key@);
            }
            bump_entry(&mut w, key);
            j += 1;
            assert(rels.take(j as int).drop_last() == rels.take(j - 1));
        }
        assert(rels.take(rels.len() as int) == rels);
        let ghost m2 = bumped(m1, rels);
        assert(map_of(entry_views(w@)) == m2);

        // Files confirmed often enough go; their counters are dropped.
        let ghost ws = entry_views(w@);
        proof { lemma_entries(ws); }
        let mut kept_entries: Vec<(String, usize)> = Vec::new();
        let mut ready: Vec<String> = Vec::new();
        let mut k: usize = 0;
        while k < w.len()
            invariant
                k <= ws.len(),
                ws == entry_views(w@),
                distinct_keys(ws),
                target@ == target_v,
                distinct_keys(entry_views(kept_entries@)),
                forall|a: int| #![trigger entry_views(kept_entries@)[a]] 0 <= a < kept_entries@.len() ==> exists|b: int| 0 <= b < k && entry_views(kept_entries@)[a].0 == #[trigger] ws[b].0,
                map_of(entry_views(kept_entries@)) == kept(map_of(ws.take(k as int)), self.grace_scans as nat),
                set_of(ready@) == paths_of(released(map_of(ws.take(k as int)), self.grace_scans as nat), target_v),
            decreases ws.len() - k,
        {
            let ghost prev = map_of(ws.take(k as int));
            let ghost e = ws[k as int];
            let ghost g = self.grace_scans as nat;
            assert(ws.take(k + 1).drop_last() == ws.take(k as int));
            assert(map_of(ws.take(k + 1)) == prev.insert(e.0, e.1));
            proof { lemma_map_of_dom(ws.take(k as int)); }
            assert(!prev.contains_key(e.0)) by {
                if prev.contains_key(e.0) {
                    let c = choose|c: int| 0 <= c < ws.take(k as int).len() && ws.take(k as int)[c].0 == e.0;
                    assert(ws[c].0 == e.0);
                }
            }
            if w[k].1 >= self.grace_scans {
                let key = chars_of(w[k].0.as_str());
                let abs = string_from(&join_vec(&target, &key));
                let ghost r_old = ready@;
                ready.push(abs);
                assert(ready@ == r_old.push(abs));
                proof { lemma_set_of_push(r_old, abs); }
                assert(released(map_of(ws.take(k + 1)), g) =~= released(prev, g).insert(e.0));
                assert(set_of(ready@) =~= paths_of(released(map_of(ws.take(k + 1)), g), target_v)) by {
                    assert forall|p: Seq<char>| #[trigger] paths_of(released(map_of(ws.take(k + 1)), g), target_v).contains(p) implies set_of(ready@).contains(p) by {
                        let kk = choose|kk: Seq<char>| released(map_of(ws.take(k + 1)), g).contains(kk) && p == path_join(target_v, kk);
                        if kk != e.0 {
                            assert(paths_of(released(prev, g), target_v).contains(p));
                        }
                    }
                    assert forall|p: Seq<char>| set_of(ready@).contains(p) implies #[trigger] paths_of(released(map_of(ws.take(k + 1)), g), target_v).contains(p) by {
                        if p != abs@ {
                            assert(paths_of(released(prev, g), target_v).contains(p));
                            let kk = choose|kk: Seq<char>| released(prev, g).contains(kk) && p == path_join(target_v, kk);
                            assert(released(map_of(ws.take(k + 1)), g).contains(kk));
                        } else {
                            assert(released(map_of(ws.take(k + 1)), g).contains(e.0));
                        }
                    }
                }
                assert(map_of(entry_views(kept_entries@)) =~= kept(map_of(ws.take(k + 1)), g));
            } else {
                let ghost k_old = entry_views(kept_entries@);
                kept_entries.push((w[k].0.clone(), w[k].1));
                assert(entry_views(kept_entries@) =~= k_old.push(e));
                assert(entry_views(kept_entries@).drop_last() == k_old);
                assert forall|a: int, b: int| 0 <= a < b < entry_views(kept_entries@).len() implies entry_views(kept_entries@)[a].0 != entry_views(kept_entries@)[b].0 by {
                    if b == entry_views(kept_entries@).len() - 1 {
                        let c = choose|c: int| 0 <= c < k && k_old[a].0 == #[trigger] ws[c].0;
                        assert(ws[c].0 != ws[k as int].0);
                    }
                }
                assert forall|a: int| #![trigger entry_views(kept_entries@)[a]] 0 <= a < kept_entries@.len() implies exists|b: int| 0 <= b < k + 1 && entry_views(kept_entries@)[a].0 == #[trigger] ws[b].0 by {
                    if a == kept_entries@.len() - 1 {
                        assert(entry_views(kept_entries@)[a].0 == ws[k as int].0);
                    } else {
                        let c = choose|c: int| 0 <= c < k && k_old[a].0 == #[trigger] ws[c].0;
                        assert(entry_views(kept_entries@)[a].0 == ws[c].0);
                    }
                }
                assert(map_of(entry_views(kept_entries@)) =~= kept(map_of(ws.take(k + 1)), g));
                assert(released(map_of(ws.take(k + 1)), g) =~= released(prev, g));
            }
            k += 1;
        }
        assert(ws.take(ws.len() as int) == ws);
        self.protected = kept_entries;
        ready
    }
}

// ---------------------------------------------------------------------------
// Laws
// ---------------------------------------------------------------------------

/// How many of the requested files have the counter key `k`.
pub open spec fn requests_for(delete: Seq<Seq<char>>, target: Seq<char>, k: Seq<char>) -> nat {
    delete.map_values(|p: Seq<char>| relative_key(p, target)).filter(key_is(k)).len()
}

/// The counters after `n` scans that each request the same deletions.
pub open spec fn repeated_scans(
    m: Map<Seq<char>, nat>,
    target: Seq<char>,
    threshold: nat,
    grace: nat,
    delete: Seq<Seq<char>>,
    present: Set<Seq<char>>,
    n: nat,
) -> Map<Seq<char>, nat>
    decreases n,
{
    if n == 0 {
        m
    } else {
        after_scan(
            repeated_scans(m, target, threshold, grace, delete, present, (n - 1) as nat),
            target,
            threshold,
            grace,
            delete,
            present,
        )
    }
}

/// A deletion smaller than the threshold goes through at once and adds no counter.
pub proof fn law_small_deletion_goes_at_once(
    m: Map<Seq<char>, nat>,
    target: Seq<char>,
    threshold: nat,
    grace: nat,
    delete: Seq<Seq<char>>,
    present: Set<Seq<char>>,
)
    requires
        delete.len() < threshold,
    ensures
        ready_after_scan(m, target, threshold, grace, delete, present) == delete.to_set(),
        after_scan(m, target, threshold, grace, delete, present) == retained(m, target, present),
{
}

/// After a large deletion, every counter left is below the grace count.
pub proof fn law_counters_stay_below_grace(
    m: Map<Seq<char>, nat>,
    target: Seq<char>,
    threshold: nat,
    grace: nat,
    delete: Seq<Seq<char>>,
    present: Set<Seq<char>>,
    k: Seq<char>,
)
    requires
        delete.len() >= threshold,
        after_scan(m, target, threshold, grace, delete, present).contains_key(k),
    ensures
        after_scan(m, target, threshold, grace, delete, present)[k] < grace,
{
}

/// A file that shows up again, under any spelling of its path, loses its
/// counter, unless the same scan requests its deletion again.
pub proof fn law_reappearing_file_loses_counter(
    m: Map<Seq<char>, nat>,
    target: Seq<char>,
    threshold: nat,
    grace: nat,
    delete: Seq<Seq<char>>,
    present: Set<Seq<char>>,
    k: Seq<char>,
)
    requires
        holds_path(present, path_join(target, k)),
        requests_for(delete, target, k) == 0,
    ensures
        !after_scan(m, target, threshold, grace, delete, present).contains_key(k),
{
    let rels = delete.map_values(|p: Seq<char>| relative_key(p, target));
    lemma_bumped(retained(m, target, present), rels, k);
    if rels.contains(k) {
        let i = choose|i: int| 0 <= i < rels.len() && rels[i] == k;
        rels.lemma_filter_contains(key_is(k), i);
    }
}

/// One large-deletion scan adds one confirmation per request to a file that
/// did not show up (under any spelling); the file is released, and its
/// counter dropped, when its counter reaches the grace count.
pub proof fn law_one_confirmation(
    m: Map<Seq<char>, nat>,
    target: Seq<char>,
    threshold: nat,
    grace: nat,
    delete: Seq<Seq<char>>,
    present: Set<Seq<char>>,
    k: Seq<char>,
)
    requires
        delete.len() >= threshold,
        !holds_path(present, path_join(target, k)),
        requests_for(delete, target, k) > 0,
    ensures
        ({
            let c = (if m.contains_key(k) { m[k] } else { 0 }) + requests_for(delete, target, k);
            let m2 = after_scan(m, target, threshold, grace, delete, present);
            let ready = ready_after_scan(m, target, threshold, grace, delete, present);
            &&& c >= grace ==> !m2.contains_key(k) && ready.contains(path_join(target, k))
            &&& c < grace ==> m2.contains_key(k) && m2[k] == c
        }),
{
    let rels = delete.map_values(|p: Seq<char>| relative_key(p, target));
    let m1 = retained(m, target, present);
    lemma_bumped(m1, rels, k);
    let pred = key_is(k);
    let y = rels.filter(pred)[0];
    rels.lemma_filter_pred(pred, 0);
    assert(rels.filter(pred).contains(y));
    rels.lemma_filter_contains_rev(pred, y);
    let m2 = bumped(m1, rels);
    assert(m2.contains_key(k));
    if m2[k] >= grace {
        assert(released(m2, grace).contains(k));
        assert(paths_of(released(m2, grace), target).contains(path_join(target, k)));
    }
}

/// The grace period: a file that every scan asks to delete in a large
/// deletion, that does not show up (under any spelling), and that is not
/// protected at first, keeps a counter equal to the
/// number of scans so far while that is below the grace count, and the scan
/// that brings it to the grace count releases it.
pub proof fn law_grace_period(
    m: Map<Seq<char>, nat>,
    target: Seq<char>,
    threshold: nat,
    grace: nat,
    delete: Seq<Seq<char>>,
    present: Set<Seq<char>>,
    k: Seq<char>,
    n: nat,
)
    requires
        delete.len() >= threshold,
        !holds_path(present, path_join(target, k)),
        requests_for(delete, target, k) == 1,
        !m.contains_key(k),
        1 <= n <= grace,
    ensures
        n < grace ==> repeated_scans(m, target, threshold, grace, delete, present, n).contains_key(k)
            && repeated_scans(m, target, threshold, grace, delete, present, n)[k] == n,
        n == grace ==> ready_after_scan(
            repeated_scans(m, target, threshold, grace, delete, present, (n - 1) as nat),
            target,
            threshold,
            grace,
            delete,
            present,
        ).contains(path_join(target, k)),
    decreases n,
{
    let prev = repeated_scans(m, target, threshold, grace, delete, present, (n - 1) as nat);
    if n > 1 {
        law_grace_period(m, target, threshold, grace, delete, present, k, (n - 1) as nat);
    }
    assert(!prev.contains_key(k) ==> n == 1);
    law_one_confirmation(prev, target, threshold, grace, delete, present, k);
}

/// A file present in the scan is never released, provided each requested
/// file is the local path of its own counter key and no requested file is
/// present.
pub proof fn law_present_files_are_never_released(
    m: Map<Seq<char>, nat>,
    target: Seq<char>,
    threshold: nat,
    grace: nat,
    delete: Seq<Seq<char>>,
    present: Set<Seq<char>>,
    p: Seq<char>,
)
    requires
        forall|i: int| 0 <= i < delete.len() ==> path_join(target, relative_key(#[trigger] delete[i], target)) == delete[i],
        forall|i: int| 0 <= i < delete.len() ==> !present.contains(#[trigger] delete[i]),
        present.contains(p),
    ensures
        !ready_after_scan(m, target, threshold, grace, delete, present).contains(p),
{
    if delete.len() >= threshold {
        let rels = delete.map_values(|d: Seq<char>| relative_key(d, target));
        let m1 = retained(m, target, present);
        let m2 = bumped(m1, rels);
        if ready_after_scan(m, target, threshold, grace, delete, present).contains(p) {
            let k = choose|k: Seq<char>| released(m2, grace).contains(k) && p == path_join(target, k);
            lemma_bumped(m1, rels, k);
            if !m1.contains_key(k) {
                let i = choose|i: int| 0 <= i < rels.len() && rels[i] == k;
                assert(path_join(target, relative_key(delete[i], target)) == delete[i]);
            }
        }
    } else {
        if delete.to_set().contains(p) {
            let i = choose|i: int| 0 <= i < delete.len() && delete[i] == p;
            assert(!present.contains(delete[i]));
        }
    }
}

/// The counter key of a file joined under the target directory from a plain
/// relative path (see `is_plain_relative`) without `\` is that relative path,
/// and joining the key under the target directory again gives the file.
pub proof fn law_key_round_trip(target: Seq<char>, r: Seq<char>)
    requires
        is_plain_relative(r),
        forall|i: int| 0 <= i < r.len() ==> r[i] != '\\',
    ensures
        relative_key(path_join(target, r), target) == r,
        path_join(target, relative_key(path_join(target, r), target)) == path_join(target, r),
{
    lemma_strip_joined(target, r);
    assert(forward_slashes(r) =~= r);
}

} // verus!
