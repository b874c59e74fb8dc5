//! The round-robin shared registry: an insertion-ordered mapping from URL to
//! status, visited through a logical cursor that survives insertion and
//! removal. The ordered storage is `indexmap::IndexMap`; everything the
//! monitor decides about it is stated and proved over the sequence of entries
//! the map holds.

use vstd::prelude::*;
use vstd::pervasive::unreached;
use indexmap::IndexMap;
use crate::status::StreamStatus;

verus! {

#[verifier::external_type_specification]
#[verifier::external_body]
#[verifier::reject_recursive_types(K)]
#[verifier::reject_recursive_types(V)]
#[verifier::reject_recursive_types(S)]
pub struct ExIndexMap<K, V, S>(IndexMap<K, V, S>);

/// The entries an `IndexMap` holds, in insertion order: key view paired with
/// value.
pub uninterp spec fn index_map_entries(m: IndexMap<String, StreamStatus>) -> Seq<
    (Seq<char>, StreamStatus),
>;

/// Some entry of `s` has key `key`.
pub open spec fn has_key(s: Seq<(Seq<char>, StreamStatus)>, key: Seq<char>) -> bool {
    exists|i: int| 0 <= i < s.len() && (#[trigger] s[i]).0 == key
}

/// The position of the entry with key `key` (meaningful when the keys of `s`
/// are unique and `key` is among them).
pub open spec fn key_index_of(s: Seq<(Seq<char>, StreamStatus)>, key: Seq<char>) -> int {
    choose|i: int| 0 <= i < s.len() && (#[trigger] s[i]).0 == key
}

/// No two entries of `s` share a key.
pub open spec fn unique_keys(s: Seq<(Seq<char>, StreamStatus)>) -> bool {
    forall|i: int, j: int| 0 <= i < j < s.len() ==> (#[trigger] s[i]).0 != (#[trigger] s[j]).0
}

/// The entries after inserting `key -> v`: a present key keeps its position
/// and has its value overwritten; a new key is appended last.
pub open spec fn upsert(
    s: Seq<(Seq<char>, StreamStatus)>,
    key: Seq<char>,
    v: StreamStatus,
) -> Seq<(Seq<char>, StreamStatus)> {
    if has_key(s, key) {
        s.update(key_index_of(s, key), (key, v))
    } else {
        s.push((key, v))
    }
}

/// The entries after removing position `i` by swapping the last entry into
/// its place and popping.
pub open spec fn swap_removed_at(s: Seq<(Seq<char>, StreamStatus)>, i: int) -> Seq<
    (Seq<char>, StreamStatus),
> {
    s.update(i, s.last()).drop_last()
}

/// The entries after removing key `key`, if present.
pub open spec fn removed(s: Seq<(Seq<char>, StreamStatus)>, key: Seq<char>) -> Seq<
    (Seq<char>, StreamStatus),
> {
    if has_key(s, key) {
        swap_removed_at(s, key_index_of(s, key))
    } else {
        s
    }
}

/// With unique keys, any position holding `key` is the position `key_index_of`
/// names.
pub proof fn lemma_key_index(s: Seq<(Seq<char>, StreamStatus)>, key: Seq<char>, i: int)
    requires
        unique_keys(s),
        0 <= i < s.len(),
        s[i].0 == key,
    ensures
        has_key(s, key),
        key_index_of(s, key) == i,
{
    assert(has_key(s, key));
    let j = key_index_of(s, key);
    assert(0 <= j < s.len() && s[j].0 == key);
    if i < j {
        assert(s[i].0 != s[j].0);
    } else if j < i {
        assert(s[j].0 != s[i].0);
    }
}

/// Upserting preserves key uniqueness, and afterwards the key is present.
pub proof fn lemma_upsert_unique(s: Seq<(Seq<char>, StreamStatus)>, key: Seq<char>, v: StreamStatus)
    requires
        unique_keys(s),
    ensures
        unique_keys(upsert(s, key, v)),
        has_key(upsert(s, key, v), key),
{
    let t = upsert(s, key, v);
    if has_key(s, key) {
        let i = key_index_of(s, key);
        assert(0 <= i < s.len() && s[i].0 == key);
        assert(forall|a: int| 0 <= a < t.len() ==> (#[trigger] t[a]).0 == s[a].0);
        assert(t[i].0 == key);
    } else {
        assert(t[s.len() as int].0 == key);
        assert(forall|a: int, b: int| 0 <= a < b < t.len() && b < s.len() ==> (#[trigger] t[a]).0
            != (#[trigger] t[b]).0);
        assert(forall|a: int| 0 <= a < s.len() ==> (#[trigger] t[a]).0 == s[a].0);
        assert forall|a: int| 0 <= a < s.len() implies (#[trigger] t[a]).0 != key by {
            assert(!has_key(s, key));
            assert(s[a].0 != key);
        }
    }
}

/// Swap-removing a position preserves key uniqueness and drops exactly that
/// position's key.
pub proof fn lemma_swap_removed_unique(s: Seq<(Seq<char>, StreamStatus)>, i: int)
    requires
        unique_keys(s),
        0 <= i < s.len(),
    ensures
        unique_keys(swap_removed_at(s, i)),
        !has_key(swap_removed_at(s, i), s[i].0),
        swap_removed_at(s, i).len() == s.len() - 1,
{
    let t = swap_removed_at(s, i);
    let n = s.len() as int;
    assert(t.len() == n - 1);
    assert(forall|a: int| 0 <= a < n - 1 && a != i ==> (#[trigger] t[a]).0 == s[a].0);
    if i < n - 1 {
        assert(t[i].0 == s[n - 1].0);
    }
    assert forall|a: int, b: int| 0 <= a < b < n - 1 implies (#[trigger] t[a]).0
        != (#[trigger] t[b]).0 by {
        if a == i {
            assert(t[a].0 == s[n - 1].0);
            assert(s[b].0 != s[n - 1].0);
        } else if b == i {
            assert(t[b].0 == s[n - 1].0);
            assert(s[a].0 != s[n - 1].0);
        } else {
            assert(s[a].0 != s[b].0);
        }
    }
    assert forall|a: int| 0 <= a < n - 1 implies (#[trigger] t[a]).0 != s[i].0 by {
        if a == i {
            assert(t[a].0 == s[n - 1].0);
            assert(i < n - 1);
            assert(s[i].0 != s[n - 1].0);
        } else {
            assert(t[a].0 == s[a].0);
            assert(s[a].0 != s[i].0);
        }
    }
}

/// Relies on `indexmap::IndexMap::new`: creates an empty map.
#[verifier::external_body]
fn imap_new() -> (m: IndexMap<String, StreamStatus>)
    ensures
        index_map_entries(m) == Seq::<(Seq<char>, StreamStatus)>::empty(),
{
    IndexMap::new()
}

/// Relies on `indexmap::IndexMap::len`: the number of entries.
#[verifier::external_body]
fn imap_len(m: &IndexMap<String, StreamStatus>) -> (n: usize)
    ensures
        n == index_map_entries(*m).len(),
{
    m.len()
}

/// Relies on `indexmap::IndexMap::get_index`: the key-value pair at a
/// position of the insertion order, if the position is within bounds.
#[verifier::external_body]
fn imap_get_index(m: &IndexMap<String, StreamStatus>, i: usize) -> (r: Option<(String, StreamStatus)>)
    ensures
        i < index_map_entries(*m).len() ==> (r is Some
            && r.unwrap().0@ == index_map_entries(*m)[i as int].0
            && r.unwrap().1 == index_map_entries(*m)[i as int].1),
        i >= index_map_entries(*m).len() ==> r is None,
{
    m.get_index(i).map(|kv: (&String, &StreamStatus)| (kv.0.clone(), *kv.1))
}

/// Relies on `indexmap::IndexMap::get_index_of`: the position of a key in the
/// insertion order if it is present, else `None`.
#[verifier::external_body]
fn imap_get_index_of(m: &IndexMap<String, StreamStatus>, key: &str) -> (r: Option<usize>)
    ensures
        match r {
            Some(i) => i < index_map_entries(*m).len() && index_map_entries(*m)[i as int].0
                == key@,
            None => !has_key(index_map_entries(*m), key@),
        },
{
    m.get_index_of(key)
}

/// Relies on `indexmap::IndexMap::insert`: a key already present keeps its
/// place in the order and has its value overwritten, the old value coming
/// back; a new key is appended last and `None` comes back.
#[verifier::external_body]
fn imap_insert(m: &mut IndexMap<String, StreamStatus>, key: &str, value: StreamStatus) -> (r: Option<StreamStatus>)
    ensures
        has_key(index_map_entries(*old(m)), key@) ==> exists|i: int|
            0 <= i < index_map_entries(*old(m)).len()
            && (#[trigger] index_map_entries(*old(m))[i]).0 == key@
            && index_map_entries(*final(m)) == index_map_entries(*old(m)).update(i, (key@, value))
            && r == Some(index_map_entries(*old(m))[i].1),
        !has_key(index_map_entries(*old(m)), key@) ==> index_map_entries(*final(m))
            == index_map_entries(*old(m)).push((key@, value)) && r is None,
{
    m.insert(key.to_string(), value)
}

/// Relies on `indexmap::IndexMap::swap_remove`: the entry of a present key is
/// removed by swapping the last entry into its place and popping, its value
/// coming back; an absent key leaves the map unchanged and `None` comes back.
#[verifier::external_body]
fn imap_swap_remove(m: &mut IndexMap<String, StreamStatus>, key: &str) -> (r: Option<StreamStatus>)
    ensures
        has_key(index_map_entries(*old(m)), key@) ==> exists|i: int|
            0 <= i < index_map_entries(*old(m)).len()
            && (#[trigger] index_map_entries(*old(m))[i]).0 == key@
            && index_map_entries(*final(m)) == swap_removed_at(index_map_entries(*old(m)), i)
            && r == Some(index_map_entries(*old(m))[i].1),
        !has_key(index_map_entries(*old(m)), key@) ==> index_map_entries(*final(m))
            == index_map_entries(*old(m)) && r is None,
{
    m.swap_remove(key)
}

/// The round-robin shared registry of one platform group: URL to status, in
/// insertion order.
pub struct Cycle {
    entries: IndexMap<String, StreamStatus>,
}

impl View for Cycle {
    type V = Seq<(Seq<char>, StreamStatus)>;

    closed spec fn view(&self) -> Seq<(Seq<char>, StreamStatus)> {
        index_map_entries(self.entries)
    }
}

impl Cycle {
    /// URLs are unique within one registry.
    pub open spec fn wf(&self) -> bool {
        unique_keys(self@)
    }

    /// An empty registry.
    pub fn new() -> (c: Cycle)
        ensures
            c@ == Seq::<(Seq<char>, StreamStatus)>::empty(),
            c.wf(),
    {
        Cycle { entries: imap_new() }
    }

    /// The number of URLs tracked.
    pub fn len(&self) -> (n: usize)
        ensures
            n == self@.len(),
    {
        imap_len(&self.entries)
    }

    /// Add a URL, or overwrite the status of one already tracked; a tracked
    /// URL keeps its position, a new one is appended last.
    pub fn insert(&mut self, url: &str, status: StreamStatus)
        requires
            old(self).wf(),
        ensures
            final(self).wf(),
            final(self)@ == upsert(old(self)@, url@, status),
            has_key(final(self)@, url@),
    {
        let ghost s = self@;
        let _ = imap_insert(&mut self.entries, url, status);
        proof {
            if has_key(s, url@) {
                let i = choose|i: int|
                    0 <= i < s.len() && (#[trigger] s[i]).0 == url@ && self@ == s.update(
                        i,
                        (url@, status),
                    );
                lemma_key_index(s, url@, i);
            }
            lemma_upsert_unique(s, url@, status);
        }
    }

    /// Remove a URL and return its prior status, or `None` if it was not
    /// tracked. The last entry takes the removed entry's position, so the
    /// round-robin order may shift after a removal.
    pub fn remove(&mut self, url: &str) -> (r: Option<StreamStatus>)
        requires
            old(self).wf(),
        ensures
            final(self).wf(),
            final(self)@ == removed(old(self)@, url@),
            !has_key(final(self)@, url@),
            r == (if has_key(old(self)@, url@) {
                Some(old(self)@[key_index_of(old(self)@, url@)].1)
            } else {
                None::<StreamStatus>
            }),
    {
        let ghost s = self@;
        let r = imap_swap_remove(&mut self.entries, url);
        proof {
            if has_key(s, url@) {
                let i = choose|i: int|
                    0 <= i < s.len() && (#[trigger] s[i]).0 == url@ && self@ == swap_removed_at(
                        s,
                        i,
                    ) && r == Some(s[i].1);
                lemma_key_index(s, url@, i);
                lemma_swap_removed_unique(s, i);
            }
        }
        r
    }

    /// The current status of a URL, or `None` if it is not tracked.
    pub fn status_of(&self, url: &str) -> (r: Option<StreamStatus>)
        requires
            self.wf(),
        ensures
            has_key(self@, url@) ==> r == Some(self@[key_index_of(self@, url@)].1),
            !has_key(self@, url@) ==> r is None,
    {
        match imap_get_index_of(&self.entries, url) {
            Some(i) => {
                proof {
                    lemma_key_index(self@, url@, i as int);
                }
                match imap_get_index(&self.entries, i) {
                    Some(kv) => Some(kv.1),
                    None => unreached(),
                }
            },
            None => None,
        }
    }

    /// Advance the cursor one position, wrapping around, and return the entry
    /// now pointed at.
    pub fn get(&self, cursor: &mut usize) -> (r: (String, StreamStatus))
        requires
            self@.len() > 0,
        ensures
            *final(cursor) == (*old(cursor) + 1) % (self@.len() as int),
            r.0@ == self@[*final(cursor) as int].0,
            r.1 == self@[*final(cursor) as int].1,
    {
        let len = imap_len(&self.entries);
        let next = ((*cursor % len) + 1) % len;
        proof {
            lemma_mod_then_add_one(*old(cursor) as int, len as int);
        }
        *cursor = next;
        match imap_get_index(&self.entries, next) {
            Some(kv) => kv,
            None => unreached(),
        }
    }
}

/// Adding one to a reduced residue and reducing again is the same as reducing
/// the successor.
proof fn lemma_mod_then_add_one(x: int, n: int)
    requires
        n > 0,
    ensures
        (x % n + 1) % n == (x + 1) % n,
{
    if n == 1 {
        vstd::arithmetic::div_mod::lemma_mod_bound(x % n + 1, n);
        vstd::arithmetic::div_mod::lemma_mod_bound(x + 1, n);
    } else {
        vstd::arithmetic::div_mod::lemma_small_mod(1nat, n as nat);
        vstd::arithmetic::div_mod::lemma_add_mod_noop(x, 1, n);
    }
}

/// The position visited by the `k`-th of a run of consecutive polls that
/// starts with the cursor at `cursor`, in a registry of `n` entries.
pub open spec fn visit_position(cursor: int, k: int, n: int) -> int {
    (cursor + 1 + k) % n
}

/// One more poll advances the visit position by one, wrapping around.
pub proof fn lemma_visit_step(cursor: int, k: int, n: int)
    requires
        n > 0,
    ensures
        (visit_position(cursor, k, n) + 1) % n == visit_position(cursor, k + 1, n),
{
    lemma_mod_then_add_one(cursor + 1 + k, n);
}

/// Round-robin fairness: over `n` consecutive polls of a registry of `n`
/// entries, every position — hence every URL, the keys being unique — is
/// visited exactly once: no position is visited twice, and each position is
/// visited by some poll.
pub proof fn lemma_round_robin_fair(cursor: int, n: int)
    requires
        n > 0,
    ensures
        forall|j: int, k: int|
            0 <= j < n && 0 <= k < n && j != k ==> visit_position(cursor, j, n) != visit_position(
                cursor,
                k,
                n,
            ),
        forall|t: int|
            0 <= t < n ==> (0 <= (t - cursor - 1) % n < n && #[trigger] visit_position(
                cursor,
                (t - cursor - 1) % n,
                n,
            ) == t),
        forall|k: int| 0 <= k < n ==> 0 <= #[trigger] visit_position(cursor, k, n) < n,
{
    assert forall|k: int| 0 <= k < n implies 0 <= #[trigger] visit_position(cursor, k, n) < n by {
        vstd::arithmetic::div_mod::lemma_mod_bound(cursor + 1 + k, n);
    }
    assert forall|j: int, k: int|
        0 <= j < n && 0 <= k < n && j != k implies visit_position(cursor, j, n) != visit_position(
        cursor,
        k,
        n,
    ) by {
        if j < k {
            lemma_visits_distinct(cursor, j, k, n);
        } else {
            lemma_visits_distinct(cursor, k, j, n);
        }
    }
    assert forall|t: int| 0 <= t < n implies (0 <= (t - cursor - 1) % n < n
        && #[trigger] visit_position(cursor, (t - cursor - 1) % n, n) == t) by {
        let k = (t - cursor - 1) % n;
        vstd::arithmetic::div_mod::lemma_mod_bound(t - cursor - 1, n);
        vstd::arithmetic::div_mod::lemma_add_mod_noop_right(cursor + 1, t - cursor - 1, n);
        vstd::arithmetic::div_mod::lemma_small_mod(t as nat, n as nat);
        assert(visit_position(cursor, k, n) == t);
    }
}

/// Round-robin fairness over a registry: with `n` URLs and no mutation, the
/// entries visited by `n` consecutive polls — poll `k` lands on position
/// `visit_position(cursor, k, n)`, as `get` ensures — are a permutation of
/// all entries: every entry is visited, and no URL is visited twice.
pub proof fn lemma_cycle_round_robin(c: &Cycle, cursor: int)
    requires
        c.wf(),
        c@.len() > 0,
    ensures
        ({
            let n = c@.len() as int;
            let visited = Seq::new(c@.len(), |k: int| c@[visit_position(cursor, k, n)]);
            &&& forall|t: int| 0 <= t < n ==> visited.contains(#[trigger] c@[t])
            &&& forall|j: int, k: int|
                0 <= j < k < n ==> (#[trigger] visited[j]).0 != (#[trigger] visited[k]).0
        }),
{
    let n = c@.len() as int;
    let visited = Seq::new(c@.len(), |k: int| c@[visit_position(cursor, k, n)]);
    lemma_round_robin_fair(cursor, n);
    assert forall|t: int| 0 <= t < n implies visited.contains(#[trigger] c@[t]) by {
        let k = (t - cursor - 1) % n;
        assert(visit_position(cursor, k, n) == t);
        assert(visited[k] == c@[t]);
    }
    assert forall|j: int, k: int| 0 <= j < k < n implies (#[trigger] visited[j]).0 != (
    #[trigger] visited[k]).0 by {
        let a = visit_position(cursor, j, n);
        let b = visit_position(cursor, k, n);
        assert(a != b);
        if a < b {
            assert(c@[a].0 != c@[b].0);
        } else {
            assert(c@[b].0 != c@[a].0);
        }
    }
}

/// Two distinct polls of one run land on distinct positions.
proof fn lemma_visits_distinct(cursor: int, j: int, k: int, n: int)
    requires
        n > 0,
        0 <= j < k < n,
    ensures
        visit_position(cursor, j, n) != visit_position(cursor, k, n),
{
    if visit_position(cursor, j, n) == visit_position(cursor, k, n) {
        vstd::arithmetic::div_mod::lemma_mod_equivalence(cursor + 1 + k, cursor + 1 + j, n);
        assert((k - j) % n == 0);
        vstd::arithmetic::div_mod::lemma_small_mod((k - j) as nat, n as nat);
        assert((k - j) % n == k - j);
    }
}

} // verus!
