//! Bounded recency cache: a fixed-capacity map from project path to
//! last-access Unix timestamp (integer seconds), with least-recently-used
//! eviction and a comparator that ranks paths newest-first.
//!
//! Entries are held as a sequence of `(path, timestamp)` pairs with unique
//! keys. Eviction removes the entry with the minimum timestamp; among equal
//! timestamps the entry that comes first in the scan is removed, which makes
//! the tie-break deterministic.

use vstd::prelude::*;

use core::cmp::Ordering;

verus! {

/// One recorded access: a project path and the Unix time it was last used.
pub type Entry = (String, i64);

/// The ghost form of the entry list: each pair as (path view, timestamp).
pub type EntrySeq = Seq<(Seq<char>, i64)>;

/// Index of the first entry with key `k`, or -1 when no entry has it.
pub open spec fn key_index(s: EntrySeq, k: Seq<char>) -> int
    decreases s.len(),
{
    if s.len() == 0 {
        -1
    } else if s[0].0 == k {
        0
    } else {
        let r = key_index(s.drop_first(), k);
        if r < 0 {
            -1
        } else {
            r + 1
        }
    }
}

/// Whether some entry has key `k`.
pub open spec fn has_key(s: EntrySeq, k: Seq<char>) -> bool {
    key_index(s, k) >= 0
}

/// The recorded time for key `k`, or 0 when `k` was never recorded.
pub open spec fn spec_time_of(s: EntrySeq, k: Seq<char>) -> i64 {
    if has_key(s, k) {
        s[key_index(s, k)].1
    } else {
        0
    }
}

/// No two entries share a key.
pub open spec fn keys_unique(s: EntrySeq) -> bool {
    forall|i: int, j: int|
        0 <= i < s.len() && 0 <= j < s.len() && s[i].0 == s[j].0 ==> i == j
}

/// `key_index` is the first index holding `k`, and -1 exactly when `k` is absent.
pub proof fn lemma_key_index(s: EntrySeq, k: Seq<char>)
    ensures
        has_key(s, k) ==> {
            let i = key_index(s, k);
            &&& 0 <= i < s.len()
            &&& s[i].0 == k
            &&& forall|j: int| 0 <= j < i ==> s[j].0 != k
        },
        !has_key(s, k) ==> forall|j: int| 0 <= j < s.len() ==> s[j].0 != k,
    decreases s.len(),
{
    if s.len() == 0 {
    } else if s[0].0 == k {
        assert(key_index(s, k) == 0);
    } else {
        let sub = s.drop_first();
        lemma_key_index(sub, k);
        let r = key_index(sub, k);
        if r >= 0 {
            assert(key_index(s, k) == r + 1);
            assert(s[r + 1] == sub[r]);
            assert forall|j: int| 0 <= j < r + 1 implies s[j].0 != k by {
                if j > 0 {
                    assert(s[j] == sub[j - 1]);
                }
            }
        } else {
            assert(key_index(s, k) == -1);
            assert forall|j: int| 0 <= j < s.len() implies s[j].0 != k by {
                if j > 0 {
                    assert(s[j] == sub[j - 1]);
                }
            }
        }
    }
}

/// Index of the entry with the minimum timestamp, the first one among ties.
pub open spec fn min_time_index(s: EntrySeq) -> int
    decreases s.len(),
{
    if s.len() <= 1 {
        0
    } else {
        let r = 1 + min_time_index(s.drop_first());
        if s[0].1 <= s[r].1 {
            0
        } else {
            r
        }
    }
}

/// The sequence without its oldest entry (first minimal timestamp).
pub open spec fn remove_first_min(s: EntrySeq) -> EntrySeq {
    Seq::new((s.len() - 1) as nat, |i: int| if i < min_time_index(s) { s[i] } else { s[i + 1] })
}

/// Oldest entries removed one at a time until at most `n` remain.
pub open spec fn shrink_model(s: EntrySeq, n: int) -> EntrySeq
    decreases s.len(),
{
    if s.len() <= n || s.len() == 0 {
        s
    } else {
        shrink_model(remove_first_min(s), n)
    }
}

/// What one recorded access does to the entry list: an existing key keeps
/// its place and gets the new timestamp; a new key first shrinks the list
/// to `cap - 1` entries by evicting the oldest, then is appended.
pub open spec fn register_model(s: EntrySeq, k: Seq<char>, t: i64, cap: int) -> EntrySeq {
    if has_key(s, k) {
        s.update(key_index(s, k), (k, t))
    } else {
        shrink_model(s, cap - 1).push((k, t))
    }
}

/// `min_time_index` is in bounds, minimal, and the first minimum.
pub proof fn lemma_min_time_index(s: EntrySeq)
    requires
        s.len() >= 1,
    ensures
        ({
            let m = min_time_index(s);
            &&& 0 <= m < s.len()
            &&& forall|j: int| 0 <= j < s.len() ==> s[m].1 <= s[j].1
            &&& forall|j: int| 0 <= j < m ==> s[j].1 > s[m].1
        }),
    decreases s.len(),
{
    if s.len() > 1 {
        let sub = s.drop_first();
        lemma_min_time_index(sub);
        let rs = min_time_index(sub);
        let m = min_time_index(s);
        assert(forall|j: int| 0 <= j < sub.len() ==> sub[j] == s[j + 1]);
        if s[0].1 <= s[rs + 1].1 {
            assert(m == 0);
            assert forall|j: int| 0 <= j < s.len() implies s[m].1 <= s[j].1 by {
                if j > 0 {
                    assert(sub[rs].1 <= sub[j - 1].1);
                }
            }
        } else {
            assert(m == rs + 1);
            assert forall|j: int| 0 <= j < s.len() implies s[m].1 <= s[j].1 by {
                if j > 0 {
                    assert(sub[rs].1 <= sub[j - 1].1);
                }
            }
            assert forall|j: int| 0 <= j < m implies s[j].1 > s[m].1 by {
                if j > 0 {
                    assert(sub[j - 1].1 > sub[rs].1);
                }
            }
        }
    }
}

/// Removing the oldest entry keeps keys unique and introduces no key.
pub proof fn lemma_remove_first_min(s: EntrySeq)
    requires
        s.len() >= 1,
    ensures
        remove_first_min(s).len() == s.len() - 1,
        keys_unique(s) ==> keys_unique(remove_first_min(s)),
        forall|k: Seq<char>| has_key(remove_first_min(s), k) ==> has_key(s, k),
{
    lemma_min_time_index(s);
    let r = remove_first_min(s);
    let m = min_time_index(s);
    if keys_unique(s) {
        assert forall|i: int, j: int|
            0 <= i < r.len() && 0 <= j < r.len() && r[i].0 == r[j].0 implies i == j by {
            let si = if i < m { i } else { i + 1 };
            let sj = if j < m { j } else { j + 1 };
            assert(s[si] == r[i]);
            assert(s[sj] == r[j]);
        }
    }
    assert forall|k: Seq<char>| has_key(r, k) implies has_key(s, k) by {
        lemma_key_index(r, k);
        lemma_key_index(s, k);
        let i = key_index(r, k);
        let si = if i < m { i } else { i + 1 };
        assert(s[si] == r[i]);
        if !has_key(s, k) {
            assert(s[si].0 != k);
        }
    }
}

/// Shrinking keeps keys unique, introduces no key, and reaches the bound.
pub proof fn lemma_shrink_model(s: EntrySeq, n: int)
    requires
        n >= 0,
    ensures
        shrink_model(s, n).len() == if s.len() <= n { s.len() as int } else { n },
        keys_unique(s) ==> keys_unique(shrink_model(s, n)),
        forall|k: Seq<char>| has_key(shrink_model(s, n), k) ==> has_key(s, k),
    decreases s.len(),
{
    if s.len() <= n || s.len() == 0 {
    } else {
        lemma_remove_first_min(s);
        lemma_shrink_model(remove_first_min(s), n);
    }
}

/// The cache proper: bounded entry list, optional backing-store location,
/// and the fixed capacity.
pub struct AccessCache {
    entries: Vec<Entry>,
    path: Option<String>,
    capacity: usize,
}

impl AccessCache {
    /// The entry list as a ghost sequence of (path view, timestamp) pairs.
    pub closed spec fn entries_view(&self) -> EntrySeq {
        self.entries@.map_values(|e: Entry| (e.0@, e.1))
    }

    /// The backing-store location, if the cache persists at all.
    pub closed spec fn spec_store_path(&self) -> Option<Seq<char>> {
        match self.path {
            Some(ref p) => Some(p@),
            None => None,
        }
    }

    /// The fixed capacity bound.
    pub closed spec fn spec_capacity(&self) -> int {
        self.capacity as int
    }

    /// Well-formedness: keys are unique and the capacity is positive.
    pub open spec fn wf(&self) -> bool {
        &&& keys_unique(self.entries_view())
        &&& self.spec_capacity() >= 1
    }

    /// An empty cache bound to `path` (or to nothing) with the given capacity.
    pub fn load_blank(path: Option<String>, capacity: usize) -> (r: Self)
        requires
            capacity >= 1,
        ensures
            r.wf(),
            r.entries_view() == Seq::<(Seq<char>, i64)>::empty(),
            r.spec_store_path() == match path {
                Some(p) => Some(p@),
                None => None::<Seq<char>>,
            },
            r.spec_capacity() == capacity,
    {
        let r = AccessCache { entries: Vec::new(), path, capacity };
        assert(r.entries_view() =~= Seq::<(Seq<char>, i64)>::empty());
        r
    }

    /// How many entries are recorded.
    pub fn len(&self) -> (n: usize)
        ensures
            n == self.entries_view().len(),
    {
        self.entries.len()
    }

    /// Index of the first entry for `path`, when one exists.
    fn find_index(&self, path: &String) -> (r: Option<usize>)
        ensures
            match r {
                Some(i) => {
                    &&& has_key(self.entries_view(), path@)
                    &&& i == key_index(self.entries_view(), path@)
                    &&& i < self.entries_view().len()
                    &&& self.entries_view()[i as int].0 == path@
                },
                None => !has_key(self.entries_view(), path@),
            },
    {
        let ghost s = self.entries_view();
        proof {
            lemma_key_index(s, path@);
        }
        let n = self.entries.len();
        let mut i: usize = 0;
        while i < n
            invariant
                n == s.len(),
                i <= n,
                s == self.entries_view(),
                forall|j: int| 0 <= j < i ==> s[j].0 != path@,
            decreases n - i,
        {
            if self.entries[i].0 == *path {
                proof {
                    assert(s[i as int].0 == path@);
                    lemma_key_index(s, path@);
                    let kx = key_index(s, path@);
                    assert(has_key(s, path@)) by {
                        if !has_key(s, path@) {
                            assert(s[i as int].0 != path@);
                        }
                    }
                    assert(kx == i) by {
                        if kx < i {
                            assert(s[kx].0 != path@);
                        }
                        if kx > i {
                            assert(s[i as int].0 != path@);
                        }
                    }
                }
                return Some(i);
            }
            proof {
                assert(s[i as int].0 != path@);
            }
            i += 1;
        }
        proof {
            lemma_key_index(s, path@);
        }
        None
    }

    /// Whether `path` has a recorded access.
    pub fn contains_path(&self, path: &String) -> (r: bool)
        ensures
            r == has_key(self.entries_view(), path@),
    {
        self.find_index(path).is_some()
    }

    /// The recorded access time for the project at `path`, or 0 when the
    /// path was never recorded, so that unseen paths rank as oldest.
    pub fn get_access_time_for_project(&self, path: &String) -> (t: i64)
        ensures
            t == spec_time_of(self.entries_view(), path@),
    {
        match self.find_index(path) {
            Some(i) => {
                assert(self.entries_view()[i as int].1 == self.entries@[i as int].1);
                self.entries[i].1
            },
            None => 0,
        }
    }

    /// Index of the oldest entry: minimal timestamp, first among ties.
    fn min_index(&self) -> (m: usize)
        requires
            self.entries_view().len() >= 1,
        ensures
            m == min_time_index(self.entries_view()),
    {
        let ghost s = self.entries_view();
        let n = self.entries.len();
        let mut best: usize = 0;
        let mut j: usize = 1;
        while j < n
            invariant
                n == s.len(),
                s == self.entries_view(),
                1 <= j <= n,
                best < j,
                forall|i: int| 0 <= i < j ==> s[best as int].1 <= s[i].1,
                forall|i: int| 0 <= i < best ==> s[i].1 > s[best as int].1,
            decreases n - j,
        {
            if self.entries[j].1 < self.entries[best].1 {
                best = j;
            }
            j += 1;
        }
        proof {
            lemma_min_time_index(s);
            let m = min_time_index(s);
            assert(s[m].1 <= s[best as int].1);
            assert(s[best as int].1 <= s[m].1);
            if m < best {
                assert(s[m].1 > s[best as int].1);
            }
            if best < m {
                assert(s[best as int].1 > s[m].1);
            }
        }
        best
    }

    /// Evict oldest entries, one at a time, until at most `capacity` remain.
    /// A list already within the bound is left as it is.
    pub fn eject_oldest_to_size(&mut self, capacity: usize)
        requires
            old(self).wf(),
        ensures
            final(self).wf(),
            final(self).entries_view() == shrink_model(old(self).entries_view(), capacity as int),
            final(self).spec_capacity() == old(self).spec_capacity(),
            final(self).spec_store_path() == old(self).spec_store_path(),
    {
        while self.entries.len() > capacity
            invariant
                self.wf(),
                shrink_model(self.entries_view(), capacity as int) == shrink_model(
                    old(self).entries_view(),
                    capacity as int,
                ),
                self.spec_capacity() == old(self).spec_capacity(),
                self.spec_store_path() == old(self).spec_store_path(),
            decreases self.entries.len(),
        {
            let ghost pre = self.entries_view();
            let m = self.min_index();
            proof {
                lemma_min_time_index(pre);
            }
            self.entries.remove(m);
            proof {
                assert(self.entries_view() =~= remove_first_min(pre));
                lemma_remove_first_min(pre);
                assert(shrink_model(pre, capacity as int) == shrink_model(
                    remove_first_min(pre),
                    capacity as int,
                ));
            }
        }
    }

    /// Record an access to `path` at the given time. An already-present
    /// path keeps its entry and gets the new timestamp; a brand-new path
    /// first evicts the oldest entry whenever the cache is full. A cache
    /// within its capacity stays within it.
    pub fn register_access_at(&mut self, path: &String, time: i64)
        requires
            old(self).wf(),
        ensures
            final(self).wf(),
            final(self).entries_view() == register_model(
                old(self).entries_view(),
                path@,
                time,
                old(self).spec_capacity(),
            ),
            old(self).entries_view().len() <= old(self).spec_capacity()
                ==> final(self).entries_view().len() <= old(self).spec_capacity(),
            final(self).spec_capacity() == old(self).spec_capacity(),
            final(self).spec_store_path() == old(self).spec_store_path(),
    {
        proof {
            if old(self).entries_view().len() <= old(self).spec_capacity() {
                lemma_register_capacity(
                    old(self).entries_view(),
                    path@,
                    time,
                    old(self).spec_capacity(),
                );
            }
        }
        let ghost s0 = self.entries_view();
        match self.find_index(path) {
            Some(i) => {
                self.entries[i] = (path.clone(), time);
                proof {
                    assert(self.entries_view() =~= s0.update(key_index(s0, path@), (path@, time)));
                    lemma_key_index(s0, path@);
                    assert forall|a: int, b: int|
                        0 <= a < self.entries_view().len() && 0 <= b < self.entries_view().len()
                            && self.entries_view()[a].0 == self.entries_view()[b].0 implies a
                        == b by {
                        assert(self.entries_view()[a].0 == s0[a].0);
                        assert(self.entries_view()[b].0 == s0[b].0);
                    }
                }
            },
            None => {
                let cap_less_one = self.capacity - 1;
                self.eject_oldest_to_size(cap_less_one);
                let ghost shrunk = self.entries_view();
                self.entries.push((path.clone(), time));
                proof {
                    assert(self.entries_view() =~= shrunk.push((path@, time)));
                    lemma_shrink_model(s0, cap_less_one as int);
                    lemma_key_index(shrunk, path@);
                    assert forall|a: int, b: int|
                        0 <= a < self.entries_view().len() && 0 <= b < self.entries_view().len()
                            && self.entries_view()[a].0 == self.entries_view()[b].0 implies a
                        == b by {
                        let v = self.entries_view();
                        if a < v.len() - 1 && b < v.len() - 1 {
                            assert(v[a] == shrunk[a]);
                            assert(v[b] == shrunk[b]);
                        } else if a < v.len() - 1 {
                            assert(shrunk[a].0 != path@);
                        } else if b < v.len() - 1 {
                            assert(shrunk[b].0 != path@);
                        }
                    }
                }
            },
        }
    }

    /// Record an access to `path` at the current wall-clock time. Whatever
    /// the clock returned, a cache within its capacity stays within it.
    pub fn register_access(&mut self, path: &String)
        requires
            old(self).wf(),
        ensures
            final(self).wf(),
            exists|t: i64|
                final(self).entries_view() == register_model(
                    old(self).entries_view(),
                    path@,
                    t,
                    old(self).spec_capacity(),
                ),
            old(self).entries_view().len() <= old(self).spec_capacity()
                ==> final(self).entries_view().len() <= old(self).spec_capacity(),
            final(self).spec_capacity() == old(self).spec_capacity(),
            final(self).spec_store_path() == old(self).spec_store_path(),
    {
        let t = now_unix_seconds();
        self.register_access_at(path, t);
    }

    /// Order two paths most-recently-accessed first: `Less` exactly when
    /// `a` was recorded later than `b`, unseen paths counting as time 0.
    pub fn cmp_projects_by_access_cache_time(&self, a: &String, b: &String) -> (r: Ordering)
        ensures
            ({
                let ta = spec_time_of(self.entries_view(), a@);
                let tb = spec_time_of(self.entries_view(), b@);
                &&& (r == Ordering::Less <==> tb < ta)
                &&& (r == Ordering::Equal <==> tb == ta)
                &&& (r == Ordering::Greater <==> tb > ta)
            }),
    {
        let ta = self.get_access_time_for_project(a);
        let tb = self.get_access_time_for_project(b);
        if tb < ta {
            Ordering::Less
        } else if tb == ta {
            Ordering::Equal
        } else {
            Ordering::Greater
        }
    }
}

/// Relies on chrono's conversion from the system clock and on
/// DateTime::timestamp for the current wall-clock time as whole Unix
/// seconds. Nothing is promised of the value. The conversion handles a
/// clock set before the Unix epoch by producing a negative timestamp,
/// where chrono's own now() would panic.
#[verifier::external_body]
fn now_unix_seconds() -> i64 {
    let now: chrono::DateTime<chrono::Utc> = std::time::SystemTime::now().into();
    now.timestamp()
}

/// The entry list as a map from path to timestamp, first occurrence winning.
pub open spec fn entries_map(s: EntrySeq) -> Map<Seq<char>, i64> {
    Map::new(|k: Seq<char>| has_key(s, k), |k: Seq<char>| spec_time_of(s, k))
}

/// The ghost form of a plain entry vector.
pub open spec fn view_of_entries(v: Seq<Entry>) -> EntrySeq {
    v.map_values(|e: Entry| (e.0@, e.1))
}

/// The table of paths and timestamps that a TOML document denotes, or
/// nothing when the text is not such a document. This names the result of
/// `toml::from_str` on the text; no contract says what it is on given text.
pub uninterp spec fn toml_time_table(s: Seq<char>) -> Option<Map<Seq<char>, i64>>;

/// Relies on toml::from_str deserializing a TOML document into a map of
/// string keys to 64-bit integers. The parse depends on the text alone,
/// a TOML table holds each key once, and a failed parse reports why.
#[verifier::external_body]
fn parse_time_table(s: &str) -> (r: Result<Vec<Entry>, String>)
    ensures
        r is Ok <==> toml_time_table(s@) is Some,
        r is Ok ==> keys_unique(view_of_entries(r.unwrap()@)) && entries_map(
            view_of_entries(r.unwrap()@),
        ) == toml_time_table(s@).unwrap(),
{
    match toml::from_str::<std::collections::BTreeMap<String, i64>>(s) {
        Ok(m) => Ok(m.into_iter().collect()),
        Err(e) => Err(format!("{}", e)),
    }
}

/// Relies on toml::to_string_pretty rendering a map of string keys to
/// 64-bit integers as a TOML document, and on toml::from_str reading the
/// same table back: the round trip the two functions document. It always
/// succeeds here: the crate documents failure only for non-string map
/// keys, unsupported datatypes, or a failing Serialize impl, none of
/// which a string-keyed table of 64-bit integers can hit.
#[verifier::external_body]
fn render_time_table(entries: &Vec<Entry>) -> (r: Option<String>)
    requires
        keys_unique(view_of_entries(entries@)),
    ensures
        r is Some,
        toml_time_table(r.unwrap()@) == Some(entries_map(view_of_entries(entries@))),
{
    let m: std::collections::BTreeMap<String, i64> = entries.iter().cloned().collect();
    toml::to_string_pretty(&m).ok()
}

/// Why a backing store could not be turned into a cache.
#[derive(Debug)]
pub enum CacheError {
    /// The store exists but does not parse as a path-to-timestamp table.
    StoreCorrupt(String),
    /// The store exists but could not be read at all.
    StoreUnreadable(String),
}

impl AccessCache {
    /// A cache rebuilt from the text of its backing store. `None` contents
    /// mean the store does not exist yet: the cache starts empty and is
    /// bound to `path` for later persistence. Text that is not a
    /// path-to-timestamp table is refused as corrupt.
    pub fn load_from_contents(contents: Option<&String>, path: Option<String>, capacity: usize) -> (r:
        Result<AccessCache, CacheError>)
        requires
            capacity >= 1,
        ensures
            match r {
                Ok(c) => {
                    &&& c.wf()
                    &&& c.spec_capacity() == capacity
                    &&& c.spec_store_path() == match path {
                        Some(p) => Some(p@),
                        None => None::<Seq<char>>,
                    }
                    &&& match contents {
                        None => c.entries_view() == Seq::<(Seq<char>, i64)>::empty(),
                        Some(s) => {
                            &&& toml_time_table(s@) is Some
                            &&& entries_map(c.entries_view()) == toml_time_table(s@).unwrap()
                        },
                    }
                },
                Err(e) => {
                    &&& contents is Some
                    &&& toml_time_table(contents.unwrap()@) is None
                    &&& e is StoreCorrupt
                },
            },
    {
        match contents {
            None => Ok(AccessCache::load_blank(path, capacity)),
            Some(s) => match parse_time_table(s.as_str()) {
                Ok(entries) => Ok(AccessCache { entries, path, capacity }),
                Err(msg) => Err(CacheError::StoreCorrupt(msg)),
            },
        }
    }

    /// The serialized form of the entry table for the backing store: a
    /// TOML document that parses back to exactly this cache's
    /// path-to-timestamp table.
    pub fn store_contents(&self) -> (r: String)
        requires
            self.wf(),
        ensures
            toml_time_table(r@) == Some(entries_map(self.entries_view())),
    {
        match render_time_table(&self.entries) {
            Some(text) => text,
            None => {
                proof {
                    assert(false);
                }
                String::new()
            },
        }
    }

    /// Where the cache persists, if anywhere.
    pub fn store_location(&self) -> (r: &Option<String>)
        ensures
            match r {
                Some(p) => self.spec_store_path() == Some(p@),
                None => self.spec_store_path() is None,
            },
    {
        &self.path
    }
}

/// A key is held exactly when some entry carries it.
pub proof fn lemma_has_key_exists(s: EntrySeq, k: Seq<char>)
    ensures
        has_key(s, k) <==> exists|j: int| 0 <= j < s.len() && s[j].0 == k,
{
    lemma_key_index(s, k);
    if has_key(s, k) {
        assert(s[key_index(s, k)].0 == k);
    }
}

/// Entry lists with the same keys in the same places index keys alike.
pub proof fn lemma_key_index_pointwise(s: EntrySeq, r: EntrySeq, k: Seq<char>)
    requires
        r.len() == s.len(),
        forall|j: int| 0 <= j < s.len() ==> r[j].0 == s[j].0,
    ensures
        key_index(r, k) == key_index(s, k),
    decreases s.len(),
{
    if s.len() > 0 && s[0].0 != k {
        lemma_key_index_pointwise(s.drop_first(), r.drop_first(), k);
        assert(forall|j: int|
            0 <= j < s.drop_first().len() ==> s.drop_first()[j] == s[j + 1]
                && r.drop_first()[j] == r[j + 1]);
    }
}

/// Capacity invariant: recording an access in a cache whose entry count is
/// within its capacity leaves the count within the capacity, so every
/// sequence of recorded accesses keeps the bound.
pub proof fn lemma_register_capacity(s: EntrySeq, k: Seq<char>, t: i64, cap: int)
    requires
        s.len() <= cap,
        cap >= 1,
    ensures
        register_model(s, k, t, cap).len() <= cap,
{
    if has_key(s, k) {
        lemma_key_index(s, k);
    } else {
        lemma_shrink_model(s, cap - 1);
    }
}

/// Update, not insert: recording an access to an already-present path
/// keeps the entry count, evicts nothing, touches no other entry, and
/// holds exactly the keys it held before.
pub proof fn lemma_register_update(s: EntrySeq, k: Seq<char>, t: i64, cap: int)
    requires
        has_key(s, k),
    ensures
        ({
            let r = register_model(s, k, t, cap);
            &&& r.len() == s.len()
            &&& r[key_index(s, k)] == (k, t)
            &&& forall|j: int| 0 <= j < s.len() && j != key_index(s, k) ==> r[j] == s[j]
            &&& forall|k2: Seq<char>| has_key(r, k2) <==> has_key(s, k2)
        }),
{
    let r = register_model(s, k, t, cap);
    lemma_key_index(s, k);
    assert forall|k2: Seq<char>| has_key(r, k2) <==> has_key(s, k2) by {
        lemma_key_index_pointwise(s, r, k2);
    }
}

/// Capacity invariant over whole histories: any run of recorded accesses,
/// however long, leaves a cache that started within its capacity within it.
pub proof fn lemma_register_all_capacity(s: EntrySeq, ps: EntrySeq, cap: int)
    requires
        s.len() <= cap,
        cap >= 1,
    ensures
        register_all(s, ps, cap).len() <= cap,
    decreases ps.len(),
{
    if ps.len() > 0 {
        lemma_register_capacity(s, ps[0].0, ps[0].1, cap);
        lemma_register_all_capacity(register_model(s, ps[0].0, ps[0].1, cap), ps.drop_first(), cap);
    }
}

/// Registering a run of entries in order, front first.
pub open spec fn register_all(s: EntrySeq, ps: EntrySeq, cap: int) -> EntrySeq
    decreases ps.len(),
{
    if ps.len() == 0 {
        s
    } else {
        register_all(register_model(s, ps[0].0, ps[0].1, cap), ps.drop_first(), cap)
    }
}

/// Registering a run of brand-new entries into a cache with room for all
/// of them appends them in order and evicts nothing.
pub proof fn lemma_register_all_fills(s: EntrySeq, ps: EntrySeq, cap: int)
    requires
        cap >= 1,
        s.len() + ps.len() <= cap,
        keys_unique(ps),
        forall|i: int| 0 <= i < ps.len() ==> !has_key(s, ps[i].0),
    ensures
        register_all(s, ps, cap) == s + ps,
    decreases ps.len(),
{
    if ps.len() == 0 {
        assert(register_all(s, ps, cap) =~= s + ps);
    } else {
        let k = ps[0].0;
        let t = ps[0].1;
        assert(!has_key(s, k));
        assert(shrink_model(s, cap - 1) == s);
        let s1 = s.push((k, t));
        assert(register_model(s, k, t, cap) == s1);
        let sub = ps.drop_first();
        assert(forall|j: int| 0 <= j < sub.len() ==> sub[j] == ps[j + 1]);
        assert forall|i: int| 0 <= i < sub.len() implies !has_key(s1, sub[i].0) by {
            lemma_has_key_exists(s1, sub[i].0);
            lemma_has_key_exists(s, sub[i].0);
            if has_key(s1, sub[i].0) {
                let j = choose|j: int| 0 <= j < s1.len() && s1[j].0 == sub[i].0;
                if j < s.len() {
                    assert(s[j].0 == sub[i].0);
                } else {
                    assert(s1[j].0 == k);
                    assert(ps[i + 1].0 == ps[0].0);
                }
            }
        }
        lemma_register_all_fills(s1, sub, cap);
        assert(s1 + sub =~= s + ps);
    }
}

/// LRU correctness: recording `cap + 1` distinct new paths in order of
/// their (non-decreasing) timestamps into an empty cache of capacity `cap`
/// evicts exactly the first; the `cap` most recent stay, each with its
/// time. Among equal timestamps the earliest-recorded entry is the one
/// that goes.
pub proof fn lemma_lru_eviction(ps: EntrySeq, cap: int)
    requires
        cap >= 1,
        ps.len() == cap + 1,
        keys_unique(ps),
        forall|i: int, j: int| 0 <= i < j < ps.len() ==> ps[i].1 <= ps[j].1,
    ensures
        ({
            let f = register_all(Seq::<(Seq<char>, i64)>::empty(), ps, cap);
            &&& f.len() == cap
            &&& !has_key(f, ps[0].0)
            &&& forall|i: int|
                1 <= i < ps.len() ==> has_key(f, ps[i].0) && spec_time_of(f, ps[i].0) == ps[i].1
        }),
{
    let empty = Seq::<(Seq<char>, i64)>::empty();
    let a = ps.take(cap);
    let b = ps.skip(cap);
    assert(forall|i: int| 0 <= i < a.len() ==> a[i] == ps[i]);
    assert(forall|i: int| 0 <= i < b.len() ==> b[i] == ps[cap + i]);
    assert(a + b =~= ps);
    lemma_register_all_concat(empty, a, b, cap);
    assert forall|i: int, j: int|
        0 <= i < a.len() && 0 <= j < a.len() && a[i].0 == a[j].0 implies i == j by {
        assert(ps[i].0 == ps[j].0);
    }
    assert forall|i: int| 0 <= i < a.len() implies !has_key(empty, a[i].0) by {
        lemma_has_key_exists(empty, a[i].0);
    }
    lemma_register_all_fills(empty, a, cap);
    let mid = empty + a;
    assert(mid =~= a);
    // One more registration on the full cache: the single oldest entry goes.
    let last = ps[cap as int];
    assert(b[0] == last);
    let f = register_model(a, last.0, last.1, cap);
    assert(register_all(a, b, cap) == register_all(f, b.drop_first(), cap));
    assert(b.drop_first().len() == 0);
    assert(register_all(f, b.drop_first(), cap) == f);
    assert(!has_key(a, last.0)) by {
        lemma_has_key_exists(a, last.0);
        if has_key(a, last.0) {
            let j = choose|j: int| 0 <= j < a.len() && a[j].0 == last.0;
            assert(ps[j].0 == ps[cap as int].0);
        }
    }
    lemma_min_time_index(a);
    assert(min_time_index(a) == 0) by {
        if min_time_index(a) > 0 {
            assert(a[0].1 > a[min_time_index(a)].1);
            assert(ps[0].1 <= ps[min_time_index(a)].1);
        }
    }
    let dropped = remove_first_min(a);
    assert(dropped =~= a.subrange(1, cap));
    assert(shrink_model(a, cap - 1) == shrink_model(dropped, cap - 1));
    assert(shrink_model(dropped, cap - 1) == dropped);
    assert(f =~= ps.subrange(1, cap + 1)) by {
        assert(forall|i: int| 0 <= i < cap - 1 ==> dropped[i] == ps[i + 1]);
    }
    assert forall|i: int| 1 <= i < ps.len() implies has_key(f, ps[i].0) && spec_time_of(f, ps[i].0)
        == ps[i].1 by {
        assert(f[i - 1] == ps[i]);
        lemma_has_key_exists(f, ps[i].0);
        lemma_key_index(f, ps[i].0);
        let ki = key_index(f, ps[i].0);
        assert(f[ki].0 == ps[i].0);
        assert(ps[ki + 1].0 == ps[i].0);
        assert(ki == i - 1);
    }
    assert(!has_key(f, ps[0].0)) by {
        lemma_has_key_exists(f, ps[0].0);
        if has_key(f, ps[0].0) {
            let j = choose|j: int| 0 <= j < f.len() && f[j].0 == ps[0].0;
            assert(ps[j + 1].0 == ps[0].0);
        }
    }
}

/// Splitting a run of registrations at any point changes nothing.
pub proof fn lemma_register_all_concat(s: EntrySeq, a: EntrySeq, b: EntrySeq, cap: int)
    ensures
        register_all(s, a + b, cap) == register_all(register_all(s, a, cap), b, cap),
    decreases a.len(),
{
    if a.len() == 0 {
        assert(a + b =~= b);
    } else {
        assert((a + b)[0] == a[0]);
        assert((a + b).drop_first() =~= a.drop_first() + b);
        lemma_register_all_concat(register_model(s, a[0].0, a[0].1, cap), a.drop_first(), b, cap);
    }
}

/// Round-trip persistence: a rendered store that holds the table of one
/// entry list, read back as the table of another, makes the two tables
/// equal, so writing a cache out and loading it back loses no entry.
pub proof fn lemma_store_round_trip(v: EntrySeq, text: Seq<char>, w: EntrySeq)
    requires
        toml_time_table(text) == Some(entries_map(v)),
        Some(entries_map(w)) == toml_time_table(text),
    ensures
        entries_map(w) == entries_map(v),
{
}

} // verus!

