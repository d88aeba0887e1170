//! Engines shared between scans: one per store and credentials, the least
//! recently used one leaving when there are too many.

use vstd::prelude::*;

use crate::delta::location::{same_place, tidy, TableUrl, UrlParts};
use crate::delta::storage::{DeltaStorageConfig, StorageState};
use crate::text::{concat3, decimal, decimal_text, str_eq};

verus! {

/// How many engines are kept.
pub const MAX_CACHE_ENTRIES: usize = 32;

/// What tells engines apart: the scheme, the authority and the credentials.
#[derive(Clone, PartialEq, Eq, Hash)]
pub struct EngineKey {
    pub scheme: String,
    pub authority: String,
    pub config: DeltaStorageConfig,
}

/// What tells engines apart, as mathematical values.
pub struct EngineKeyState {
    pub scheme: Seq<char>,
    pub authority: Seq<char>,
    pub config: StorageState,
}

impl View for EngineKey {
    type V = EngineKeyState;

    open spec fn view(&self) -> EngineKeyState {
        EngineKeyState {
            scheme: self.scheme@,
            authority: self.authority@,
            config: self.config@,
        }
    }
}

impl EngineKey {
    /// Whether the two name the same engine.
    pub fn same_as(&self, other: &EngineKey) -> (r: bool)
        ensures
            r == (self@ == other@),
    {
        str_eq(self.scheme.as_str(), other.scheme.as_str()) && str_eq(
            self.authority.as_str(),
            other.authority.as_str(),
        ) && self.config.same_as(&other.config)
    }
}

/// The host with its port.
pub open spec fn host_and_port(host: Option<Seq<char>>, port: Option<u16>) -> Seq<char> {
    match (host, port) {
        (Some(h), Some(p)) => h + ":"@ + decimal_text(p as nat),
        (Some(h), None) => h,
        _ => Seq::empty(),
    }
}

/// The authority of a location: the user name, the host and the port.
pub open spec fn authority_of(u: UrlParts) -> Seq<char> {
    if u.2.len() > 0 {
        u.2 + "@"@ + host_and_port(u.3, u.4)
    } else {
        host_and_port(u.3, u.4)
    }
}

/// What tells the engine of a location apart.
pub open spec fn key_of(u: UrlParts, c: StorageState) -> EngineKeyState {
    EngineKeyState { scheme: u.1, authority: authority_of(u), config: c }
}

/// What tells the engine of a location apart. The user name belongs to it: of an
/// Azure location it is the container. A local location has no authority, so
/// that all local tables share one engine.
pub fn engine_key(url: &TableUrl, config: &DeltaStorageConfig) -> (k: EngineKey)
    ensures
        k@ == key_of(url.parts(), config@),
{
    let plain: String = match (&url.host, url.port) {
        (Some(h), Some(p)) => {
            let digits: String = decimal(p as u64);
            concat3(h.as_str(), ":", digits.as_str())
        },
        (Some(h), None) => h.clone(),
        _ => {
            proof {
                reveal_strlit("");
                assert(""@ =~= Seq::<char>::empty());
            }
            "".to_owned()
        },
    };
    let authority: String = if url.username.as_str().is_empty() {
        plain
    } else {
        concat3(url.username.as_str(), "@", plain.as_str())
    };
    EngineKey { scheme: url.scheme.clone(), authority, config: config.duplicate() }
}

/// An engine that is kept, with when it was last used.
pub struct EngineEntry<E> {
    pub key: EngineKey,
    pub engine: E,
    pub stamp: u64,
}

/// The engines that are kept.
pub struct EngineCacheState<E> {
    entries: Vec<EngineEntry<E>>,
    counter: u64,
}

/// No two entries have the same key.
pub open spec fn distinct_keys<E>(v: Seq<EngineEntry<E>>) -> bool {
    forall|i: int, j: int|
        0 <= i < j < v.len() ==> (#[trigger] v[i]).key@ != (#[trigger] v[j]).key@
}

/// An entry has the key.
pub open spec fn holds_key<E>(v: Seq<EngineEntry<E>>, k: EngineKeyState) -> bool {
    exists|i: int| 0 <= i < v.len() && (#[trigger] v[i]).key@ == k
}

/// The position of the entry with the key.
pub open spec fn key_position<E>(v: Seq<EngineEntry<E>>, k: EngineKeyState) -> int {
    choose|i: int| 0 <= i < v.len() && (#[trigger] v[i]).key@ == k
}

/// Each key with its engine and when it was last used.
pub open spec fn entries_map<E>(v: Seq<EngineEntry<E>>) -> Map<EngineKeyState, (E, u64)> {
    Map::new(
        |k: EngineKeyState| holds_key(v, k),
        |k: EngineKeyState| (v[key_position(v, k)].engine, v[key_position(v, k)].stamp),
    )
}

proof fn lemma_entry<E>(v: Seq<EngineEntry<E>>, i: int)
    requires
        distinct_keys(v),
        0 <= i < v.len(),
    ensures
        entries_map(v).contains_key(v[i].key@),
        entries_map(v)[v[i].key@] == (v[i].engine, v[i].stamp),
        key_position(v, v[i].key@) == i,
{
    let k = v[i].key@;
    assert(holds_key(v, k));
    let j = key_position(v, k);
    assert(0 <= j < v.len() && v[j].key@ == k);
    if j < i {
        assert(v[j].key@ != v[i].key@);
    } else if i < j {
        assert(v[i].key@ != v[j].key@);
    }
}

proof fn lemma_count<E>(v: Seq<EngineEntry<E>>)
    requires
        distinct_keys(v),
    ensures
        entries_map(v).dom().finite(),
        entries_map(v).dom().len() == v.len(),
{
    let keys = Seq::new(v.len(), |i: int| v[i].key@);
    assert(keys.no_duplicates()) by {
        assert forall|i: int, j: int| 0 <= i < keys.len() && 0 <= j < keys.len() && i != j implies
            keys[i] != keys[j] by {
            if i < j {
                assert(v[i].key@ != v[j].key@);
            } else {
                assert(v[j].key@ != v[i].key@);
            }
        }
    }
    keys.unique_seq_to_set();
    assert(entries_map(v).dom() =~= keys.to_set()) by {
        assert forall|k: EngineKeyState| keys.to_set().contains(k) == #[trigger] entries_map(
            v,
        ).dom().contains(k) by {
            if holds_key(v, k) {
                let i = key_position(v, k);
                assert(keys[i] == k);
            }
            if keys.contains(k) {
                let i = choose|i: int| 0 <= i < keys.len() && keys[i] == k;
                assert(v[i].key@ == k);
            }
        }
    }
}

/// The entry whose key is `k` was used no later than any other.
pub open spec fn least_recent<E>(m: Map<EngineKeyState, (E, u64)>, k: EngineKeyState) -> bool {
    m.contains_key(k) && forall|o: EngineKeyState| #[trigger]
        m.contains_key(o) ==> m[k].1 <= m[o].1
}

/// What is left once room has been made for one more: everything, or where the
/// cache was full, everything but a least recently used one.
pub open spec fn room_made<E>(
    before: Map<EngineKeyState, (E, u64)>,
    after: Map<EngineKeyState, (E, u64)>,
) -> bool {
    if before.dom().len() < MAX_CACHE_ENTRIES {
        after == before
    } else {
        exists|k: EngineKeyState| #[trigger] least_recent(before, k) && after == before.remove(k)
    }
}

impl<E> EngineCacheState<E> {
    /// Each key with its engine and when it was last used.
    pub closed spec fn map(self) -> Map<EngineKeyState, (E, u64)> {
        entries_map(self.entries@)
    }

    /// The time of the last request.
    pub closed spec fn now(self) -> u64 {
        self.counter
    }

    #[verifier::type_invariant]
    spec fn wf(self) -> bool {
        distinct_keys(self.entries@) && self.entries@.len() <= MAX_CACHE_ENTRIES
    }

    /// No engine is kept.
    pub fn new() -> (c: EngineCacheState<E>)
        ensures
            c.map() == Map::<EngineKeyState, (E, u64)>::empty(),
            c.now() == 0,
    {
        let c = EngineCacheState { entries: Vec::new(), counter: 0 };
        assert(c.map() =~= Map::<EngineKeyState, (E, u64)>::empty());
        c
    }

    /// How many engines are kept: never more than the bound.
    pub fn len(&self) -> (n: usize)
        ensures
            n == self.map().dom().len(),
            self.map().dom().finite(),
            n <= MAX_CACHE_ENTRIES,
    {
        proof {
            use_type_invariant(self);
            lemma_count(self.entries@);
        }
        self.entries.len()
    }

    fn find(&self, key: &EngineKey) -> (r: Option<usize>)
        ensures
            match r {
                Some(i) => i < self.entries@.len() && self.entries@[i as int].key@ == key@,
                None => !holds_key(self.entries@, key@),
            },
    {
        let mut i: usize = 0;
        while i < self.entries.len()
            invariant
                i <= self.entries@.len(),
                forall|j: int| 0 <= j < i ==> (#[trigger] self.entries@[j]).key@ != key@,
            decreases self.entries@.len() - i,
        {
            if self.entries[i].key.same_as(key) {
                return Some(i);
            }
            i = i + 1;
        }
        None
    }

    /// The engine with a key.
    pub fn get(&self, key: &EngineKey) -> (r: Option<&E>)
        ensures
            match r {
                Some(e) => self.map().contains_key(key@) && *e == self.map()[key@].0,
                None => !self.map().contains_key(key@),
            },
    {
        match self.find(key) {
            Some(i) => {
                proof {
                    use_type_invariant(self);
                    lemma_entry(self.entries@, i as int);
                }
                Some(&self.entries[i].engine)
            },
            None => None,
        }
    }

    /// The position of a least recently used entry.
    fn victim(&self) -> (v: usize)
        requires
            self.entries@.len() > 0,
        ensures
            v < self.entries@.len(),
            forall|j: int|
                0 <= j < self.entries@.len() ==> self.entries@[v as int].stamp <= (
                #[trigger] self.entries@[j]).stamp,
    {
        let mut v: usize = 0;
        let mut i: usize = 1;
        while i < self.entries.len()
            invariant
                1 <= i <= self.entries@.len(),
                v < i,
                forall|j: int|
                    0 <= j < i ==> self.entries@[v as int].stamp <= (
                    #[trigger] self.entries@[j]).stamp,
            decreases self.entries@.len() - i,
        {
            if self.entries[i].stamp < self.entries[v].stamp {
                v = i;
            }
            i = i + 1;
        }
        v
    }

    /// A request for an engine. Where it is kept, it counts as used now. Where it
    /// is not, and the cache is full, a least recently used one leaves, so that
    /// there is room for the one that the caller builds.
    pub fn request(&mut self, key: &EngineKey) -> (hit: bool)
        ensures
            final(self).now() == (old(self).now() as int + 1) % 0x1_0000_0000_0000_0000,
            hit == old(self).map().contains_key(key@),
            hit ==> final(self).map() == old(self).map().insert(
                key@,
                (old(self).map()[key@].0, final(self).now()),
            ),
            !hit ==> room_made(old(self).map(), final(self).map()),
            !hit ==> final(self).map().dom().len() < MAX_CACHE_ENTRIES,
            !hit ==> !final(self).map().contains_key(key@),
    {
        proof {
            use_type_invariant(&*self);
        }
        let ghost before = self.entries@;
        let now: u64 = self.counter.wrapping_add(1);
        self.counter = now;
        match self.find(key) {
            Some(i) => {
                proof {
                    lemma_entry(before, i as int);
                }
                let mut entries: Vec<EngineEntry<E>> = Vec::new();
                std::mem::swap(&mut entries, &mut self.entries);
                entries[i].stamp = now;
                proof {
                    lemma_restamped(before, entries@, i as int, now);
                }
                self.entries = entries;
                true
            },
            None => {
                proof {
                    lemma_count(before);
                }
                if self.entries.len() >= MAX_CACHE_ENTRIES {
                    let v: usize = self.victim();
                    let mut entries: Vec<EngineEntry<E>> = Vec::new();
                    std::mem::swap(&mut entries, &mut self.entries);
                    entries.remove(v);
                    proof {
                        lemma_dropped(before, entries@, v as int);
                        lemma_count(entries@);
                    }
                    self.entries = entries;
                }
                false
            },
        }
    }

    /// Keeps an engine that was built for a request that found none.
    pub fn insert(&mut self, key: EngineKey, engine: E)
        requires
            !old(self).map().contains_key(key@),
            old(self).map().dom().len() < MAX_CACHE_ENTRIES,
        ensures
            final(self).now() == old(self).now(),
            final(self).map() == old(self).map().insert(key@, (engine, old(self).now())),
    {
        proof {
            use_type_invariant(&*self);
            lemma_count(self.entries@);
        }
        let ghost before = self.entries@;
        let entry = EngineEntry { key, engine, stamp: self.counter };
        proof {
            lemma_added(before, entry);
        }
        let mut entries: Vec<EngineEntry<E>> = Vec::new();
        std::mem::swap(&mut entries, &mut self.entries);
        entries.push(entry);
        self.entries = entries;
    }

    /// Forgets every engine.
    pub fn clear(&mut self)
        ensures
            final(self).map() == Map::<EngineKeyState, (E, u64)>::empty(),
            final(self).now() == 0,
    {
        *self = EngineCacheState::new();
    }
}

proof fn lemma_restamped<E>(
    a: Seq<EngineEntry<E>>,
    b: Seq<EngineEntry<E>>,
    i: int,
    now: u64,
)
    requires
        distinct_keys(a),
        0 <= i < a.len(),
        b == a.update(i, EngineEntry { stamp: now, ..a[i] }),
    ensures
        distinct_keys(b),
        entries_map(b) == entries_map(a).insert(a[i].key@, (a[i].engine, now)),
{
    assert forall|j: int| 0 <= j < a.len() implies (#[trigger] b[j]).key@ == a[j].key@ by {}
    assert(distinct_keys(b)) by {
        assert forall|j: int, k: int| 0 <= j < k < b.len() implies (#[trigger] b[j]).key@ != (
        #[trigger] b[k]).key@ by {
            assert(a[j].key@ != a[k].key@);
        }
    }
    let want = entries_map(a).insert(a[i].key@, (a[i].engine, now));
    assert forall|k: EngineKeyState| #[trigger]
        entries_map(b).contains_key(k) == want.contains_key(k) && (want.contains_key(k)
            ==> entries_map(b)[k] == want[k]) by {
        if holds_key(b, k) {
            let j = key_position(b, k);
            lemma_entry(b, j);
            lemma_entry(a, j);
            assert(a[j].key@ == k);
        }
        if holds_key(a, k) {
            let j = key_position(a, k);
            lemma_entry(a, j);
            assert(b[j].key@ == k);
        }
        lemma_entry(a, i);
    }
    assert(entries_map(b) =~= want);
}

proof fn lemma_dropped<E>(a: Seq<EngineEntry<E>>, b: Seq<EngineEntry<E>>, v: int)
    requires
        distinct_keys(a),
        0 <= v < a.len(),
        b == a.remove(v),
        forall|j: int| 0 <= j < a.len() ==> a[v].stamp <= (#[trigger] a[j]).stamp,
    ensures
        distinct_keys(b),
        entries_map(b) == entries_map(a).remove(a[v].key@),
        least_recent(entries_map(a), a[v].key@),
{
    assert(distinct_keys(b)) by {
        assert forall|j: int, k: int| 0 <= j < k < b.len() implies (#[trigger] b[j]).key@ != (
        #[trigger] b[k]).key@ by {
            let p = if j < v {
                j
            } else {
                j + 1
            };
            let q = if k < v {
                k
            } else {
                k + 1
            };
            assert(a[p].key@ != a[q].key@);
        }
    }
    let want = entries_map(a).remove(a[v].key@);
    lemma_entry(a, v);
    assert forall|k: EngineKeyState| #[trigger]
        entries_map(b).contains_key(k) == want.contains_key(k) && (want.contains_key(k)
            ==> entries_map(b)[k] == want[k]) by {
        if holds_key(b, k) {
            let j = key_position(b, k);
            let p = if j < v {
                j
            } else {
                j + 1
            };
            lemma_entry(b, j);
            lemma_entry(a, p);
            assert(a[p].key@ == k && p != v);
        }
        if holds_key(a, k) && k != a[v].key@ {
            let p = key_position(a, k);
            lemma_entry(a, p);
            let j = if p < v {
                p
            } else {
                p - 1
            };
            assert(b[j].key@ == k);
        }
    }
    assert(entries_map(b) =~= want);
    assert forall|o: EngineKeyState| #[trigger] entries_map(a).contains_key(o) implies entries_map(
        a,
    )[a[v].key@].1 <= entries_map(a)[o].1 by {
        let j = key_position(a, o);
        assert(a[j].key@ == o);
    }
}

proof fn lemma_added<E>(a: Seq<EngineEntry<E>>, e: EngineEntry<E>)
    requires
        distinct_keys(a),
        !holds_key(a, e.key@),
    ensures
        distinct_keys(a.push(e)),
        entries_map(a.push(e)) == entries_map(a).insert(e.key@, (e.engine, e.stamp)),
{
    let b = a.push(e);
    assert(distinct_keys(b)) by {
        assert forall|j: int, k: int| 0 <= j < k < b.len() implies (#[trigger] b[j]).key@ != (
        #[trigger] b[k]).key@ by {
            if k == a.len() {
                assert(a[j].key@ != e.key@);
            } else {
                assert(a[j].key@ != a[k].key@);
            }
        }
    }
    let want = entries_map(a).insert(e.key@, (e.engine, e.stamp));
    lemma_entry(b, a.len() as int);
    assert forall|k: EngineKeyState| #[trigger]
        entries_map(b).contains_key(k) == want.contains_key(k) && (want.contains_key(k)
            ==> entries_map(b)[k] == want[k]) by {
        if holds_key(b, k) {
            let j = key_position(b, k);
            lemma_entry(b, j);
            if j < a.len() {
                lemma_entry(a, j);
                assert(a[j].key@ == k);
            }
        }
        if holds_key(a, k) {
            let j = key_position(a, k);
            lemma_entry(a, j);
            assert(b[j].key@ == k);
        }
    }
    assert(entries_map(b) =~= want);
}

/// Different credentials never share an engine.
pub proof fn credentials_tell_engines_apart(
    u: UrlParts,
    v: UrlParts,
    a: StorageState,
    b: StorageState,
)
    requires
        a != b,
    ensures
        key_of(u, a) != key_of(v, b),
{
}

/// The path of a location has no say in which engine serves it: two locations
/// that differ in the path alone share one.
pub proof fn path_does_not_tell_engines_apart(
    u: UrlParts,
    href: Seq<char>,
    path: Seq<char>,
    c: StorageState,
)
    ensures
        key_of((href, u.1, u.2, u.3, u.4, path), c) == key_of(u, c),
{
}

/// All local locations share one engine, whatever their paths.
pub proof fn local_locations_share_an_engine(u: UrlParts, v: UrlParts, c: StorageState)
    requires
        u.1 == v.1,
        u.2.len() == 0 && v.2.len() == 0,
        u.3 is None && v.3 is None,
    ensures
        key_of(u, c) == key_of(v, c),
{
}

/// Two buckets never share an engine: locations of one scheme, with no user name
/// and no port, share one only where the hosts are the same.
pub proof fn buckets_tell_engines_apart(
    u: UrlParts,
    v: UrlParts,
    c: StorageState,
)
    requires
        u.2.len() == 0 && v.2.len() == 0,
        u.4 is None && v.4 is None,
        u.3 is Some && v.3 is Some,
        u.3 != v.3,
    ensures
        key_of(u, c) != key_of(v, c),
{
}

/// Two containers of one account never share an engine.
pub proof fn containers_tell_engines_apart(u: UrlParts, v: UrlParts, c: StorageState)
    requires
        u.2.len() > 0 && v.2.len() > 0,
        u.2 != v.2,
        u.3 == v.3,
        u.4 == v.4,
    ensures
        key_of(u, c) != key_of(v, c),
{
    let a = authority_of(u);
    let b = authority_of(v);
    let rest = "@"@ + host_and_port(u.3, u.4);
    assert(a =~= u.2 + rest);
    assert(b =~= v.2 + rest);
    if a == b {
        assert(u.2.len() == v.2.len());
        assert(u.2 =~= a.take(u.2.len() as int));
        assert(v.2 =~= b.take(v.2.len() as int));
    }
}

/// Two ports of one host never share an engine, nor does a port with none.
pub proof fn ports_tell_engines_apart(u: UrlParts, v: UrlParts, c: StorageState)
    requires
        u.2 == v.2,
        u.3 is Some,
        u.3 == v.3,
        u.4 != v.4,
    ensures
        key_of(u, c) != key_of(v, c),
{
    reveal_strlit(":");
    let h = u.3->0;
    let a = host_and_port(u.3, u.4);
    let b = host_and_port(v.3, v.4);
    if a == b {
        match (u.4, v.4) {
            (Some(p), Some(q)) => {
                let n = h.len() + 1;
                assert(a.skip(n as int) =~= decimal_text(p as nat));
                assert(b.skip(n as int) =~= decimal_text(q as nat));
                crate::text::decimal_text_is_injective(p as nat, q as nat);
            },
            _ => {
                assert(a.len() != b.len());
            },
        }
    }
    if u.2.len() > 0 {
        let n = u.2.len() + "@"@.len();
        assert(authority_of(u).skip(n as int) =~= a);
        assert(authority_of(v).skip(n as int) =~= b);
    }
}

/// Hosts with their ports read alike only where they are the same.
proof fn lemma_host_and_port(u: UrlParts, v: UrlParts)
    requires
        tidy(u),
        tidy(v),
        host_and_port(u.3, u.4) == host_and_port(v.3, v.4),
    ensures
        u.3 == v.3,
        u.4 == v.4,
{
    reveal_strlit(":");
    let a = host_and_port(u.3, u.4);
    match (u.3, v.3) {
        (Some(g), Some(h)) => match (u.4, v.4) {
            (Some(p), Some(q)) => {
                let x = decimal_text(p as nat);
                let y = decimal_text(q as nat);
                crate::text::decimal_text_has_digits_alone(p as nat);
                crate::text::decimal_text_has_digits_alone(q as nat);
                let b = host_and_port(v.3, v.4);
                assert(a == g + ":"@ + x);
                assert(b == h + ":"@ + y);
                assert(a[g.len() as int] == ':');
                assert(b[h.len() as int] == ':');
                assert(a.len() == g.len() + 1 + x.len());
                assert(b.len() == h.len() + 1 + y.len());
                if g.len() < h.len() {
                    assert(a[h.len() as int] == x[h.len() - g.len() - 1]);
                } else if h.len() < g.len() {
                    assert(b[g.len() as int] == y[g.len() - h.len() - 1]);
                }
                assert(g =~= a.take(g.len() as int));
                assert(h =~= a.take(h.len() as int));
                assert(x =~= a.skip(g.len() + 1int));
                assert(y =~= a.skip(h.len() + 1int));
                crate::text::decimal_text_is_injective(p as nat, q as nat);
            },
            (Some(p), None) => {
                let x = decimal_text(p as nat);
                crate::text::decimal_text_has_digits_alone(p as nat);
                assert(h[g.len() as int] == ':');
                assert(h.contains(':'));
                assert(h.last() == x.last());
            },
            (None, Some(q)) => {
                let y = decimal_text(q as nat);
                crate::text::decimal_text_has_digits_alone(q as nat);
                assert(g[h.len() as int] == ':');
                assert(g.contains(':'));
                assert(g.last() == y.last());
            },
            (None, None) => {},
        },
        (Some(g), None) => {
            assert(a.len() == 0);
        },
        (None, Some(h)) => {
            assert(a.len() == 0);
        },
        (None, None) => {},
    }
}

/// A host with its port has no `@` in it.
proof fn lemma_no_at(u: UrlParts)
    requires
        tidy(u),
    ensures
        !host_and_port(u.3, u.4).contains('@'),
{
    reveal_strlit(":");
    let a = host_and_port(u.3, u.4);
    if a.contains('@') {
        let i = choose|i: int| 0 <= i < a.len() && a[i] == '@';
        let h = u.3->0;
        if i < h.len() {
            assert(h[i] == '@');
        } else {
            let p = u.4->0;
            crate::text::decimal_text_has_digits_alone(p as nat);
            if i > h.len() {
                assert(a[i] == decimal_text(p as nat)[i - h.len() - 1]);
            }
        }
    }
}

/// Two locations share an engine exactly where they have the same scheme, user name, host
/// and port, and the same credentials. The path and the query have no say.
pub proof fn engines_are_told_apart_by_place_and_credentials(
    u: UrlParts,
    v: UrlParts,
    a: StorageState,
    b: StorageState,
)
    requires
        tidy(u),
        tidy(v),
    ensures
        key_of(u, a) == key_of(v, b) <==> same_place(u, v) && a == b,
{
    reveal_strlit("@");
    if key_of(u, a) == key_of(v, b) {
        let x = authority_of(u);
        let y = authority_of(v);
        let g = host_and_port(u.3, u.4);
        let h = host_and_port(v.3, v.4);
        lemma_no_at(u);
        lemma_no_at(v);
        let m = u.2.len() as int;
        let n = v.2.len() as int;
        if m > 0 {
            assert(x[m] == '@');
        }
        if n > 0 {
            assert(y[n] == '@');
        }
        if m > 0 && n > 0 {
            if m < n {
                assert(v.2[m] == '@');
            } else if n < m {
                assert(u.2[n] == '@');
            }
            assert(u.2 =~= x.take(m));
            assert(v.2 =~= y.take(n));
            assert(g =~= x.skip(m + 1));
            assert(h =~= y.skip(n + 1));
        } else if m > 0 {
            assert(h[m] == '@');
        } else if n > 0 {
            assert(g[n] == '@');
        } else {
            assert(u.2 =~= v.2);
        }
        lemma_host_and_port(u, v);
    }
}

/// An engine that was used after another one that is kept is not the one that
/// leaves to make room.
pub proof fn recently_used_engine_stays<E>(
    m: Map<EngineKeyState, (E, u64)>,
    after: Map<EngineKeyState, (E, u64)>,
    k: EngineKeyState,
    other: EngineKeyState,
)
    requires
        m.contains_key(k),
        m.contains_key(other),
        m[other].1 < m[k].1,
        room_made(m, after),
    ensures
        after.contains_key(k),
        after[k] == m[k],
{
}

/// An engine that was built for one location and its credentials serves another exactly
/// where the two have the same scheme, authority and credentials.
pub proof fn an_engine_is_shared_exactly_where_the_keys_are_equal<E>(
    m: Map<EngineKeyState, (E, u64)>,
    u: UrlParts,
    a: StorageState,
    v: UrlParts,
    b: StorageState,
    engine: E,
    now: u64,
)
    requires
        !m.contains_key(key_of(u, a)),
        !m.contains_key(key_of(v, b)),
    ensures
        ({
            let after = m.insert(key_of(u, a), (engine, now));
            let other = key_of(v, b);
            &&& after.contains_key(other) <==> u.1 == v.1 && authority_of(u) == authority_of(v)
                && a == b
            &&& after.contains_key(other) ==> after[other].0 == engine
        }),
{
}

/// What a call for an engine makes of the cache: an engine that is kept counts as used
/// now, and one that is not is built and kept once there is room for it.
pub open spec fn called<E>(
    m: Map<EngineKeyState, (E, u64)>,
    now: u64,
    k: EngineKeyState,
    after: Map<EngineKeyState, (E, u64)>,
) -> bool {
    if m.contains_key(k) {
        after == m.insert(k, (m[k].0, now))
    } else {
        exists|room: Map<EngineKeyState, (E, u64)>, engine: E| #[trigger]
            built(m, room, k, engine, now, after)
    }
}

/// Room was made, and an engine was kept in it.
pub open spec fn built<E>(
    m: Map<EngineKeyState, (E, u64)>,
    room: Map<EngineKeyState, (E, u64)>,
    k: EngineKeyState,
    engine: E,
    now: u64,
    after: Map<EngineKeyState, (E, u64)>,
) -> bool {
    room_made(m, room) && after == room.insert(k, (engine, now))
}

/// The cache has no more entries than it may, each was used at another time, and none
/// after `now`.
pub open spec fn in_use<E>(m: Map<EngineKeyState, (E, u64)>, now: int) -> bool {
    &&& m.dom().finite()
    &&& m.dom().len() <= MAX_CACHE_ENTRIES
    &&& forall|o: EngineKeyState| #[trigger] m.contains_key(o) ==> m[o].1 <= now
    &&& forall|o: EngineKeyState, p: EngineKeyState|
        #[trigger] m.contains_key(o) && #[trigger] m.contains_key(p) && o != p ==> m[o].1
            != m[p].1
}

/// What a run of calls keeps, up to its first `n`.
proof fn lemma_run<E>(
    states: Seq<Map<EngineKeyState, (E, u64)>>,
    keys: Seq<EngineKeyState>,
    start: u64,
    k: EngineKeyState,
    n: int,
)
    requires
        states.len() == keys.len() + 1,
        start + keys.len() <= u64::MAX,
        in_use(states[0], start as int),
        states[0].contains_key(k),
        states[0][k].1 == start,
        forall|i: int|
            0 <= i < keys.len() ==> #[trigger] called(
                states[i],
                (start + i + 1) as u64,
                keys[i],
                states[i + 1],
            ),
        keys.to_set().remove(k).len() < MAX_CACHE_ENTRIES,
        0 <= n <= keys.len(),
    ensures
        in_use(states[n], start + n),
        states[n].contains_key(k),
        states[n][k].0 == states[0][k].0,
        states[n][k].1 >= start,
        forall|o: EngineKeyState| #[trigger]
            states[n].contains_key(o) && o != k && states[n][o].1 > start ==> keys.take(
                n,
            ).contains(o),
    decreases n,
{
    if n > 0 {
        lemma_run(states, keys, start, k, n - 1);
        let m = states[n - 1];
        let after = states[n];
        let x = keys[n - 1];
        let now = (start + n) as u64;
        assert(called(m, (start + (n - 1) + 1) as u64, x, states[(n - 1) + 1]));
        assert(keys.take(n)[n - 1] == x);
        assert forall|o: EngineKeyState| keys.take(n - 1).contains(o) implies #[trigger] keys.take(
            n,
        ).contains(o) by {
            let before = keys.take(n - 1);
            let j = choose|j: int| 0 <= j < before.len() && before[j] == o;
            assert(keys.take(n)[j] == o);
        }
        if m.contains_key(x) {
            assert(after.dom() =~= m.dom());
        } else {
            let (room, engine) = choose|room: Map<EngineKeyState, (E, u64)>, engine: E|
                #[trigger] built(m, room, x, engine, now, after);
            assert(after == room.insert(x, (engine, now)));
            if m.dom().len() < MAX_CACHE_ENTRIES {
                assert(room == m);
            } else {
                let l = choose|l: EngineKeyState| #[trigger] least_recent(m, l) && room == m.remove(
                    l,
                );
                assert(room.dom() =~= m.dom().remove(l));
                if l == k {
                    lemma_too_many(m, keys, start, k, n);
                }
            }
            assert(after.dom() =~= room.dom().insert(x));
        }
    }
}

/// Where the engine that was used last at `start` or later is the least recently used of a
/// full cache, more other engines were used since than there is room for.
proof fn lemma_too_many<E>(
    m: Map<EngineKeyState, (E, u64)>,
    keys: Seq<EngineKeyState>,
    start: u64,
    k: EngineKeyState,
    n: int,
)
    requires
        0 < n <= keys.len(),
        in_use(m, start + n - 1),
        m.dom().len() >= MAX_CACHE_ENTRIES,
        least_recent(m, k),
        m[k].1 >= start,
        !m.contains_key(keys[n - 1]),
        forall|o: EngineKeyState| #[trigger]
            m.contains_key(o) && o != k && m[o].1 > start ==> keys.take(n - 1).contains(o),
    ensures
        keys.to_set().remove(k).len() >= MAX_CACHE_ENTRIES,
{
    let x = keys[n - 1];
    let others = m.dom().remove(k).insert(x);
    let used = keys.to_set().remove(k);
    assert forall|o: EngineKeyState| #[trigger] others.contains(o) implies used.contains(o) by {
        if o == x {
            assert(keys.contains(x));
        } else {
            assert(m.contains_key(o));
            assert(m[k].1 != m[o].1);
            let before = keys.take(n - 1);
            let j = choose|j: int| 0 <= j < before.len() && before[j] == o;
            assert(keys[j] == o);
            assert(keys.contains(o));
        }
    }
    vstd::seq_lib::seq_to_set_is_finite(keys);
    vstd::set_lib::lemma_len_subset(others, used);
}

/// An engine stays through any run of calls in which fewer other engines are called for
/// than the cache has room for: one that was used among the last ones is still there.
pub proof fn an_engine_in_use_stays<E>(
    states: Seq<Map<EngineKeyState, (E, u64)>>,
    keys: Seq<EngineKeyState>,
    start: u64,
    k: EngineKeyState,
)
    requires
        states.len() == keys.len() + 1,
        start + keys.len() <= u64::MAX,
        in_use(states[0], start as int),
        states[0].contains_key(k),
        states[0][k].1 == start,
        forall|i: int|
            0 <= i < keys.len() ==> #[trigger] called(
                states[i],
                (start + i + 1) as u64,
                keys[i],
                states[i + 1],
            ),
        keys.to_set().remove(k).len() < MAX_CACHE_ENTRIES,
    ensures
        states.last().contains_key(k),
        states.last()[k].0 == states[0][k].0,
        in_use(states.last(), start + keys.len()),
{
    lemma_run(states, keys, start, k, keys.len() as int);
}

/// While an engine is kept that is not called for, so is every one that was called for.
proof fn lemma_called_stay<E>(
    states: Seq<Map<EngineKeyState, (E, u64)>>,
    keys: Seq<EngineKeyState>,
    start: u64,
    k: EngineKeyState,
    n: int,
)
    requires
        states.len() == keys.len() + 1,
        start + keys.len() <= u64::MAX,
        in_use(states[0], start as int),
        states[0].contains_key(k),
        states[0][k].1 == start,
        forall|i: int|
            0 <= i < keys.len() ==> #[trigger] called(
                states[i],
                (start + i + 1) as u64,
                keys[i],
                states[i + 1],
            ),
        !keys.contains(k),
        0 <= n <= keys.len(),
    ensures
        in_use(states[n], start + n),
        states[n].contains_key(k) ==> states[n][k].1 == start && forall|o: EngineKeyState|
            #[trigger] keys.take(n).contains(o) ==> states[n].contains_key(o) && states[n][o].1
                > start,
    decreases n,
{
    if n > 0 {
        lemma_called_stay(states, keys, start, k, n - 1);
        let m = states[n - 1];
        let after = states[n];
        let x = keys[n - 1];
        let now = (start + n) as u64;
        assert(called(m, (start + (n - 1) + 1) as u64, x, states[(n - 1) + 1]));
        assert(keys.contains(x));
        assert forall|o: EngineKeyState| #[trigger] keys.take(n).contains(o) implies keys.take(
            n - 1,
        ).contains(o) || o == x by {
            let all = keys.take(n);
            let j = choose|j: int| 0 <= j < all.len() && all[j] == o;
            if j < n - 1 {
                assert(keys.take(n - 1)[j] == o);
            }
        }
        if m.contains_key(x) {
            assert(after.dom() =~= m.dom());
        } else {
            let (room, engine) = choose|room: Map<EngineKeyState, (E, u64)>, engine: E|
                #[trigger] built(m, room, x, engine, now, after);
            assert(after == room.insert(x, (engine, now)));
            if m.dom().len() < MAX_CACHE_ENTRIES {
                assert(room == m);
            } else {
                let l = choose|l: EngineKeyState| #[trigger] least_recent(m, l) && room == m.remove(
                    l,
                );
                assert(room.dom() =~= m.dom().remove(l));
            }
            assert(after.dom() =~= room.dom().insert(x));
        }
    }
}

/// After a run of calls for other engines an engine is still there exactly where fewer of
/// them were called for than the cache has room for; it is then the same engine. Calls that
/// find their engine count as well as those that build it, and there are never more engines
/// than there is room for.
pub proof fn an_engine_stays_exactly_while_few_others_are_used<E>(
    states: Seq<Map<EngineKeyState, (E, u64)>>,
    keys: Seq<EngineKeyState>,
    start: u64,
    k: EngineKeyState,
)
    requires
        states.len() == keys.len() + 1,
        start + keys.len() <= u64::MAX,
        in_use(states[0], start as int),
        states[0].contains_key(k),
        states[0][k].1 == start,
        forall|i: int|
            0 <= i < keys.len() ==> #[trigger] called(
                states[i],
                (start + i + 1) as u64,
                keys[i],
                states[i + 1],
            ),
        !keys.contains(k),
    ensures
        states.last().contains_key(k) <==> keys.to_set().len() < MAX_CACHE_ENTRIES,
        states.last().contains_key(k) ==> states.last()[k].0 == states[0][k].0,
        forall|i: int|
            0 <= i < states.len() ==> (#[trigger] states[i]).dom().len() <= MAX_CACHE_ENTRIES,
{
    let n = keys.len() as int;
    let used = keys.to_set();
    assert(used.remove(k) =~= used);
    vstd::seq_lib::seq_to_set_is_finite(keys);
    if used.len() < MAX_CACHE_ENTRIES {
        lemma_run(states, keys, start, k, n);
    } else {
        lemma_called_stay(states, keys, start, k, n);
        let end = states.last();
        if end.contains_key(k) {
            assert(keys.take(n) =~= keys);
            assert forall|o: EngineKeyState| #[trigger] used.insert(k).contains(o) implies
                end.dom().contains(o) by {
                if o != k {
                    assert(keys.take(n).contains(o));
                }
            }
            vstd::set_lib::lemma_len_subset(used.insert(k), end.dom());
        }
    }
    assert forall|i: int| 0 <= i < states.len() implies (#[trigger] states[i]).dom().len()
        <= MAX_CACHE_ENTRIES by {
        lemma_called_stay(states, keys, start, k, i);
    }
}

} // verus!
