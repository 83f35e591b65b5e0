//! Keeps idle WebSocket connections at hand. `T` stands for a connection.

use std::collections::HashMap;

use vstd::prelude::*;

use crate::proxy::bridge;
use crate::proxy::stats::Stats;
use crate::proxy::text;
use crate::proxy::text::{decimal_text, same_text};
use crate::proxy::utils;
use crate::proxy::utils::{dc_default_ips, ws_domains};

verus! {

/// How long an idle connection can be used: 120 seconds, in nanoseconds.
pub const MAX_IDLE_NS: u64 = 120_000_000_000;

/// What a connection in a pool is for: a data centre, for media or not, or a data centre behind a
/// Cloudflare worker.
#[derive(Debug)]
pub enum PoolKey {
    Dc(u32, bool),
    Worker(u32, String),
}

/// A `PoolKey` with the worker's domain by its characters.
pub enum PoolKeyView {
    Dc(u32, bool),
    Worker(u32, Seq<char>),
}

impl View for PoolKey {
    type V = PoolKeyView;

    open spec fn view(&self) -> PoolKeyView {
        match *self {
            PoolKey::Dc(dc, is_media) => PoolKeyView::Dc(dc, is_media),
            PoolKey::Worker(dc, domain) => PoolKeyView::Worker(dc, domain@),
        }
    }
}

impl PoolKey {
    fn same(&self, other: &PoolKey) -> (same: bool)
        ensures
            same == (self@ == other@),
    {
        match self {
            PoolKey::Dc(dc, is_media) => match other {
                PoolKey::Dc(other_dc, other_media) => *dc == *other_dc && *is_media
                    == *other_media,
                PoolKey::Worker(_, _) => false,
            },
            PoolKey::Worker(dc, domain) => match other {
                PoolKey::Dc(_, _) => false,
                PoolKey::Worker(other_dc, other_domain) => *dc == *other_dc && same_text(
                    domain.as_str(),
                    other_domain.as_str(),
                ),
            },
        }
    }

    fn copy(&self) -> (out: PoolKey)
        ensures
            out@ == self@,
    {
        match self {
            PoolKey::Dc(dc, is_media) => PoolKey::Dc(*dc, *is_media),
            PoolKey::Worker(dc, domain) => PoolKey::Worker(*dc, domain.clone()),
        }
    }
}

/// An idle connection: what it is for, when it was put into the pool, in nanoseconds on the
/// machine's steady clock, and whether it was closed then.
#[derive(Debug)]
pub struct IdleEntry<T> {
    pub key: PoolKey,
    pub socket: T,
    pub created: u64,
    pub closed: bool,
}

impl<T> IdleEntry<T> {
    /// Whether the connection can still be used.
    pub open spec fn usable(self, now: u64) -> bool {
        now - self.created <= MAX_IDLE_NS && !self.closed
    }
}

/// The entries that are for `key`, oldest first.
pub open spec fn of_key<T>(entries: Seq<IdleEntry<T>>, key: PoolKeyView) -> Seq<IdleEntry<T>>
    decreases entries.len(),
{
    if entries.len() == 0 {
        Seq::empty()
    } else if entries.last().key@ == key {
        of_key(entries.drop_last(), key).push(entries.last())
    } else {
        of_key(entries.drop_last(), key)
    }
}

/// How many entries stand before the first one that can still be used.
pub open spec fn unusable_before<T>(entries: Seq<IdleEntry<T>>, now: u64) -> nat
    decreases entries.len(),
{
    if entries.len() == 0 || entries[0].usable(now) {
        0
    } else {
        1 + unusable_before(entries.drop_first(), now)
    }
}

/// The connections of some entries.
pub open spec fn sockets<T>(entries: Seq<IdleEntry<T>>) -> Seq<T> {
    entries.map_values(|e: IdleEntry<T>| e.socket)
}

/// The keys of a list.
pub open spec fn key_set(keys: Seq<PoolKey>) -> Set<PoolKeyView> {
    keys.map_values(|k: PoolKey| k@).to_set()
}

/// The connection that a pool gives out can still be used, and all that it closes cannot.
pub proof fn law_taken_is_usable<T>(entries: Seq<IdleEntry<T>>, now: u64)
    ensures
        unusable_before(entries, now) <= entries.len(),
        unusable_before(entries, now) < entries.len() ==> entries[unusable_before(
            entries,
            now,
        ) as int].usable(now),
        forall|i: int|
            0 <= i < unusable_before(entries, now) ==> !(#[trigger] entries[i]).usable(now),
    decreases entries.len(),
{
    if entries.len() > 0 && !entries[0].usable(now) {
        law_taken_is_usable(entries.drop_first(), now);
        assert forall|i: int| 0 <= i < unusable_before(entries, now) implies !(
        #[trigger] entries[i]).usable(now) by {
            if i > 0 {
                assert(entries[i] == entries.drop_first()[i - 1]);
            }
        }
    }
}

/// The entries of a key in two lists, one behind the other.
proof fn lemma_of_key_concat<T>(a: Seq<IdleEntry<T>>, b: Seq<IdleEntry<T>>, key: PoolKeyView)
    ensures
        of_key(a + b, key) == of_key(a, key) + of_key(b, key),
    decreases b.len(),
{
    if b.len() == 0 {
        assert(a + b =~= a);
        assert(of_key(a, key) + of_key(b, key) =~= of_key(a, key));
    } else {
        lemma_of_key_concat(a, b.drop_last(), key);
        assert((a + b).drop_last() =~= a + b.drop_last());
        assert((a + b).last() == b.last());
        assert(of_key(a + b, key) =~= of_key(a, key) + of_key(b, key));
    }
}

/// Where no entry is for `key`, `of_key` is empty.
proof fn lemma_of_key_none<T>(entries: Seq<IdleEntry<T>>, key: PoolKeyView)
    requires
        forall|i: int| 0 <= i < entries.len() ==> (#[trigger] entries[i]).key@ != key,
    ensures
        of_key(entries, key).len() == 0,
    decreases entries.len(),
{
    if entries.len() > 0 {
        assert(entries.last() == entries[entries.len() - 1]);
        lemma_of_key_none(entries.drop_last(), key);
    }
}

/// Taking out the first entry for `key` takes it out of the entries for `key`, and changes
/// nothing for any other key.
proof fn lemma_of_key_remove<T>(entries: Seq<IdleEntry<T>>, i: int, other: PoolKeyView)
    requires
        0 <= i < entries.len(),
        forall|j: int| 0 <= j < i ==> (#[trigger] entries[j]).key@ != entries[i].key@,
    ensures
        ({
            let key = entries[i].key@;
            let rest = entries.remove(i);
            &&& of_key(entries, key).len() > 0
            &&& of_key(entries, key)[0] == entries[i]
            &&& of_key(rest, key) == of_key(entries, key).drop_first()
            &&& other != key ==> of_key(rest, other) == of_key(entries, other)
        }),
{
    let key = entries[i].key@;
    let before = entries.take(i);
    let one = seq![entries[i]];
    let after = entries.skip(i + 1);
    assert(entries =~= before + one + after);
    assert(entries.remove(i) =~= before + after);
    assert forall|j: int| 0 <= j < before.len() implies (#[trigger] before[j]).key@ != key by {
        assert(before[j] == entries[j]);
    }
    lemma_of_key_none(before, key);
    lemma_of_key_concat(before + one, after, key);
    lemma_of_key_concat(before, one, key);
    lemma_of_key_concat(before, after, key);
    lemma_of_key_concat(before + one, after, other);
    lemma_of_key_concat(before, one, other);
    lemma_of_key_concat(before, after, other);
    assert(one.drop_last() =~= Seq::<IdleEntry<T>>::empty());
    assert(of_key(one.drop_last(), key) =~= Seq::<IdleEntry<T>>::empty());
    assert(of_key(one.drop_last(), other) =~= Seq::<IdleEntry<T>>::empty());
    assert(of_key(one, key) =~= one);
    if other != key {
        assert(of_key(one, other) =~= Seq::<IdleEntry<T>>::empty());
        assert(of_key(before, other) + of_key(one, other) =~= of_key(before, other));
    }
    assert(of_key(before, key) =~= Seq::<IdleEntry<T>>::empty());
    assert(of_key(entries, key) =~= one + of_key(after, key));
    assert(of_key(entries, key).drop_first() =~= of_key(after, key));
    assert(of_key(entries.remove(i), key) =~= of_key(after, key));
}

/// What a pool gives out: a connection, if it has one, and those that are to be closed.
#[derive(Debug)]
pub struct Taken<T> {
    pub socket: Option<T>,
    pub stale: Vec<T>,
    pub refill: bool,
}

/// The idle connections, and the keys for which new ones are being made.
#[derive(Debug)]
struct IdlePool<T> {
    idle: Vec<IdleEntry<T>>,
    refilling: Vec<PoolKey>,
}

impl<T> IdlePool<T> {
    /// The idle connections for a key, oldest first.
    spec fn idle_at(self, key: PoolKeyView) -> Seq<IdleEntry<T>> {
        of_key(self.idle@, key)
    }

    /// The keys for which new connections are being made.
    spec fn refills(self) -> Set<PoolKeyView> {
        key_set(self.refilling@)
    }

    fn empty() -> (pool: Self)
        ensures
            forall|key: PoolKeyView| (#[trigger] pool.idle_at(key)).len() == 0,
            pool.refills() == Set::<PoolKeyView>::empty(),
    {
        let pool = IdlePool { idle: Vec::new(), refilling: Vec::new() };
        assert(pool.refills() =~= Set::<PoolKeyView>::empty());
        pool
    }

    fn clear(&mut self)
        ensures
            forall|key: PoolKeyView| (#[trigger] final(self).idle_at(key)).len() == 0,
            final(self).refills() == Set::<PoolKeyView>::empty(),
    {
        self.idle.clear();
        self.refilling.clear();
        assert(self.refills() =~= Set::<PoolKeyView>::empty());
    }

    /// The position of the oldest idle connection for a key.
    fn find(&self, key: &PoolKey) -> (out: Option<usize>)
        ensures
            out is None ==> self.idle_at(key@).len() == 0,
            out matches Some(i) ==> {
                &&& i < self.idle@.len()
                &&& self.idle@[i as int].key@ == key@
                &&& forall|j: int| 0 <= j < i ==> (#[trigger] self.idle@[j]).key@ != key@
            },
    {
        let mut i: usize = 0;
        while i < self.idle.len()
            invariant
                i <= self.idle@.len(),
                forall|j: int| 0 <= j < i ==> (#[trigger] self.idle@[j]).key@ != key@,
            decreases self.idle@.len() - i,
        {
            if self.idle[i].key.same(key) {
                return Some(i);
            }
            i = i + 1;
        }
        proof {
            lemma_of_key_none(self.idle@, key@);
        }
        None
    }

    /// Takes the oldest usable connection for a key, and all older ones.
    #[verifier::rlimit(40)]
    fn take(&mut self, key: &PoolKey, now: u64) -> (out: (Option<T>, Vec<T>))
        ensures
            final(self).refills() == old(self).refills(),
            forall|other: PoolKeyView|
                other != key@ ==> #[trigger] final(self).idle_at(other) == old(self).idle_at(
                    other,
                ),
            ({
                let bucket = old(self).idle_at(key@);
                let n = unusable_before(bucket, now);
                &&& out.1@ == sockets(bucket.take(n as int))
                &&& out.0 == if n < bucket.len() {
                    Some(bucket[n as int].socket)
                } else {
                    None
                }
                &&& final(self).idle_at(key@) == if n < bucket.len() {
                    bucket.skip(n as int + 1)
                } else {
                    Seq::empty()
                }
            }),
    {
        let mut stale: Vec<T> = Vec::new();
        let ghost bucket = self.idle_at(key@);
        let ghost total = unusable_before(bucket, now);
        let ghost mut k: int = 0;
        proof {
            assert(bucket.skip(0) =~= bucket);
            assert(sockets(bucket.take(0)) =~= Seq::<T>::empty());
            law_taken_is_usable(bucket, now);
        }
        loop
            invariant
                self.refilling@ == old(self).refilling@,
                0 <= k <= bucket.len(),
                bucket == old(self).idle_at(key@),
                total == unusable_before(bucket, now),
                self.idle_at(key@) == bucket.skip(k),
                total == k + unusable_before(bucket.skip(k), now),
                stale@ == sockets(bucket.take(k)),
                forall|other: PoolKeyView|
                    other != key@ ==> #[trigger] self.idle_at(other) == old(self).idle_at(other),
            decreases bucket.len() - k,
        {
            let ghost rest = bucket.skip(k);
            match self.find(key) {
                None => {
                    assert(rest.len() == 0);
                    assert(self.idle_at(key@) =~= Seq::<IdleEntry<T>>::empty());
                    return (None, stale);
                },
                Some(i) => {
                    proof {
                        lemma_of_key_remove(self.idle@, i as int, key@);
                        let entries = self.idle@;
                        assert forall|other: PoolKeyView| other != key@ implies #[trigger] of_key(
                            entries.remove(i as int),
                            other,
                        ) == of_key(entries, other) by {
                            lemma_of_key_remove(entries, i as int, other);
                        }
                        assert(rest.drop_first() =~= bucket.skip(k + 1));
                        assert(rest[0] == bucket[k]);
                        assert(sockets(bucket.take(k + 1)) =~= sockets(bucket.take(k)).push(
                            bucket[k].socket,
                        ));
                    }
                    let ghost before = *self;
                    let entry = self.idle.remove(i);
                    proof {
                        assert forall|other: PoolKeyView| other != key@ implies #[trigger]
                            self.idle_at(other) == old(self).idle_at(other) by {
                            assert(before.idle_at(other) == old(self).idle_at(other));
                            assert(of_key(before.idle@.remove(i as int), other) == of_key(
                                before.idle@,
                                other,
                            ));
                        }
                    }
                    let age: u64 = if now > entry.created {
                        now - entry.created
                    } else {
                        0
                    };
                    if age > MAX_IDLE_NS || entry.closed {
                        stale.push(entry.socket);
                        proof {
                            k = k + 1;
                        }
                    } else {
                        return (Some(entry.socket), stale);
                    }
                },
            }
        }
    }

    /// Puts a connection into the pool.
    fn put(&mut self, key: &PoolKey, socket: T, created: u64, closed: bool)
        ensures
            final(self).refills() == old(self).refills(),
            forall|other: PoolKeyView|
                other != key@ ==> #[trigger] final(self).idle_at(other) == old(self).idle_at(
                    other,
                ),
            ({
                let bucket = final(self).idle_at(key@);
                &&& bucket.len() == old(self).idle_at(key@).len() + 1
                &&& bucket.drop_last() == old(self).idle_at(key@)
                &&& bucket.last().socket == socket
                &&& bucket.last().created == created
                &&& bucket.last().closed == closed
            }),
    {
        let entry = IdleEntry { key: key.copy(), socket, created, closed };
        let ghost before = self.idle@;
        self.idle.push(entry);
        proof {
            assert(self.idle@.drop_last() =~= before);
            assert(self.idle_at(key@).drop_last() =~= of_key(before, key@));
        }
    }

    /// How many idle connections there are for a key.
    fn count(&self, key: &PoolKey) -> (n: usize)
        ensures
            n == self.idle_at(key@).len(),
    {
        let mut n: usize = 0;
        let mut i: usize = 0;
        assert(self.idle@.take(0) =~= Seq::<IdleEntry<T>>::empty());
        while i < self.idle.len()
            invariant
                i <= self.idle@.len(),
                n <= i,
                n == of_key(self.idle@.take(i as int), key@).len(),
            decreases self.idle@.len() - i,
        {
            assert(self.idle@.take(i + 1).drop_last() =~= self.idle@.take(i as int));
            if self.idle[i].key.same(key) {
                n = n + 1;
            }
            i = i + 1;
        }
        assert(self.idle@.take(i as int) =~= self.idle@);
        n
    }

    /// Notes that new connections are being made for a key. Gives whether they were not before.
    fn begin_refill(&mut self, key: &PoolKey) -> (begun: bool)
        ensures
            begun == !old(self).refills().contains(key@),
            final(self).refills() == old(self).refills().insert(key@),
            forall|other: PoolKeyView| #[trigger]
                final(self).idle_at(other) == old(self).idle_at(other),
    {
        let ghost keys = self.refilling@;
        let ghost views = keys.map_values(|k: PoolKey| k@);
        let mut i: usize = 0;
        while i < self.refilling.len()
            invariant
                i <= self.refilling@.len(),
                *self == *old(self),
                keys == self.refilling@,
                views == keys.map_values(|k: PoolKey| k@),
                forall|j: int| 0 <= j < i ==> #[trigger] views[j] != key@,
            decreases self.refilling@.len() - i,
        {
            assert(views[i as int] == keys[i as int]@);
            if self.refilling[i].same(key) {
                proof {
                    assert(views.contains(key@));
                    assert(self.refills().contains(key@));
                    assert(self.refills().insert(key@) =~= self.refills());
                }
                return false;
            }
            i = i + 1;
        }
        self.refilling.push(key.copy());
        proof {
            let more = self.refilling@.map_values(|k: PoolKey| k@);
            assert(more =~= views.push(key@));
            assert forall|k: PoolKeyView| more.to_set().contains(k) <==> views.to_set().insert(
                key@,
            ).contains(k) by {
                if views.contains(k) {
                    let j = choose|j: int| 0 <= j < views.len() && views[j] == k;
                    assert(more[j] == k);
                }
                if k == key@ {
                    assert(more[views.len() as int] == k);
                }
                if more.contains(k) && k != key@ {
                    let j = choose|j: int| 0 <= j < more.len() && more[j] == k;
                    assert(views[j] == k);
                }
            }
            assert(self.refills() =~= old(self).refills().insert(key@));
        }
        true
    }

    /// Notes that no more connections are being made for a key.
    fn end_refill(&mut self, key: &PoolKey)
        ensures
            final(self).refills() == old(self).refills().remove(key@),
            forall|other: PoolKeyView| #[trigger]
                final(self).idle_at(other) == old(self).idle_at(other),
    {
        let ghost keys = self.refilling@;
        let ghost views = keys.map_values(|k: PoolKey| k@);
        let mut kept: Vec<PoolKey> = Vec::new();
        let mut i: usize = 0;
        while i < self.refilling.len()
            invariant
                i <= self.refilling@.len(),
                *self == *old(self),
                keys == self.refilling@,
                views == keys.map_values(|k: PoolKey| k@),
                forall|j: int|
                    0 <= j < kept@.len() ==> (#[trigger] kept@[j])@ != key@ && views.contains(
                        kept@[j]@,
                    ),
                forall|j: int|
                    0 <= j < i && views[j] != key@ ==> kept@.map_values(
                        |k: PoolKey| k@,
                    ).contains(#[trigger] views[j]),
            decreases self.refilling@.len() - i,
        {
            let ghost kept_before = kept@.map_values(|k: PoolKey| k@);
            assert(views[i as int] == keys[i as int]@);
            if !self.refilling[i].same(key) {
                kept.push(self.refilling[i].copy());
                proof {
                    let now = kept@.map_values(|k: PoolKey| k@);
                    assert(now =~= kept_before.push(views[i as int]));
                    assert(now[kept_before.len() as int] == views[i as int]);
                    assert forall|j: int| 0 <= j < i && views[j] != key@ implies now.contains(
                        #[trigger] views[j],
                    ) by {
                        let m = choose|m: int|
                            0 <= m < kept_before.len() && kept_before[m] == views[j];
                        assert(now[m] == views[j]);
                    }
                }
            }
            i = i + 1;
        }
        self.refilling = kept;
        proof {
            let now = kept@.map_values(|k: PoolKey| k@);
            assert forall|k: PoolKeyView| now.to_set().contains(k) <==> views.to_set().remove(
                key@,
            ).contains(k) by {
                if now.contains(k) {
                    let j = choose|j: int| 0 <= j < now.len() && now[j] == k;
                    assert(now[j] == kept@[j]@);
                }
                if views.contains(k) && k != key@ {
                    let j = choose|j: int| 0 <= j < views.len() && views[j] == k;
                    assert(now.contains(views[j]));
                }
            }
            assert(self.refills() =~= old(self).refills().remove(key@));
        }
    }
}

/// How long making a connection for a pool may take, in seconds.
pub const POOL_CONNECT_SECS: u64 = 8;

/// New connections to make for a pool: what for, and the address of the data centre.
#[derive(Debug)]
pub struct RefillJob {
    pub key: PoolKey,
    pub target: String,
}

impl View for RefillJob {
    type V = (PoolKeyView, Seq<char>);

    open spec fn view(&self) -> (PoolKeyView, Seq<char>) {
        (self.key@, self.target@)
    }
}

/// The jobs of a list.
pub open spec fn job_views(jobs: Seq<RefillJob>) -> Seq<(PoolKeyView, Seq<char>)> {
    jobs.map_values(|job: RefillJob| job@)
}

/// The keys of some jobs, added to `refilling`.
pub open spec fn with_keys(
    refilling: Set<PoolKeyView>,
    jobs: Seq<(PoolKeyView, Seq<char>)>,
) -> Set<PoolKeyView>
    decreases jobs.len(),
{
    if jobs.len() == 0 {
        refilling
    } else {
        with_keys(refilling, jobs.drop_last()).insert(jobs.last().0)
    }
}

/// The jobs that are new: no connections are being made for their key, and no earlier job of the
/// list is for the same key.
pub open spec fn new_jobs(
    refilling: Set<PoolKeyView>,
    jobs: Seq<(PoolKeyView, Seq<char>)>,
) -> Seq<(PoolKeyView, Seq<char>)>
    decreases jobs.len(),
{
    if jobs.len() == 0 {
        Seq::empty()
    } else {
        let before = new_jobs(refilling, jobs.drop_last());
        if with_keys(refilling, jobs.drop_last()).contains(jobs.last().0) {
            before
        } else {
            before.push(jobs.last())
        }
    }
}

/// How the connections of a job are made: to `host`, by the domains in turn, on `path`.
#[derive(Debug)]
pub struct ConnectPlan {
    pub host: String,
    pub domains: Vec<String>,
    pub path: String,
}

impl RefillJob {
    /// The path that a Cloudflare worker takes a data centre's address on.
    pub open spec fn worker_path(dc: u32, target: Seq<char>) -> Seq<char> {
        "/apiws?dst="@ + target + "&dc="@ + text::decimal(dc as nat)
    }

    /// How the connections of this job are made.
    pub fn plan(&self) -> (plan: ConnectPlan)
        ensures
            match self.key@ {
                PoolKeyView::Dc(dc, is_media) => {
                    &&& plan.host@ == self.target@
                    &&& text::text_views(plan.domains@) == seq![
                        utils::ws_domain(dc, is_media),
                        utils::ws_domain(dc, !is_media),
                    ]
                    &&& plan.path@ == "/apiws"@
                },
                PoolKeyView::Worker(dc, domain) => {
                    &&& plan.host@ == domain
                    &&& text::text_views(plan.domains@) == seq![domain]
                    &&& plan.path@ == Self::worker_path(dc, self.target@)
                },
            },
    {
        match &self.key {
            PoolKey::Dc(dc, is_media) => ConnectPlan {
                host: self.target.clone(),
                domains: ws_domains(*dc, *is_media),
                path: "/apiws".to_owned(),
            },
            PoolKey::Worker(dc, domain) => {
                let mut path = "/apiws?dst=".to_owned();
                path.append(self.target.as_str());
                path.append("&dc=");
                path.append(decimal_text(*dc as u64).as_str());
                let mut domains: Vec<String> = Vec::new();
                domains.push(domain.clone());
                assert(text::text_views(domains@) =~= seq![domain@]);
                ConnectPlan { host: domain.clone(), domains, path }
            },
        }
    }
}

impl ConnectPlan {
    /// The domain to try next, after the one at position `tried` failed: only a redirect leads to
    /// the next one.
    pub fn after_failure(&self, tried: usize, redirect: bool) -> (next: Option<usize>)
        requires
            tried < self.domains@.len(),
        ensures
            next == if redirect && tried + 1 < self.domains@.len() {
                Some((tried + 1) as usize)
            } else {
                None
            },
    {
        if redirect && tried < self.domains.len() - 1 {
            Some(tried + 1)
        } else {
            None
        }
    }
}

/// Begins the jobs that are new.
fn begin_jobs<T>(pool: &mut IdlePool<T>, jobs: Vec<RefillJob>) -> (out: Vec<RefillJob>)
    ensures
        job_views(out@) == new_jobs(old(pool).refills(), job_views(jobs@)),
        final(pool).refills() == with_keys(old(pool).refills(), job_views(jobs@)),
        forall|other: PoolKeyView| #[trigger]
            final(pool).idle_at(other) == old(pool).idle_at(other),
{
    let ghost all = job_views(jobs@);
    let ghost start = pool.refills();
    let mut out: Vec<RefillJob> = Vec::new();
    let mut i: usize = 0;
    assert(job_views(out@) =~= Seq::<(PoolKeyView, Seq<char>)>::empty());
    while i < jobs.len()
        invariant
            i <= jobs@.len(),
            all == job_views(jobs@),
            start == old(pool).refills(),
            job_views(out@) == new_jobs(start, all.take(i as int)),
            pool.refills() == with_keys(start, all.take(i as int)),
            forall|other: PoolKeyView| #[trigger]
                pool.idle_at(other) == old(pool).idle_at(other),
        decreases jobs@.len() - i,
    {
        let ghost before = job_views(out@);
        proof {
            assert(all.take(i + 1).drop_last() =~= all.take(i as int));
            assert(all.take(i + 1).last() == jobs@[i as int]@);
        }
        if pool.begin_refill(&jobs[i].key) {
            let job = RefillJob { key: jobs[i].key.copy(), target: jobs[i].target.clone() };
            out.push(job);
            assert(job_views(out@) =~= before.push(jobs@[i as int]@));
        }
        i = i + 1;
    }
    assert(all.take(i as int) =~= all);
    out
}

/// The jobs that fill a pool at the start: for each data centre with its own address two, for
/// media and not.
pub open spec fn dc_jobs(redirects: Seq<(u32, String)>) -> Seq<(PoolKeyView, Seq<char>)>
    decreases redirects.len(),
{
    if redirects.len() == 0 {
        Seq::empty()
    } else {
        let (dc, target) = redirects.last();
        dc_jobs(redirects.drop_last()).push((PoolKeyView::Dc(dc, false), target@)).push(
            (PoolKeyView::Dc(dc, true), target@),
        )
    }
}

/// Idle connections to the data centres.
#[derive(Debug)]
pub struct WsPool<T> {
    pool: IdlePool<T>,
}

impl<T> Default for WsPool<T> {
    fn default() -> (pool: Self)
        ensures
            pool.is_empty(),
    {
        WsPool::new()
    }
}

impl<T> WsPool<T> {
    /// The idle connections for a data centre, oldest first.
    pub closed spec fn idle(&self, dc: u32, is_media: bool) -> Seq<IdleEntry<T>> {
        self.pool.idle_at(PoolKeyView::Dc(dc, is_media))
    }

    /// The keys for which new connections are being made.
    pub closed spec fn refills(&self) -> Set<PoolKeyView> {
        self.pool.refills()
    }

    /// A pool without connections, for which none are being made.
    pub open spec fn is_empty(&self) -> bool {
        &&& forall|dc: u32, is_media: bool| (#[trigger] self.idle(dc, is_media)).len() == 0
        &&& self.refills() == Set::<PoolKeyView>::empty()
    }

    /// The connections for every other data centre stay as they were.
    pub open spec fn same_but(&self, before: &WsPool<T>, dc: u32, is_media: bool) -> bool {
        forall|other: u32, media: bool|
            (other, media) != (dc, is_media) ==> #[trigger] self.idle(other, media) == before.idle(
                other,
                media,
            )
    }

    /// An empty pool.
    pub fn new() -> (pool: Self)
        ensures
            pool.is_empty(),
    {
        WsPool { pool: IdlePool::empty() }
    }

    /// Takes the oldest connection that can still be used, gives those before it to be closed,
    /// and says whether new ones are to be made.
    pub fn get(&mut self, dc: u32, is_media: bool, now: u64, totals: &mut Stats) -> (taken: Taken<
        T,
    >)
        ensures
            ({
                let bucket = old(self).idle(dc, is_media);
                let n = unusable_before(bucket, now);
                &&& taken.stale@ == sockets(bucket.take(n as int))
                &&& if n < bucket.len() {
                    &&& taken.socket == Some(bucket[n as int].socket)
                    &&& final(self).idle(dc, is_media) == bucket.skip(n as int + 1)
                    &&& *final(totals) == (Stats {
                        pool_hits: bridge::wrapped_sum(old(totals).pool_hits, 1),
                        ..*old(totals)
                    })
                } else {
                    &&& taken.socket is None
                    &&& final(self).idle(dc, is_media).len() == 0
                    &&& *final(totals) == (Stats {
                        pool_misses: bridge::wrapped_sum(old(totals).pool_misses, 1),
                        ..*old(totals)
                    })
                }
            }),
            final(self).same_but(old(self), dc, is_media),
            taken.refill == !old(self).refills().contains(PoolKeyView::Dc(dc, is_media)),
            final(self).refills() == old(self).refills().insert(PoolKeyView::Dc(dc, is_media)),
    {
        let key = PoolKey::Dc(dc, is_media);
        let (socket, stale) = self.pool.take(&key, now);
        if socket.is_some() {
            totals.pool_hits = totals.pool_hits.wrapping_add(1);
        } else {
            totals.pool_misses = totals.pool_misses.wrapping_add(1);
        }
        let refill = self.pool.begin_refill(&key);
        Taken { socket, stale, refill }
    }

    /// How many new connections a refill makes: as many as the pool lacks.
    pub fn needed(&self, dc: u32, is_media: bool, pool_size: usize) -> (n: usize)
        ensures
            n == if self.idle(dc, is_media).len() < pool_size {
                pool_size - self.idle(dc, is_media).len()
            } else {
                0
            },
    {
        let key = PoolKey::Dc(dc, is_media);
        pool_size.saturating_sub(self.pool.count(&key))
    }

    /// Puts a new connection into the pool, behind the others.
    pub fn add(&mut self, dc: u32, is_media: bool, socket: T, created: u64, closed: bool)
        ensures
            ({
                let bucket = final(self).idle(dc, is_media);
                &&& bucket.len() == old(self).idle(dc, is_media).len() + 1
                &&& bucket.drop_last() == old(self).idle(dc, is_media)
                &&& bucket.last().socket == socket
                &&& bucket.last().created == created
                &&& bucket.last().closed == closed
            }),
            final(self).same_but(old(self), dc, is_media),
            final(self).refills() == old(self).refills(),
    {
        let key = PoolKey::Dc(dc, is_media);
        self.pool.put(&key, socket, created, closed);
    }

    /// Notes that the refill for a data centre has ended.
    pub fn finish_refill(&mut self, dc: u32, is_media: bool)
        ensures
            final(self).refills() == old(self).refills().remove(PoolKeyView::Dc(dc, is_media)),
            forall|other: u32, media: bool| #[trigger]
                final(self).idle(other, media) == old(self).idle(other, media),
    {
        let key = PoolKey::Dc(dc, is_media);
        self.pool.end_refill(&key);
    }

    /// Begins to fill the pool for the data centres that have their own address.
    pub fn warmup(&mut self, redirects: &Vec<(u32, String)>) -> (jobs: Vec<RefillJob>)
        ensures
            job_views(jobs@) == new_jobs(old(self).refills(), dc_jobs(redirects@)),
            final(self).refills() == with_keys(old(self).refills(), dc_jobs(redirects@)),
            forall|other: u32, media: bool| #[trigger]
                final(self).idle(other, media) == old(self).idle(other, media),
    {
        let mut jobs: Vec<RefillJob> = Vec::new();
        let mut i: usize = 0;
        assert(job_views(jobs@) =~= dc_jobs(redirects@.take(0)));
        while i < redirects.len()
            invariant
                i <= redirects@.len(),
                job_views(jobs@) == dc_jobs(redirects@.take(i as int)),
            decreases redirects@.len() - i,
        {
            let ghost before = job_views(jobs@);
            proof {
                assert(redirects@.take(i + 1).drop_last() =~= redirects@.take(i as int));
                assert(redirects@.take(i + 1).last() == redirects@[i as int]);
            }
            let dc: u32 = redirects[i].0;
            let plain = RefillJob { key: PoolKey::Dc(dc, false), target: redirects[i].1.clone() };
            let media = RefillJob { key: PoolKey::Dc(dc, true), target: redirects[i].1.clone() };
            let ghost plain_view = plain@;
            let ghost media_view = media@;
            jobs.push(plain);
            jobs.push(media);
            assert(job_views(jobs@) =~= before.push(plain_view).push(media_view));
            i = i + 1;
        }
        assert(redirects@.take(i as int) =~= redirects@);
        begin_jobs(&mut self.pool, jobs)
    }

    /// Forgets all connections and all refills.
    pub fn reset(&mut self)
        ensures
            final(self).is_empty(),
    {
        self.pool.clear();
    }
}

/// The data centres with a default address.
pub const FALLBACK_DCS: [u32; 6] = [1, 2, 3, 4, 5, 203];

/// The jobs for one worker: for each of the first `n` of `FALLBACK_DCS` that has no address of
/// its own in the settings.
pub open spec fn worker_jobs_for(domain: Seq<char>, redirects: Map<u32, String>, n: nat) -> Seq<
    (PoolKeyView, Seq<char>),
>
    decreases n,
{
    if n == 0 {
        Seq::empty()
    } else {
        let before = worker_jobs_for(domain, redirects, (n - 1) as nat);
        let dc = FALLBACK_DCS@[n - 1];
        match utils::default_ip(dc) {
            Some(ip) => if redirects.contains_key(dc) {
                before
            } else {
                before.push((PoolKeyView::Worker(dc, domain), ip))
            },
            None => before,
        }
    }
}

/// The jobs that fill a worker pool at the start: for each worker and each data centre that is
/// reached through workers.
pub open spec fn worker_jobs(domains: Seq<Seq<char>>, redirects: Map<u32, String>) -> Seq<
    (PoolKeyView, Seq<char>),
>
    decreases domains.len(),
{
    if domains.len() == 0 {
        Seq::empty()
    } else {
        worker_jobs(domains.drop_last(), redirects) + worker_jobs_for(domains.last(), redirects, 6)
    }
}

/// `FALLBACK_DCS` lists exactly the data centres with a default address.
pub proof fn law_fallback_dcs_complete(dc: u32)
    ensures
        FALLBACK_DCS@.contains(dc) <==> utils::default_ip(dc) is Some,
{
    let dcs = FALLBACK_DCS@;
    assert(dcs[0] == 1 && dcs[1] == 2 && dcs[2] == 3 && dcs[3] == 4 && dcs[4] == 5 && dcs[5]
        == 203);
    if dc == 1 || dc == 2 || dc == 3 || dc == 4 || dc == 5 {
        assert(dcs[dc - 1] == dc);
    }
}

/// Idle connections to the Cloudflare workers.
#[derive(Debug)]
pub struct CfWorkerPool<T> {
    pool: IdlePool<T>,
}

impl<T> Default for CfWorkerPool<T> {
    fn default() -> (pool: Self)
        ensures
            pool.is_empty(),
    {
        CfWorkerPool::new()
    }
}

impl<T> CfWorkerPool<T> {
    /// The idle connections for a data centre behind a worker, oldest first.
    pub closed spec fn idle(&self, dc: u32, domain: Seq<char>) -> Seq<IdleEntry<T>> {
        self.pool.idle_at(PoolKeyView::Worker(dc, domain))
    }

    /// The keys for which new connections are being made.
    pub closed spec fn refills(&self) -> Set<PoolKeyView> {
        self.pool.refills()
    }

    /// A pool without connections, for which none are being made.
    pub open spec fn is_empty(&self) -> bool {
        &&& forall|dc: u32, domain: Seq<char>| (#[trigger] self.idle(dc, domain)).len() == 0
        &&& self.refills() == Set::<PoolKeyView>::empty()
    }

    /// The connections for every other data centre or worker stay as they were.
    pub open spec fn same_but(
        &self,
        before: &CfWorkerPool<T>,
        dc: u32,
        domain: Seq<char>,
    ) -> bool {
        forall|other: u32, name: Seq<char>|
            other != dc || name != domain ==> #[trigger] self.idle(other, name) == before.idle(
                other,
                name,
            )
    }

    /// An empty pool.
    pub fn new() -> (pool: Self)
        ensures
            pool.is_empty(),
    {
        CfWorkerPool { pool: IdlePool::empty() }
    }

    /// Takes the oldest connection that can still be used, gives those before it to be closed,
    /// and says whether new ones are to be made.
    pub fn get(&mut self, dc: u32, worker_domain: &str, now: u64, totals: &mut Stats) -> (taken:
        Taken<T>)
        ensures
            ({
                let bucket = old(self).idle(dc, worker_domain@);
                let n = unusable_before(bucket, now);
                &&& taken.stale@ == sockets(bucket.take(n as int))
                &&& if n < bucket.len() {
                    &&& taken.socket == Some(bucket[n as int].socket)
                    &&& final(self).idle(dc, worker_domain@) == bucket.skip(n as int + 1)
                    &&& *final(totals) == (Stats {
                        cf_pool_hits: bridge::wrapped_sum(old(totals).cf_pool_hits, 1),
                        ..*old(totals)
                    })
                } else {
                    &&& taken.socket is None
                    &&& final(self).idle(dc, worker_domain@).len() == 0
                    &&& *final(totals) == (Stats {
                        cf_pool_misses: bridge::wrapped_sum(old(totals).cf_pool_misses, 1),
                        ..*old(totals)
                    })
                }
            }),
            final(self).same_but(old(self), dc, worker_domain@),
            taken.refill == !old(self).refills().contains(
                PoolKeyView::Worker(dc, worker_domain@),
            ),
            final(self).refills() == old(self).refills().insert(
                PoolKeyView::Worker(dc, worker_domain@),
            ),
    {
        let key = PoolKey::Worker(dc, worker_domain.to_owned());
        let (socket, stale) = self.pool.take(&key, now);
        if socket.is_some() {
            totals.cf_pool_hits = totals.cf_pool_hits.wrapping_add(1);
        } else {
            totals.cf_pool_misses = totals.cf_pool_misses.wrapping_add(1);
        }
        let refill = self.pool.begin_refill(&key);
        Taken { socket, stale, refill }
    }

    /// How many new connections a refill makes: as many as the pool lacks.
    pub fn needed(&self, dc: u32, worker_domain: &str, pool_size: usize) -> (n: usize)
        ensures
            n == if self.idle(dc, worker_domain@).len() < pool_size {
                pool_size - self.idle(dc, worker_domain@).len()
            } else {
                0
            },
    {
        let key = PoolKey::Worker(dc, worker_domain.to_owned());
        pool_size.saturating_sub(self.pool.count(&key))
    }

    /// Puts a new connection into the pool, behind the others.
    pub fn add(&mut self, dc: u32, worker_domain: &str, socket: T, created: u64, closed: bool)
        ensures
            ({
                let bucket = final(self).idle(dc, worker_domain@);
                &&& bucket.len() == old(self).idle(dc, worker_domain@).len() + 1
                &&& bucket.drop_last() == old(self).idle(dc, worker_domain@)
                &&& bucket.last().socket == socket
                &&& bucket.last().created == created
                &&& bucket.last().closed == closed
            }),
            final(self).same_but(old(self), dc, worker_domain@),
            final(self).refills() == old(self).refills(),
    {
        let key = PoolKey::Worker(dc, worker_domain.to_owned());
        self.pool.put(&key, socket, created, closed);
    }

    /// Notes that the refill for a data centre behind a worker has ended.
    pub fn finish_refill(&mut self, dc: u32, worker_domain: &str)
        ensures
            final(self).refills() == old(self).refills().remove(
                PoolKeyView::Worker(dc, worker_domain@),
            ),
            forall|other: u32, name: Seq<char>| #[trigger]
                final(self).idle(other, name) == old(self).idle(other, name),
    {
        let key = PoolKey::Worker(dc, worker_domain.to_owned());
        self.pool.end_refill(&key);
    }

    /// Begins to fill the pool: for each worker, for the data centres that have a default address
    /// but none of their own in the settings.
    pub fn warmup(&mut self, worker_domains: &Vec<String>, redirects: &HashMap<u32, String>) -> (
    jobs: Vec<RefillJob>)
        ensures
            ({
                let wanted = worker_jobs(text::text_views(worker_domains@), redirects@);
                &&& job_views(jobs@) == new_jobs(old(self).refills(), wanted)
                &&& final(self).refills() == with_keys(old(self).refills(), wanted)
            }),
            forall|other: u32, name: Seq<char>| #[trigger]
                final(self).idle(other, name) == old(self).idle(other, name),
    {
        let ips = dc_default_ips();
        let ghost all = text::text_views(worker_domains@);
        let mut jobs: Vec<RefillJob> = Vec::new();
        let mut i: usize = 0;
        assert(job_views(jobs@) =~= worker_jobs(all.take(0), redirects@));
        while i < worker_domains.len()
            invariant
                i <= worker_domains@.len(),
                all == text::text_views(worker_domains@),
                forall|dc: u32| #[trigger]
                    ips@.contains_key(dc) <==> utils::default_ip(dc) is Some,
                forall|dc: u32| #[trigger]
                    ips@.contains_key(dc) ==> utils::default_ip(dc) == Some(ips@[dc]@),
                job_views(jobs@) == worker_jobs(all.take(i as int), redirects@),
            decreases worker_domains@.len() - i,
        {
            let ghost before = job_views(jobs@);
            let ghost domain = all[i as int];
            assert(domain == worker_domains@[i as int]@);
            let mut n: usize = 0;
            assert(before + worker_jobs_for(domain, redirects@, 0) =~= before);
            while n < 6
                invariant
                    n <= 6,
                    i < worker_domains@.len(),
                    domain == worker_domains@[i as int]@,
                    forall|dc: u32| #[trigger]
                        ips@.contains_key(dc) <==> utils::default_ip(dc) is Some,
                    forall|dc: u32| #[trigger]
                        ips@.contains_key(dc) ==> utils::default_ip(dc) == Some(ips@[dc]@),
                    job_views(jobs@) == before + worker_jobs_for(domain, redirects@, n as nat),
                decreases 6 - n,
            {
                let ghost so_far = job_views(jobs@);
                let dc: u32 = FALLBACK_DCS[n];
                assert(dc == FALLBACK_DCS@[n as int]);
                if let Some(ip) = ips.get(&dc) {
                    if !redirects.contains_key(&dc) {
                        let job = RefillJob {
                            key: PoolKey::Worker(dc, worker_domains[i].clone()),
                            target: (*ip).to_owned(),
                        };
                        let ghost job_view = job@;
                        jobs.push(job);
                        assert(job_views(jobs@) =~= so_far.push(job_view));
                    }
                }
                n = n + 1;
                assert(job_views(jobs@) =~= before + worker_jobs_for(
                    domain,
                    redirects@,
                    n as nat,
                ));
            }
            proof {
                assert(all.take(i + 1).drop_last() =~= all.take(i as int));
                assert(all.take(i + 1).last() == domain);
            }
            i = i + 1;
        }
        assert(all.take(i as int) =~= all);
        begin_jobs(&mut self.pool, jobs)
    }

    /// Forgets all connections and all refills.
    pub fn reset(&mut self)
        ensures
            final(self).is_empty(),
    {
        self.pool.clear();
    }
}

/// An idle connection can be used for two minutes, and only if it was not closed.
pub proof fn law_usable_for_two_minutes<T>(entry: IdleEntry<T>, now: u64)
    ensures
        entry.usable(now) <==> !entry.closed && now <= entry.created + 120_000_000_000,
{
}

/// Of the idle connections for a key the oldest one that can be used is given out: if any can be
/// used, one is; every older one is to be closed; every younger one stays.
pub proof fn law_oldest_usable_is_taken<T>(entries: Seq<IdleEntry<T>>, now: u64, i: int)
    requires
        0 <= i < entries.len(),
        !entries[i].closed,
        now <= entries[i].created + 120_000_000_000,
        forall|j: int|
            0 <= j < i ==> (#[trigger] entries[j]).closed || now > entries[j].created
                + 120_000_000_000,
    ensures
        unusable_before(entries, now) == i,
        sockets(entries.take(i)).len() == i,
        forall|j: int| 0 <= j < i ==> #[trigger] sockets(entries.take(i))[j] == entries[j].socket,
{
    law_taken_is_usable(entries, now);
    let n = unusable_before(entries, now) as int;
    if n > i {
        assert(!entries[i].usable(now));
    }
    if n < i {
        assert(entries[n].usable(now));
    }
}

/// If no idle connection for a key can be used, all of them are to be closed.
pub proof fn law_none_usable<T>(entries: Seq<IdleEntry<T>>, now: u64)
    requires
        forall|j: int|
            0 <= j < entries.len() ==> (#[trigger] entries[j]).closed || now > entries[j].created
                + 120_000_000_000,
    ensures
        unusable_before(entries, now) == entries.len(),
{
    law_taken_is_usable(entries, now);
    let n = unusable_before(entries, now) as int;
    if n < entries.len() {
        assert(entries[n].usable(now));
    }
}

/// After some jobs exactly those keys are being refilled that were before or that a job is for.
pub proof fn law_refilled_keys(
    refilling: Set<PoolKeyView>,
    jobs: Seq<(PoolKeyView, Seq<char>)>,
    key: PoolKeyView,
)
    ensures
        with_keys(refilling, jobs).contains(key) <==> refilling.contains(key) || exists|i: int|
            0 <= i < jobs.len() && (#[trigger] jobs[i]).0 == key,
    decreases jobs.len(),
{
    if jobs.len() > 0 {
        let before = jobs.drop_last();
        law_refilled_keys(refilling, before, key);
        if exists|i: int| 0 <= i < before.len() && (#[trigger] before[i]).0 == key {
            let i = choose|i: int| 0 <= i < before.len() && (#[trigger] before[i]).0 == key;
            assert(jobs[i].0 == key);
        }
        if exists|i: int| 0 <= i < jobs.len() && (#[trigger] jobs[i]).0 == key {
            let i = choose|i: int| 0 <= i < jobs.len() && (#[trigger] jobs[i]).0 == key;
            if i < before.len() {
                assert(before[i].0 == key);
            }
        }
        assert(jobs[jobs.len() - 1] == jobs.last());
    }
}

/// A job is begun unless connections are being made for its key already: before the list, or by
/// an earlier job of the list. The jobs that are begun keep their order.
pub proof fn law_jobs_begun_once(
    refilling: Set<PoolKeyView>,
    jobs: Seq<(PoolKeyView, Seq<char>)>,
    more: (PoolKeyView, Seq<char>),
)
    ensures
        new_jobs(refilling, Seq::empty()) == Seq::<(PoolKeyView, Seq<char>)>::empty(),
        ({
            let known = refilling.contains(more.0) || exists|i: int|
                0 <= i < jobs.len() && (#[trigger] jobs[i]).0 == more.0;
            new_jobs(refilling, jobs.push(more)) == if known {
                new_jobs(refilling, jobs)
            } else {
                new_jobs(refilling, jobs).push(more)
            }
        }),
{
    law_refilled_keys(refilling, jobs, more.0);
    assert(jobs.push(more).drop_last() =~= jobs);
}

/// At the start two jobs are for each data centre with an address of its own, in the order of the
/// list, not for media and for media, both to that address.
pub proof fn law_two_jobs_for_each(redirects: Seq<(u32, String)>, i: int)
    requires
        0 <= i < redirects.len(),
    ensures
        dc_jobs(redirects).len() == 2 * redirects.len(),
        dc_jobs(redirects)[2 * i] == (PoolKeyView::Dc(redirects[i].0, false), redirects[i].1@),
        dc_jobs(redirects)[2 * i + 1] == (PoolKeyView::Dc(redirects[i].0, true), redirects[i].1@),
    decreases redirects.len(),
{
    let before = redirects.drop_last();
    if before.len() == 0 {
        assert(dc_jobs(before).len() == 0);
    } else if i < before.len() {
        law_two_jobs_for_each(before, i);
    } else {
        law_two_jobs_for_each(before, 0);
    }
}

/// The jobs for one worker are for the data centres with a known address that have none of their
/// own in the settings, to the known address.
proof fn lemma_worker_jobs_for(
    domain: Seq<char>,
    redirects: Map<u32, String>,
    job: (PoolKeyView, Seq<char>),
)
    ensures
        worker_jobs_for(domain, redirects, 6).contains(job) <==> exists|dc: u32|
            {
                &&& !redirects.contains_key(dc)
                &&& #[trigger] utils::default_ip(dc) == Some(job.1)
                &&& job.0 == PoolKeyView::Worker(dc, domain)
            },
{
    let dcs = FALLBACK_DCS@;
    assert(dcs[0] == 1 && dcs[1] == 2 && dcs[2] == 3 && dcs[3] == 4 && dcs[4] == 5 && dcs[5]
        == 203);
    lemma_worker_jobs_upto(domain, redirects, 6, job);
    let jobs = worker_jobs_for(domain, redirects, 6);
    if jobs.contains(job) {
        let k = choose|k: int|
            0 <= k < 6 && !redirects.contains_key(#[trigger] dcs[k]) && utils::default_ip(dcs[k])
                == Some(job.1) && job.0 == PoolKeyView::Worker(dcs[k], domain);
        assert(utils::default_ip(dcs[k]) == Some(job.1));
    }
    if exists|dc: u32|
        {
            &&& !redirects.contains_key(dc)
            &&& #[trigger] utils::default_ip(dc) == Some(job.1)
            &&& job.0 == PoolKeyView::Worker(dc, domain)
        } {
        let dc = choose|dc: u32|
            {
                &&& !redirects.contains_key(dc)
                &&& #[trigger] utils::default_ip(dc) == Some(job.1)
                &&& job.0 == PoolKeyView::Worker(dc, domain)
            };
        utils::law_known_addresses(dc);
        let k: int = if dc == 203 {
            5
        } else {
            dc - 1
        };
        assert(dcs[k] == dc);
    }
}

proof fn lemma_worker_jobs_upto(
    domain: Seq<char>,
    redirects: Map<u32, String>,
    n: nat,
    job: (PoolKeyView, Seq<char>),
)
    requires
        n <= 6,
    ensures
        worker_jobs_for(domain, redirects, n).contains(job) <==> exists|k: int|
            0 <= k < n && !redirects.contains_key(#[trigger] FALLBACK_DCS@[k])
                && utils::default_ip(FALLBACK_DCS@[k]) == Some(job.1) && job.0
                == PoolKeyView::Worker(FALLBACK_DCS@[k], domain),
    decreases n,
{
    if n > 0 {
        let before = worker_jobs_for(domain, redirects, (n - 1) as nat);
        let jobs = worker_jobs_for(domain, redirects, n);
        lemma_worker_jobs_upto(domain, redirects, (n - 1) as nat, job);
        let dc = FALLBACK_DCS@[n - 1];
        if before.contains(job) {
            let i = choose|i: int| 0 <= i < before.len() && before[i] == job;
            assert(jobs[i] == job);
        }
        if jobs.contains(job) && !before.contains(job) {
            let i = choose|i: int| 0 <= i < jobs.len() && jobs[i] == job;
            if i < before.len() {
                assert(before[i] == job);
            }
        }
        if jobs.len() > before.len() {
            assert(jobs[before.len() as int] == jobs.last());
        }
    }
}

/// At the start a worker pool is filled for every worker and every data centre with a known
/// address that has none of its own in the settings, to the known address; for nothing else.
pub proof fn law_worker_jobs(
    domains: Seq<Seq<char>>,
    redirects: Map<u32, String>,
    dc: u32,
    domain: Seq<char>,
    target: Seq<char>,
)
    ensures
        worker_jobs(domains, redirects).contains((PoolKeyView::Worker(dc, domain), target)) <==> {
            &&& domains.contains(domain)
            &&& !redirects.contains_key(dc)
            &&& utils::default_ip(dc) == Some(target)
        },
        forall|i: int|
            0 <= i < worker_jobs(domains, redirects).len() ==> (#[trigger] worker_jobs(
                domains,
                redirects,
            )[i]).0 is Worker,
    decreases domains.len(),
{
    let job = (PoolKeyView::Worker(dc, domain), target);
    let jobs = worker_jobs(domains, redirects);
    if domains.len() > 0 {
        let before = domains.drop_last();
        let last = domains.last();
        law_worker_jobs(before, redirects, dc, domain, target);
        lemma_worker_jobs_for(last, redirects, job);
        let earlier = worker_jobs(before, redirects);
        let own = worker_jobs_for(last, redirects, 6);
        assert(domains[domains.len() - 1] == last);
        if earlier.contains(job) {
            let i = choose|i: int| 0 <= i < earlier.len() && earlier[i] == job;
            assert(jobs[i] == job);
        }
        if own.contains(job) {
            let i = choose|i: int| 0 <= i < own.len() && own[i] == job;
            assert(jobs[earlier.len() + i] == job);
        }
        if jobs.contains(job) {
            let i = choose|i: int| 0 <= i < jobs.len() && jobs[i] == job;
            if i < earlier.len() {
                assert(earlier[i] == job);
            } else {
                assert(own[i - earlier.len()] == job);
            }
        }
        if before.contains(domain) {
            let i = choose|i: int| 0 <= i < before.len() && before[i] == domain;
            assert(domains[i] == domain);
        }
        if domains.contains(domain) && domain != last {
            let i = choose|i: int| 0 <= i < domains.len() && domains[i] == domain;
            assert(before[i] == domain);
        }
        if domain == last && !redirects.contains_key(dc) && utils::default_ip(dc) == Some(target) {
            assert(own.contains(job));
        }
        assert forall|i: int| 0 <= i < jobs.len() implies (#[trigger] jobs[i]).0 is Worker by {
            if i < earlier.len() {
                assert(earlier[i] == jobs[i]);
            } else {
                let one = own[i - earlier.len()];
                assert(own.contains(one));
                lemma_worker_jobs_for(last, redirects, one);
            }
        }
    }
}

/// The path on which a worker takes a data centre: its address and its number.
pub proof fn law_worker_path(dc: u32, target: Seq<char>)
    ensures
        RefillJob::worker_path(dc, target) == "/apiws?dst="@ + target + "&dc="@ + text::decimal(
            dc as nat,
        ),
        POOL_CONNECT_SECS == 8,
{
}

/// The views of keys, jobs and lists of them: each one stays what it is and where it is.
pub proof fn law_pool_views<T>(
    dc: u32,
    is_media: bool,
    domain: String,
    jobs: Seq<RefillJob>,
    entries: Seq<IdleEntry<T>>,
)
    ensures
        PoolKey::Dc(dc, is_media)@ == PoolKeyView::Dc(dc, is_media),
        PoolKey::Worker(dc, domain)@ == PoolKeyView::Worker(dc, domain@),
        job_views(jobs).len() == jobs.len(),
        forall|i: int|
            0 <= i < jobs.len() ==> #[trigger] job_views(jobs)[i] == (jobs[i].key@, jobs[i].target@),
        sockets(entries).len() == entries.len(),
        forall|i: int|
            0 <= i < entries.len() ==> #[trigger] sockets(entries)[i] == entries[i].socket,
{
}

/// An empty pool has no connection for any key and makes none; where only one key is concerned,
/// every other one keeps its connections.
pub proof fn law_pool_frames<T>(
    ws: WsPool<T>,
    ws_before: WsPool<T>,
    cf: CfWorkerPool<T>,
    cf_before: CfWorkerPool<T>,
    dc: u32,
    is_media: bool,
    domain: Seq<char>,
    other: u32,
    other_media: bool,
    other_domain: Seq<char>,
)
    ensures
        ws.is_empty() ==> ws.idle(dc, is_media).len() == 0 && !ws.refills().contains(
            PoolKeyView::Dc(dc, is_media),
        ),
        cf.is_empty() ==> cf.idle(dc, domain).len() == 0 && !cf.refills().contains(
            PoolKeyView::Worker(dc, domain),
        ),
        ws.same_but(&ws_before, dc, is_media) && (other != dc || other_media != is_media)
            ==> ws.idle(other, other_media) == ws_before.idle(other, other_media),
        cf.same_but(&cf_before, dc, domain) && (other != dc || other_domain != domain) ==> cf.idle(
            other,
            other_domain,
        ) == cf_before.idle(other, other_domain),
{
}

} // verus!
