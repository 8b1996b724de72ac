//! TTL cache of resource records, keyed by owner name and record type.
//!
//! The cache is a set of records, each with an absolute expiration
//! second.  Two records are the same entry when their wire-level fields
//! are equal; the expiration is not part of that identity, so
//! re-inserting a record leaves the stamp it already has.  Reads filter
//! out expired records; nothing is ever physically removed.

use vstd::prelude::*;

use crate::dns_packet::{Answer, AnswerV, DnsPacket, QueryType};
use crate::text::str_eq;

verus! {

/// Latest clock second the cache accepts: leaves room for any 32-bit
/// TTL above it without overflowing a `u64`.
pub const MAX_CACHE_TIME: u64 = 0xFFFFFFFF00000000;

/// A plausible reading of the clock: what `wall_clock_second` can
/// return.
pub open spec fn clock_second(now: int) -> bool {
    0 <= now <= MAX_CACHE_TIME
}

/// Relies on `std::time::SystemTime::now` and
/// `SystemTime::duration_since`: the wall clock as whole seconds since
/// the Unix epoch.  A clock set before the epoch reads as zero instead
/// of failing, so the call never panics.
#[verifier::external_body]
fn now_seconds() -> (r: u64) {
    match std::time::SystemTime::now().duration_since(std::time::UNIX_EPOCH) {
        Ok(elapsed) => elapsed.as_secs(),
        Err(_) => 0,
    }
}

/// The wall clock as a second count the cache accepts.
pub fn wall_clock_second() -> (r: u64)
    ensures
        r <= MAX_CACHE_TIME,
        clock_second(r as int),
{
    let t = now_seconds();
    if t > MAX_CACHE_TIME {
        MAX_CACHE_TIME
    } else {
        t
    }
}

/// A cached record and the second in which it expires.
#[derive(Debug)]
pub struct RecordEntry {
    pub record: Answer,
    pub expires_in: u64,
}

impl PartialEq for RecordEntry {
    fn eq(&self, other: &RecordEntry) -> (r: bool) {
        self.record == other.record
    }
}

impl Eq for RecordEntry {

}

impl vstd::std_specs::cmp::PartialEqSpecImpl for RecordEntry {
    open spec fn obeys_eq_spec() -> bool {
        true
    }

    /// Identity is the record alone: the expiration does not count.
    open spec fn eq_spec(&self, other: &RecordEntry) -> bool {
        self.record@ == other.record@
    }
}

impl RecordEntry {
    /// Entry for `record` inserted at second `now`: it expires `ttl`
    /// seconds later.
    pub fn new_at(record: Answer, now: u64) -> (r: RecordEntry)
        requires
            now <= MAX_CACHE_TIME,
        ensures
            r.record@ == record@,
            r.expires_in == now + record@.ttl,
    {
        let ttl = record.ttl;
        RecordEntry { record, expires_in: now + ttl as u64 }
    }

    /// Entry for `record` inserted now, by the wall clock.
    pub fn new(record: Answer) -> (r: RecordEntry)
        ensures
            r.record@ == record@,
            exists|now: int| #[trigger] clock_second(now) && r.expires_in == now + record@.ttl,
    {
        let now = wall_clock_second();
        let r = RecordEntry::new_at(record, now);
        proof {
            assert(clock_second(now as int));
        }
        r
    }

    /// Whether the entry is already stale at second `now`.
    pub fn is_expired_at(&self, now: u64) -> (r: bool)
        ensures
            r == (self.expires_in < now),
    {
        self.expires_in < now
    }

    /// Whether the entry is stale by the wall clock.  The clock reading
    /// is not observable here, so nothing exact can be promised;
    /// `is_expired_at` states the comparison for a given second.
    pub fn is_expired(&self) -> bool {
        let now = wall_clock_second();
        self.is_expired_at(now)
    }
}

/// All cached records that share one owner name.
#[derive(Debug)]
pub struct CacheEntry {
    pub domain: String,
    pub record_types: Vec<RecordEntry>,
}

/// The record store: one entry per owner name.
#[derive(Debug)]
pub struct DnsCache {
    pub cache: Vec<CacheEntry>,
}

impl DnsCache {
    /// The record with view `a` sits at entry `i`, slot `k`.
    pub open spec fn record_at(self, i: int, k: int, a: AnswerV) -> bool {
        &&& 0 <= i < self.cache@.len()
        &&& 0 <= k < self.cache@[i].record_types@.len()
        &&& self.cache@[i].record_types@[k].record@ == a
    }

    /// Some slot holds a record with view `a`.
    pub open spec fn has_record(self, a: AnswerV) -> bool {
        exists|i: int, k: int| self.record_at(i, k, a)
    }

    /// The expiration second of the record with view `a`.
    pub open spec fn expiry_of(self, a: AnswerV) -> int {
        let (i, k) = choose|i: int, k: int| self.record_at(i, k, a);
        self.cache@[i].record_types@[k].expires_in as int
    }

    /// What the cache holds: each distinct record mapped to its
    /// expiration second.
    pub open spec fn contents(self) -> Map<AnswerV, int> {
        Map::new(|a: AnswerV| self.has_record(a), |a: AnswerV| self.expiry_of(a))
    }

    /// Structural invariant: entries have distinct, non-empty domains
    /// holding only records of that owner name, with no record twice.
    pub open spec fn wf(self) -> bool {
        &&& forall|i: int, j: int|
            0 <= i < j < self.cache@.len() ==> self.cache@[i].domain@ != self.cache@[j].domain@
        &&& forall|i: int|
            0 <= i < self.cache@.len() ==> (#[trigger] self.cache@[i]).record_types@.len() >= 1
        &&& forall|i: int, k: int|
            0 <= i < self.cache@.len() && 0 <= k < self.cache@[i].record_types@.len()
                ==> (#[trigger] self.cache@[i].record_types@[k]).record@.name
                == self.cache@[i].domain@
        &&& forall|i: int, k: int, l: int|
            0 <= i < self.cache@.len() && 0 <= k < l < self.cache@[i].record_types@.len()
                ==> self.cache@[i].record_types@[k].record@ != self.cache@[i].record_types@[l].record@
    }

    /// In a well-formed cache a record sits in exactly one slot.
    pub proof fn lemma_record_unique(self, a: AnswerV, i1: int, k1: int, i2: int, k2: int)
        requires
            self.wf(),
            self.record_at(i1, k1, a),
            self.record_at(i2, k2, a),
        ensures
            i1 == i2,
            k1 == k2,
    {
        if i1 != i2 {
            assert(self.cache@[i1].domain@ == a.name);
            assert(self.cache@[i2].domain@ == a.name);
        }
    }

    /// What `contents` maps a slotted record to.
    pub proof fn lemma_expiry_at(self, a: AnswerV, i: int, k: int)
        requires
            self.wf(),
            self.record_at(i, k, a),
        ensures
            self.contents().contains_key(a),
            self.contents()[a] == self.cache@[i].record_types@[k].expires_in as int,
    {
        let (i2, k2) = choose|i2: int, k2: int| self.record_at(i2, k2, a);
        self.lemma_record_unique(a, i, k, i2, k2);
    }

    /// An empty cache.
    pub fn new() -> (r: DnsCache)
        ensures
            r.wf(),
            r.contents() == Map::<AnswerV, int>::empty(),
    {
        let r = DnsCache { cache: Vec::new() };
        proof {
            assert(r.contents() =~= Map::<AnswerV, int>::empty());
        }
        r
    }
}

/// Slot `l` of an entry's record list holds a record of type `qt`
/// that is still current at second `now`.
pub open spec fn slot_live(recs: Seq<RecordEntry>, l: int, qt: QueryType, now: int) -> bool {
    &&& 0 <= l < recs.len()
    &&& recs[l].record@.query_type == qt
    &&& recs[l].expires_in >= now
}

/// Ghost bookkeeping for a cache read: `idxs[x]` names the slot below
/// `k` that produced answer `x`.
pub open spec fn witnesses_ok(
    recs: Seq<RecordEntry>,
    out: Seq<Answer>,
    idxs: Seq<int>,
    k: int,
    qt: QueryType,
    now: int,
) -> bool {
    &&& idxs.len() == out.len()
    &&& forall|x: int|
        0 <= x < out.len() ==> 0 <= #[trigger] idxs[x] < k && slot_live(recs, idxs[x], qt, now)
            && recs[idxs[x]].record@ == out[x]@
}

/// Ghost bookkeeping for a cache read: every live slot below `k` has
/// been collected at position `pos[l]`.
pub open spec fn positions_ok(
    recs: Seq<RecordEntry>,
    out: Seq<Answer>,
    pos: Map<int, int>,
    k: int,
    qt: QueryType,
    now: int,
) -> bool {
    forall|l: int|
        0 <= l < k && #[trigger] slot_live(recs, l, qt, now) ==> pos.contains_key(l) && 0 <= pos[l]
            < out.len() && out[pos[l]]@ == recs[l].record@
}

/// A record counts as served for `(name, qt)` at second `now`: cached,
/// owned by `name`, of type `qt`, and not yet expired.
pub open spec fn live(c: DnsCache, name: Seq<char>, qt: QueryType, now: int, a: AnswerV) -> bool {
    &&& c.contents().contains_key(a)
    &&& a.name == name
    &&& a.query_type == qt
    &&& c.contents()[a] >= now
}

/// What a cache read returns: every live record exactly once, and
/// nothing when there is none.
pub open spec fn get_post(
    c: DnsCache,
    name: Seq<char>,
    qt: QueryType,
    now: int,
    r: Option<Vec<Answer>>,
) -> bool {
    match r {
        Some(v) => {
            &&& v@.len() > 0
            &&& forall|x: int, y: int| 0 <= x < y < v@.len() ==> v@[x]@ != v@[y]@
            &&& forall|a: AnswerV|
                live(c, name, qt, now, a) <==> exists|x: int| 0 <= x < v@.len() && v@[x]@ == a
        },
        None => forall|a: AnswerV| !live(c, name, qt, now, a),
    }
}

/// The cache after one record is offered at second `now`: a record
/// already present keeps its old stamp.
pub open spec fn spec_insert_one(m: Map<AnswerV, int>, a: AnswerV, now: int) -> Map<AnswerV, int> {
    if m.contains_key(a) {
        m
    } else {
        m.insert(a, now + a.ttl)
    }
}

/// The cache after a batch is offered in order at second `now`.
pub open spec fn spec_insert_batch(m: Map<AnswerV, int>, s: Seq<AnswerV>, now: int) -> Map<
    AnswerV,
    int,
>
    decreases s.len(),
{
    if s.len() == 0 {
        m
    } else {
        spec_insert_batch(spec_insert_one(m, s[0], now), s.drop_first(), now)
    }
}


impl DnsCache {
    /// An entry for `name` exists exactly when some cached record is
    /// owned by `name`.
    pub proof fn lemma_name_present(self, name: Seq<char>)
        requires
            self.wf(),
        ensures
            (exists|i: int|
                0 <= i < self.cache@.len() && (#[trigger] self.cache@[i]).domain@ == name) <==> (
            exists|k: AnswerV|
                #[trigger] self.contents().contains_key(k) && k.name == name),
    {
        if exists|i: int|
            0 <= i < self.cache@.len() && (#[trigger] self.cache@[i]).domain@ == name {
            let i = choose|i: int|
                0 <= i < self.cache@.len() && (#[trigger] self.cache@[i]).domain@ == name;
            let a = self.cache@[i].record_types@[0].record@;
            assert(self.record_at(i, 0, a));
            self.lemma_expiry_at(a, i, 0);
            assert(self.contents().contains_key(a) && a.name == name);
        }
        if exists|k: AnswerV| #[trigger] self.contents().contains_key(k) && k.name == name {
            let k = choose|k: AnswerV| #[trigger] self.contents().contains_key(k) && k.name == name;
            let (i, l) = choose|i: int, l: int| self.record_at(i, l, k);
            assert(self.cache@[i].domain@ == name);
        }
    }

    /// Every record at `(query_name, query_type)` that has not expired
    /// by second `now`, each exactly once; `None` when there is none.
    pub fn get_at(&self, query_name: &str, query_type: &QueryType, now: u64) -> (r: Option<
        Vec<Answer>,
    >)
        requires
            self.wf(),
        ensures
            get_post(*self, query_name@, *query_type, now as int, r),
    {
        let ghost name = query_name@;
        let ghost qt = *query_type;
        let mut i: usize = 0;
        while i < self.cache.len()
            invariant
                self.wf(),
                name == query_name@,
                qt == *query_type,
                i <= self.cache@.len(),
                forall|j: int| 0 <= j < i ==> (#[trigger] self.cache@[j]).domain@ != name,
            decreases self.cache@.len() - i,
        {
            if str_eq(self.cache[i].domain.as_str(), query_name) {
                let recs = &self.cache[i].record_types;
                let mut out: Vec<Answer> = Vec::new();
                let ghost mut idxs: Seq<int> = Seq::empty();
                let ghost mut pos: Map<int, int> = Map::empty();
                let mut k: usize = 0;
                while k < recs.len()
                    invariant
                        self.wf(),
                        name == query_name@,
                        qt == *query_type,
                        i < self.cache@.len(),
                        recs == &self.cache@[i as int].record_types,
                        self.cache@[i as int].domain@ == name,
                        k <= recs@.len(),
                        witnesses_ok(recs@, out@, idxs, k as int, qt, now as int),
                        positions_ok(recs@, out@, pos, k as int, qt, now as int),
                        forall|x: int, y: int| 0 <= x < y < out@.len() ==> out@[x]@ != out@[y]@,
                    decreases recs@.len() - k,
                {
                    let entry = &recs[k];
                    if entry.record.query_type == *query_type && !entry.is_expired_at(now) {
                        let ghost pre = out@;
                        let ghost pre_idxs = idxs;
                        let ghost pre_pos = pos;
                        let copy = entry.record.duplicate();
                        out.push(copy);
                        proof {
                            assert(slot_live(recs@, k as int, qt, now as int));
                            idxs = idxs.push(k as int);
                            pos = pos.insert(k as int, pre.len() as int);
                            assert forall|x: int, y: int|
                                0 <= x < y < out@.len() implies out@[x]@ != out@[y]@ by {
                                if y == pre.len() as int {
                                    assert(out@[x] == pre[x]);
                                    assert(0 <= pre_idxs[x] < k);
                                    assert(recs@[pre_idxs[x]].record@ == pre[x]@);
                                    assert(recs@[pre_idxs[x]].record@ != recs@[k as int].record@);
                                }
                            };
                            assert(witnesses_ok(recs@, out@, idxs, k + 1, qt, now as int)) by {
                                if !witnesses_ok(recs@, out@, idxs, k + 1, qt, now as int) {
                                    let x = choose|x: int|
                                        0 <= x < out@.len() && !(0 <= #[trigger] idxs[x] < k + 1
                                            && slot_live(recs@, idxs[x], qt, now as int)
                                            && recs@[idxs[x]].record@ == out@[x]@);
                                    if x < pre.len() {
                                        assert(idxs[x] == pre_idxs[x]);
                                        assert(out@[x] == pre[x]);
                                        assert(0 <= pre_idxs[x] < k);
                                    } else {
                                        assert(idxs[x] == k as int);
                                        assert(out@[x]@ == recs@[k as int].record@);
                                    }
                                    assert(false);
                                }
                            };
                            assert(positions_ok(recs@, out@, pos, k + 1, qt, now as int)) by {
                                if !positions_ok(recs@, out@, pos, k + 1, qt, now as int) {
                                    let l = choose|l: int|
                                        0 <= l < k + 1 && slot_live(recs@, l, qt, now as int) && !(
                                        #[trigger] pos.contains_key(l) && 0 <= pos[l] < out@.len()
                                            && out@[pos[l]]@ == recs@[l].record@);
                                    if l < k {
                                        assert(pre_pos.contains_key(l));
                                        assert(pos[l] == pre_pos[l]);
                                        assert(out@[pre_pos[l]] == pre[pre_pos[l]]);
                                    } else {
                                        assert(pos[l] == pre.len() as int);
                                        assert(out@[pre.len() as int]@ == recs@[k as int].record@);
                                    }
                                    assert(false);
                                }
                            };
                        }
                    } else {
                        proof {
                            assert(!slot_live(recs@, k as int, qt, now as int));
                            assert(witnesses_ok(recs@, out@, idxs, k + 1, qt, now as int)) by {
                                if !witnesses_ok(recs@, out@, idxs, k + 1, qt, now as int) {
                                    let x = choose|x: int|
                                        0 <= x < out@.len() && !(0 <= #[trigger] idxs[x] < k + 1
                                            && slot_live(recs@, idxs[x], qt, now as int)
                                            && recs@[idxs[x]].record@ == out@[x]@);
                                    assert(0 <= idxs[x] < k);
                                    assert(false);
                                }
                            };
                            assert(positions_ok(recs@, out@, pos, k + 1, qt, now as int)) by {
                                if !positions_ok(recs@, out@, pos, k + 1, qt, now as int) {
                                    let l = choose|l: int|
                                        0 <= l < k + 1 && slot_live(recs@, l, qt, now as int) && !(
                                        #[trigger] pos.contains_key(l) && 0 <= pos[l] < out@.len()
                                            && out@[pos[l]]@ == recs@[l].record@);
                                    assert(l != k);
                                    assert(0 <= l < k && slot_live(recs@, l, qt, now as int));
                                    assert(false);
                                }
                            };
                        }
                    }
                    k = k + 1;
                }
                if out.len() == 0 {
                    proof {
                        assert forall|a: AnswerV| !live(*self, name, qt, now as int, a) by {
                            if live(*self, name, qt, now as int, a) {
                                let (i2, l) = choose|i2: int, l: int| self.record_at(i2, l, a);
                                assert(self.cache@[i2].domain@ == a.name);
                                if i2 != i as int {
                                    assert(self.cache@[i2].domain@ != self.cache@[
                                        i as int].domain@);
                                }
                                self.lemma_expiry_at(a, i as int, l);
                                assert(slot_live(recs@, l, qt, now as int));
                                assert(positions_ok(recs@, out@, pos, recs@.len() as int, qt,
                                    now as int));
                                assert(pos.contains_key(l) && 0 <= pos[l] < out@.len());
                            }
                        };
                    }
                    return None;
                }
                proof {
                    assert forall|a: AnswerV|
                        live(*self, name, qt, now as int, a) <==> exists|x: int|
                            0 <= x < out@.len() && (#[trigger] out@[x])@ == a by {
                        if live(*self, name, qt, now as int, a) {
                            let (i2, l) = choose|i2: int, l: int| self.record_at(i2, l, a);
                            assert(self.cache@[i2].domain@ == a.name);
                            if i2 != i as int {
                                assert(self.cache@[i2].domain@ != self.cache@[i as int].domain@);
                            }
                            self.lemma_expiry_at(a, i as int, l);
                            assert(slot_live(recs@, l, qt, now as int));
                            assert(pos.contains_key(l) && 0 <= pos[l] < out@.len() && out@[pos[l]]@
                                == recs@[l].record@);
                            assert(0 <= pos[l] < out@.len() && out@[pos[l]]@ == a);
                        }
                        if exists|x: int| 0 <= x < out@.len() && (#[trigger] out@[x])@ == a {
                            let x = choose|x: int|
                                0 <= x < out@.len() && (#[trigger] out@[x])@ == a;
                            assert(0 <= idxs[x] < recs@.len());
                            assert(slot_live(recs@, idxs[x], qt, now as int));
                            assert(recs@[idxs[x]].record@ == a);
                            assert(self.record_at(i as int, idxs[x], a));
                            self.lemma_expiry_at(a, i as int, idxs[x]);
                        }
                    };
                }
                return Some(out);
            }
            i = i + 1;
        }
        proof {
            assert forall|a: AnswerV| !live(*self, name, qt, now as int, a) by {
                if live(*self, name, qt, now as int, a) {
                    let (i2, l) = choose|i2: int, l: int| self.record_at(i2, l, a);
                    assert(self.cache@[i2].domain@ == a.name);
                }
            };
        }
        None
    }

    /// Every record at `(query_name, query_type)` that has not expired
    /// by the wall clock; `None` when there is none.
    pub fn get(&self, query_name: &str, query_type: &QueryType) -> (r: Option<Vec<Answer>>)
        requires
            self.wf(),
        ensures
            exists|now: int|
                #[trigger] clock_second(now) && get_post(
                    *self,
                    query_name@,
                    *query_type,
                    now,
                    r,
                ),
    {
        let now = wall_clock_second();
        let r = self.get_at(query_name, query_type, now);
        proof {
            assert(clock_second(now as int));
        }
        r
    }
}


impl DnsCache {
    /// Offers one record at second `now`: it lands in the entry of its
    /// own name, creating the entry if there is none, and is dropped if
    /// an equal record is already cached.
    fn insert_record_at(&mut self, answer: Answer, now: u64)
        requires
            old(self).wf(),
            now <= MAX_CACHE_TIME,
        ensures
            final(self).wf(),
            final(self).contents() == spec_insert_one(old(self).contents(), answer@, now as int),
    {
        let ghost c0 = *self;
        let ghost a = answer@;
        let mut i: usize = 0;
        while i < self.cache.len()
            invariant
                c0 == *old(self),
                a == answer@,
                now <= MAX_CACHE_TIME,
                *self == c0,
                self.wf(),
                i <= self.cache@.len(),
                forall|j: int| 0 <= j < i ==> (#[trigger] self.cache@[j]).domain@ != answer@.name,
            decreases self.cache@.len() - i,
        {
            if str_eq(self.cache[i].domain.as_str(), answer.name.as_str()) {
                // an entry for this name exists: drop a duplicate, else add
                let mut k: usize = 0;
                let n = self.cache[i].record_types.len();
                while k < n
                    invariant
                        c0 == *old(self),
                        a == answer@,
                        now <= MAX_CACHE_TIME,
                        *self == c0,
                        self.wf(),
                        i < self.cache@.len(),
                        self.cache@[i as int].domain@ == answer@.name,
                        n == self.cache@[i as int].record_types@.len(),
                        k <= n,
                        forall|l: int|
                            0 <= l < k ==> (#[trigger] self.cache@[i as int].record_types@[l]).record@
                                != answer@,
                    decreases n - k,
                {
                    if self.cache[i].record_types[k].record == answer {
                        proof {
                            assert(self.record_at(i as int, k as int, a));
                            self.lemma_expiry_at(a, i as int, k as int);
                            assert(self.contents() =~= spec_insert_one(
                                c0.contents(),
                                a,
                                now as int,
                            ));
                        }
                        return ;
                    }
                    k = k + 1;
                }
                proof {
                    // the record is nowhere in the cache: any slot holding it
                    // would sit in this entry, and this entry has none
                    if c0.has_record(a) {
                        let (i2, l) = choose|i2: int, l: int| c0.record_at(i2, l, a);
                        assert(c0.cache@[i2].domain@ == a.name);
                        if i2 != i as int {
                            assert(c0.cache@[i2].domain@ != c0.cache@[i as int].domain@);
                        }
                        assert(false);
                    }
                }
                let rec = RecordEntry::new_at(answer, now);
                let entry = vstd::std_specs::vec::vec_index_mut(&mut self.cache, i);
                entry.record_types.push(rec);
                proof {
                    let ghost c1 = *self;
                    let pre = c0.cache@[i as int].record_types@;
                    assert(c1.cache@[i as int].record_types@ == pre.push(rec));
                    assert(c1.cache@[i as int].domain == c0.cache@[i as int].domain);
                    assert forall|x: AnswerV|
                        c1.has_record(x) <==> (c0.has_record(x) || x == a) by {
                        if c1.has_record(x) {
                            let (i2, l) = choose|i2: int, l: int| c1.record_at(i2, l, x);
                            if i2 == i as int && l == pre.len() as int {
                                assert(x == a);
                            } else {
                                assert(c0.record_at(i2, l, x));
                                assert(c0.has_record(x));
                            }
                        }
                        if c0.has_record(x) {
                            let (i2, l) = choose|i2: int, l: int| c0.record_at(i2, l, x);
                            assert(c1.record_at(i2, l, x));
                            assert(c1.has_record(x));
                        }
                        if x == a {
                            assert(c1.record_at(i as int, pre.len() as int, x));
                            assert(c1.has_record(x));
                        }
                    };
                    assert(c1.wf()) by {
                        assert forall|i2: int, k2: int, l2: int|
                            0 <= i2 < c1.cache@.len() && 0 <= k2 < l2 < c1.cache@[
                            i2].record_types@.len() implies c1.cache@[i2].record_types@[k2].record@
                            != c1.cache@[i2].record_types@[l2].record@ by {
                            if i2 == i as int && l2 == pre.len() as int {
                                assert(c0.record_at(i2, k2, c0.cache@[i2].record_types@[k2].record@));
                                if c1.cache@[i2].record_types@[k2].record@ == a {
                                    assert(c0.has_record(a));
                                }
                            }
                        };
                    };
                    assert forall|x: AnswerV| #[trigger] c1.contents().contains_key(x) implies
                        c1.contents()[x] == spec_insert_one(c0.contents(), a, now as int)[x] by {
                        if x == a {
                            c1.lemma_expiry_at(x, i as int, pre.len() as int);
                        } else {
                            let (i2, l) = choose|i2: int, l: int| c0.record_at(i2, l, x);
                            c0.lemma_expiry_at(x, i2, l);
                            assert(c1.record_at(i2, l, x));
                            c1.lemma_expiry_at(x, i2, l);
                        }
                    };
                    assert(c1.contents() =~= spec_insert_one(c0.contents(), a, now as int));
                }
                return ;
            }
            i = i + 1;
        }
        proof {
            if c0.has_record(a) {
                let (i2, l) = choose|i2: int, l: int| c0.record_at(i2, l, a);
                assert(c0.cache@[i2].domain@ == a.name);
                assert(false);
            }
        }
        let domain = answer.name.clone();
        let rec = RecordEntry::new_at(answer, now);
        let mut records: Vec<RecordEntry> = Vec::new();
        records.push(rec);
        let ghost pre_len = self.cache@.len();
        self.cache.push(CacheEntry { domain, record_types: records });
        proof {
            let c1 = *self;
            assert(c1.cache@[pre_len as int].record_types@.len() == 1);
            assert(c1.cache@[pre_len as int].record_types@[0].record@ == a);
            assert forall|x: AnswerV| c1.has_record(x) <==> (c0.has_record(x) || x == a) by {
                if c1.has_record(x) {
                    let (i2, l) = choose|i2: int, l: int| c1.record_at(i2, l, x);
                    if i2 == pre_len as int {
                        assert(x == a);
                    } else {
                        assert(c0.record_at(i2, l, x));
                        assert(c0.has_record(x));
                    }
                }
                if c0.has_record(x) {
                    let (i2, l) = choose|i2: int, l: int| c0.record_at(i2, l, x);
                    assert(c1.record_at(i2, l, x));
                    assert(c1.has_record(x));
                }
                if x == a {
                    assert(c1.record_at(pre_len as int, 0, x));
                    assert(c1.has_record(x));
                }
            };
            assert forall|x: AnswerV| #[trigger] c1.contents().contains_key(x) implies
                c1.contents()[x] == spec_insert_one(c0.contents(), a, now as int)[x] by {
                if x == a {
                    c1.lemma_expiry_at(x, pre_len as int, 0);
                } else {
                    let (i2, l) = choose|i2: int, l: int| c0.record_at(i2, l, x);
                    c0.lemma_expiry_at(x, i2, l);
                    assert(c1.record_at(i2, l, x));
                    c1.lemma_expiry_at(x, i2, l);
                }
            };
            assert(c1.contents() =~= spec_insert_one(c0.contents(), a, now as int));
        }
    }
}


pub proof fn lemma_insert_batch_snoc(m: Map<AnswerV, int>, s: Seq<AnswerV>, x: AnswerV, now: int)
    ensures
        spec_insert_batch(m, s.push(x), now) == spec_insert_one(spec_insert_batch(m, s, now), x, now),
    decreases s.len(),
{
    reveal_with_fuel(spec_insert_batch, 3);
    if s.len() == 0 {
        assert(s.push(x).drop_first() =~= s);
        assert(s.push(x)[0] == x);
    } else {
        assert(s.push(x).drop_first() =~= s.drop_first().push(x));
        assert(s.push(x)[0] == s[0]);
        lemma_insert_batch_snoc(spec_insert_one(m, s[0], now), s.drop_first(), x, now);
    }
}

/// A key already cached keeps its stamp through any batch.
pub proof fn lemma_insert_batch_preserves(m: Map<AnswerV, int>, s: Seq<AnswerV>, now: int, x: AnswerV)
    requires
        m.contains_key(x),
    ensures
        spec_insert_batch(m, s, now).contains_key(x),
        spec_insert_batch(m, s, now)[x] == m[x],
    decreases s.len(),
{
    if s.len() > 0 {
        lemma_insert_batch_preserves(spec_insert_one(m, s[0], now), s.drop_first(), now, x);
    }
}

/// Every record of an inserted batch is cached afterwards.
pub proof fn lemma_insert_batch_adds(m: Map<AnswerV, int>, s: Seq<AnswerV>, now: int, i: int)
    requires
        0 <= i < s.len(),
    ensures
        spec_insert_batch(m, s, now).contains_key(s[i]),
    decreases s.len(),
{
    if i == 0 {
        lemma_insert_batch_preserves(spec_insert_one(m, s[0], now), s.drop_first(), now, s[0]);
    } else {
        lemma_insert_batch_adds(spec_insert_one(m, s[0], now), s.drop_first(), now, i - 1);
        assert(s.drop_first()[i - 1] == s[i]);
    }
}

/// A record not yet cached gets the stamp of its first occurrence.
pub proof fn lemma_insert_batch_new(m: Map<AnswerV, int>, s: Seq<AnswerV>, now: int, i: int)
    requires
        0 <= i < s.len(),
        !m.contains_key(s[i]),
        forall|j: int| 0 <= j < i ==> s[j] != s[i],
    ensures
        spec_insert_batch(m, s, now).contains_key(s[i]),
        spec_insert_batch(m, s, now)[s[i]] == now + s[i].ttl,
    decreases s.len(),
{
    if i == 0 {
        lemma_insert_batch_preserves(spec_insert_one(m, s[0], now), s.drop_first(), now, s[0]);
    } else {
        assert(s[0] != s[i]);
        assert(!spec_insert_one(m, s[0], now).contains_key(s[i]));
        lemma_insert_batch_new(spec_insert_one(m, s[0], now), s.drop_first(), now, i - 1);
        assert(s.drop_first()[i - 1] == s[i]);
        assert(forall|j: int| 0 <= j < i - 1 ==> s.drop_first()[j] == s[j + 1]);
    }
}

/// A batch whose records are all cached already changes nothing.
pub proof fn lemma_insert_batch_noop(m: Map<AnswerV, int>, s: Seq<AnswerV>, now: int)
    requires
        forall|i: int| 0 <= i < s.len() ==> m.contains_key(#[trigger] s[i]),
    ensures
        spec_insert_batch(m, s, now) == m,
    decreases s.len(),
{
    if s.len() > 0 {
        assert(m.contains_key(s[0]));
        assert(spec_insert_one(m, s[0], now) == m);
        assert(forall|i: int| 0 <= i < s.drop_first().len() ==> m.contains_key(
            #[trigger] s.drop_first()[i]));
        lemma_insert_batch_noop(m, s.drop_first(), now);
    }
}

/// Inserting a batch twice leaves exactly the cache that the first
/// insertion left, whatever the clock said the second time: re-inserted
/// records are dropped, not refreshed.
pub proof fn lemma_insert_twice_idempotent(
    m: Map<AnswerV, int>,
    s: Seq<AnswerV>,
    n1: int,
    n2: int,
)
    ensures
        spec_insert_batch(spec_insert_batch(m, s, n1), s, n2) == spec_insert_batch(m, s, n1),
{
    let m1 = spec_insert_batch(m, s, n1);
    assert forall|i: int| 0 <= i < s.len() implies m1.contains_key(#[trigger] s[i]) by {
        lemma_insert_batch_adds(m, s, n1, i);
    };
    lemma_insert_batch_noop(m1, s, n2);
}

/// A fresh record inserted at second `now` counts as live for a read at
/// second `t2` exactly when `t2` is at most `now` plus its TTL: it is
/// served throughout its TTL and not after.
pub proof fn lemma_ttl_window(m: Map<AnswerV, int>, s: Seq<AnswerV>, now: int, i: int, t2: int)
    requires
        0 <= i < s.len(),
        !m.contains_key(s[i]),
        forall|j: int| 0 <= j < i ==> s[j] != s[i],
    ensures
        spec_insert_batch(m, s, now).contains_key(s[i]),
        (spec_insert_batch(m, s, now)[s[i]] >= t2) <==> (t2 <= now + s[i].ttl),
{
    lemma_insert_batch_new(m, s, now, i);
}

impl DnsCache {
    /// Offers a batch of records at second `now`, each grouped into the
    /// entry of its own owner name.
    pub fn insert_at(&mut self, answers: Vec<Answer>, now: u64)
        requires
            old(self).wf(),
            now <= MAX_CACHE_TIME,
        ensures
            final(self).wf(),
            final(self).contents() == spec_insert_batch(
                old(self).contents(),
                answers@.map_values(|x: Answer| x@),
                now as int,
            ),
    {
        let ghost views = answers@.map_values(|x: Answer| x@);
        let ghost m0 = self.contents();
        proof {
            assert(views.take(0) =~= Seq::<AnswerV>::empty());
        }
        let mut j: usize = 0;
        while j < answers.len()
            invariant
                views == answers@.map_values(|x: Answer| x@),
                m0 == old(self).contents(),
                now <= MAX_CACHE_TIME,
                j <= answers@.len(),
                self.wf(),
                self.contents() == spec_insert_batch(m0, views.take(j as int), now as int),
            decreases answers@.len() - j,
        {
            self.insert_record_at(answers[j].duplicate(), now);
            proof {
                assert(views[j as int] == answers@[j as int]@);
                assert(views.take(j + 1) =~= views.take(j as int).push(views[j as int]));
                lemma_insert_batch_snoc(m0, views.take(j as int), views[j as int], now as int);
            }
            j = j + 1;
        }
        proof {
            assert(views.take(answers@.len() as int) =~= views);
        }
    }

    /// Offers a batch of records now, by the wall clock.  An empty batch
    /// changes nothing.
    pub fn insert(&mut self, answers: Vec<Answer>)
        requires
            old(self).wf(),
        ensures
            final(self).wf(),
            exists|now: int|
                #[trigger] clock_second(now) && final(self).contents() == spec_insert_batch(
                    old(self).contents(),
                    answers@.map_values(|x: Answer| x@),
                    now,
                ),
    {
        let now = wall_clock_second();
        self.insert_at(answers, now);
        proof {
            assert(clock_second(now as int));
        }
    }

    /// Stores the answer, authority and additional sections of an
    /// upstream message, as three batches in that order.
    pub fn insert_all(&mut self, packet: &DnsPacket)
        requires
            old(self).wf(),
        ensures
            final(self).wf(),
            exists|n1: int, n2: int, n3: int|
                #![trigger clock_second(n1), clock_second(n2), clock_second(n3)]
                clock_second(n1) && clock_second(n2) && clock_second(n3) && final(self).contents()
                    == spec_insert_batch(
                    spec_insert_batch(
                        spec_insert_batch(old(self).contents(), packet@.answers, n1),
                        packet@.authorities,
                        n2,
                    ),
                    packet@.additional,
                    n3,
                ),
    {
        let n1 = wall_clock_second();
        self.insert_at(crate::dns_packet::copy_answers(&packet.answers), n1);
        let n2 = wall_clock_second();
        self.insert_at(crate::dns_packet::copy_answers(&packet.authorities), n2);
        let n3 = wall_clock_second();
        self.insert_at(crate::dns_packet::copy_answers(&packet.additional), n3);
        proof {
            assert(clock_second(n1 as int) && clock_second(n2 as int) && clock_second(n3 as int));
        }
    }

    /// Whether an entry for `name` exists.
    fn has_domain(&self, name: &str) -> (r: bool)
        ensures
            r == exists|i: int|
                0 <= i < self.cache@.len() && (#[trigger] self.cache@[i]).domain@ == name@,
    {
        let mut i: usize = 0;
        while i < self.cache.len()
            invariant
                i <= self.cache@.len(),
                forall|j: int| 0 <= j < i ==> (#[trigger] self.cache@[j]).domain@ != name@,
            decreases self.cache@.len() - i,
        {
            if str_eq(self.cache[i].domain.as_str(), name) {
                return true;
            }
            i = i + 1;
        }
        false
    }
}

/// Some cached record is owned by `name`.
pub open spec fn has_name(m: Map<AnswerV, int>, name: Seq<char>) -> bool {
    exists|k: AnswerV| #[trigger] m.contains_key(k) && k.name == name
}

/// The cache after one record is offered to an existing entry: a record
/// whose owner name has no entry is dropped.
pub open spec fn spec_update_one(m: Map<AnswerV, int>, a: AnswerV, now: int) -> Map<AnswerV, int> {
    if has_name(m, a.name) {
        spec_insert_one(m, a, now)
    } else {
        m
    }
}

/// The cache after a batch is offered to existing entries only.
pub open spec fn spec_update_batch(m: Map<AnswerV, int>, s: Seq<AnswerV>, now: int) -> Map<
    AnswerV,
    int,
>
    decreases s.len(),
{
    if s.len() == 0 {
        m
    } else {
        spec_update_batch(spec_update_one(m, s[0], now), s.drop_first(), now)
    }
}

pub proof fn lemma_update_batch_snoc(m: Map<AnswerV, int>, s: Seq<AnswerV>, x: AnswerV, now: int)
    ensures
        spec_update_batch(m, s.push(x), now) == spec_update_one(spec_update_batch(m, s, now), x, now),
    decreases s.len(),
{
    reveal_with_fuel(spec_update_batch, 3);
    if s.len() == 0 {
        assert(s.push(x).drop_first() =~= s);
        assert(s.push(x)[0] == x);
    } else {
        assert(s.push(x).drop_first() =~= s.drop_first().push(x));
        assert(s.push(x)[0] == s[0]);
        lemma_update_batch_snoc(spec_update_one(m, s[0], now), s.drop_first(), x, now);
    }
}

impl DnsCache {
    /// Merges one record into the entry of its name, when that entry
    /// exists; a record of an unknown name is dropped.
    fn update_record_at(&mut self, answer: Answer, now: u64)
        requires
            old(self).wf(),
            now <= MAX_CACHE_TIME,
        ensures
            final(self).wf(),
            final(self).contents() == spec_update_one(old(self).contents(), answer@, now as int),
    {
        let present = self.has_domain(self.cache_name_of(&answer));
        proof {
            self.lemma_name_present(answer@.name);
        }
        if present {
            self.insert_record_at(answer, now);
        }
    }

    /// The owner name of a record, borrowed for a lookup.
    fn cache_name_of<'a>(&self, answer: &'a Answer) -> (r: &'a str)
        ensures
            r@ == answer@.name,
    {
        answer.name.as_str()
    }

    /// Merges a batch into existing entries at second `now`.  Reports
    /// `Some` exactly when the first record's name already has an entry.
    pub fn update_at(&mut self, answers: &Vec<Answer>, now: u64) -> (r: Option<()>)
        requires
            old(self).wf(),
            now <= MAX_CACHE_TIME,
        ensures
            final(self).wf(),
            (match r {
                Some(u) => answers@.len() > 0 && has_name(old(self).contents(), answers@[0]@.name)
                    && final(self).contents() == spec_update_batch(
                    old(self).contents(),
                    answers@.map_values(|x: Answer| x@),
                    now as int,
                ),
                None => final(self).contents() == old(self).contents() && !(answers@.len() > 0
                    && has_name(old(self).contents(), answers@[0]@.name)),
            }),
    {
        let ghost views = answers@.map_values(|x: Answer| x@);
        let ghost m0 = self.contents();
        proof {
            assert(views.take(0) =~= Seq::<AnswerV>::empty());
        }
        if answers.len() == 0 {
            return None;
        }
        let first_present = self.has_domain(self.cache_name_of(&answers[0]));
        proof {
            self.lemma_name_present(answers@[0]@.name);
        }
        if !first_present {
            return None;
        }
        let mut j: usize = 0;
        while j < answers.len()
            invariant
                views == answers@.map_values(|x: Answer| x@),
                m0 == old(self).contents(),
                now <= MAX_CACHE_TIME,
                j <= answers@.len(),
                self.wf(),
                self.contents() == spec_update_batch(m0, views.take(j as int), now as int),
            decreases answers@.len() - j,
        {
            self.update_record_at(answers[j].duplicate(), now);
            proof {
                assert(views[j as int] == answers@[j as int]@);
                assert(views.take(j + 1) =~= views.take(j as int).push(views[j as int]));
                lemma_update_batch_snoc(m0, views.take(j as int), views[j as int], now as int);
            }
            j = j + 1;
        }
        proof {
            assert(views.take(answers@.len() as int) =~= views);
        }
        Some(())
    }

    /// Merges a batch into existing entries now, by the wall clock.
    pub fn update(&mut self, answers: &Vec<Answer>) -> (r: Option<()>)
        requires
            old(self).wf(),
        ensures
            final(self).wf(),
            exists|now: int|
                #[trigger] clock_second(now) && (match r {
                    Some(u) => final(self).contents() == spec_update_batch(
                        old(self).contents(),
                        answers@.map_values(|x: Answer| x@),
                        now,
                    ),
                    None => final(self).contents() == old(self).contents(),
                }),
            r is Some <==> answers@.len() > 0 && has_name(
                old(self).contents(),
                answers@[0]@.name,
            ),
    {
        let now = wall_clock_second();
        let r = self.update_at(answers, now);
        proof {
            assert(clock_second(now as int));
        }
        r
    }
}

} // verus!
