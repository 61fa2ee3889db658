//! Request/response correlation: issuing unique identifiers, holding the
//! table of outstanding requests, and resolving, expiring or cancelling
//! its entries.

use vstd::prelude::*;

verus! {

/// One outstanding request: its identifier and, if the caller set one,
/// the instant after which it times out.
pub struct PendingRequest {
    pub id: u64,
    pub deadline: Option<u64>,
}

/// The correlation table of one connection.
///
/// Its model is the map from outstanding identifier to deadline; every
/// outstanding identifier is unique, and identifiers are never reused
/// while the table lives, because `next_id` only grows.
pub struct Correlator {
    next_id: u64,
    pending: Vec<PendingRequest>,
}

/// The map an entry run stands for.
pub open spec fn pmap(s: Seq<PendingRequest>) -> Map<u64, Option<u64>>
    decreases s.len(),
{
    if s.len() == 0 {
        Map::empty()
    } else {
        pmap(s.drop_last()).insert(s.last().id, s.last().deadline)
    }
}

pub open spec fn ids_distinct(s: Seq<PendingRequest>) -> bool {
    forall|k1: int, k2: int| 0 <= k1 < k2 < s.len() ==> s[k1].id != s[k2].id
}

/// With distinct identifiers, the map holds exactly the entries of the
/// run, each with its own deadline.
pub proof fn lemma_pmap(s: Seq<PendingRequest>)
    requires
        ids_distinct(s),
    ensures
        forall|id: u64|
            pmap(s).contains_key(id) == exists|k: int| 0 <= k < s.len() && #[trigger] s[k].id
                == id,
        forall|k: int|
            0 <= k < s.len() ==> pmap(s).contains_key(#[trigger] s[k].id) && pmap(s)[s[k].id]
                == s[k].deadline,
    decreases s.len(),
{
    if s.len() > 0 {
        let front = s.drop_last();
        assert(ids_distinct(front));
        lemma_pmap(front);
        assert(forall|k: int| 0 <= k < front.len() ==> front[k] == s[k]);
        assert(forall|k: int| 0 <= k < s.len() - 1 ==> s[k].id != s.last().id);
    }
}

impl Correlator {
    pub closed spec fn view(&self) -> Map<u64, Option<u64>> {
        pmap(self.pending@)
    }

    /// Internal shape: distinct identifiers, all below the next one to
    /// be issued, which never exceeds the wire integer range.
    pub closed spec fn wf(&self) -> bool {
        &&& ids_distinct(self.pending@)
        &&& forall|k: int|
            0 <= k < self.pending@.len() ==> (#[trigger] self.pending@[k].id) < self.next_id
        &&& 1 <= self.next_id
        &&& self.next_id <= 0x7fff_ffff_ffff_ffffu64 + 1
    }

    pub closed spec fn outstanding(&self) -> nat {
        self.pending@.len()
    }

    /// Whether the identifier space has run out.
    pub closed spec fn exhausted(&self) -> bool {
        self.next_id > 0x7fff_ffff_ffff_ffffu64
    }

    pub fn new() -> (r: Correlator)
        ensures
            r.wf(),
            r@ == Map::<u64, Option<u64>>::empty(),
            r.outstanding() == 0,
            !r.exhausted(),
    {
        Correlator { next_id: 1, pending: Vec::new() }
    }

    /// Issues a fresh identifier and registers it as outstanding.
    /// `None` only when the identifier space is exhausted.
    pub fn begin_request(&mut self, deadline: Option<u64>) -> (r: Option<u64>)
        requires
            old(self).wf(),
        ensures
            final(self).wf(),
            (r is None) == old(self).exhausted(),
            match r {
                Some(id) => {
                    &&& id <= 0x7fff_ffff_ffff_ffffu64
                    &&& !old(self)@.contains_key(id)
                    &&& final(self)@ == old(self)@.insert(id, deadline)
                    &&& final(self).exhausted() == (id == 0x7fff_ffff_ffff_ffffu64)
                },
                None => final(self)@ == old(self)@ && final(self).exhausted(),
            },
    {
        if self.next_id > 0x7fff_ffff_ffff_ffffu64 {
            return None;
        }
        let id = self.next_id;
        proof {
            lemma_pmap(self.pending@);
        }
        self.next_id = self.next_id + 1;
        self.pending.push(PendingRequest { id, deadline });
        proof {
            assert(self.pending@.drop_last() =~= old(self).pending@);
            assert(ids_distinct(self.pending@));
        }
        Some(id)
    }

    /// Resolves the outstanding request a response names. Returns
    /// whether it matched; a response that matches nothing is an
    /// orphan and leaves the table untouched. Resolving one identifier
    /// never touches any other entry: the new table is exactly the old
    /// one without that identifier.
    pub fn resolve(&mut self, id: u64) -> (matched: bool)
        requires
            old(self).wf(),
        ensures
            final(self).wf(),
            final(self).exhausted() == old(self).exhausted(),
            matched == old(self)@.contains_key(id),
            matched ==> final(self)@ == old(self)@.remove(id),
            !matched ==> final(self)@ == old(self)@,
    {
        proof {
            lemma_pmap(self.pending@);
        }
        let mut k: usize = 0;
        while k < self.pending.len()
            invariant
                k <= self.pending@.len(),
                old(self).wf(),
                forall|m: int| 0 <= m < k ==> (#[trigger] self.pending@[m].id) != id,
                self == old(self),
            decreases self.pending@.len() - k,
        {
            if self.pending[k].id == id {
                let ghost before = self.pending@;
                self.pending.remove(k);
                proof {
                    before.remove_ensures(k as int);
                    assert(self.pending@.len() == before.len() - 1);
                    assert forall|m: int| 0 <= m < self.pending@.len() implies self.pending@[m]
                        == (if m < k {
                        before[m]
                    } else {
                        before[m + 1]
                    }) by {
                        assert(self.pending@ == before.remove(k as int));
                    }
                    assert(ids_distinct(before));
                    assert forall|m1: int, m2: int|
                        0 <= m1 < m2 < self.pending@.len() implies (#[trigger] self.pending@[m1].id)
                        != (#[trigger] self.pending@[m2].id) by {
                        assert(self.pending@[m1] == (if m1 < k {
                            before[m1]
                        } else {
                            before[m1 + 1]
                        }));
                        assert(self.pending@[m2] == (if m2 < k {
                            before[m2]
                        } else {
                            before[m2 + 1]
                        }));
                    }
                    assert(ids_distinct(self.pending@));
                    lemma_pmap(before);
                    lemma_pmap(self.pending@);
                    assert forall|x: u64| pmap(self.pending@).contains_key(x) implies pmap(
                        before,
                    ).remove(id).contains_key(x) && pmap(self.pending@)[x] == pmap(before).remove(
                        id,
                    )[x] by {
                        let m = choose|m: int|
                            0 <= m < self.pending@.len() && #[trigger] self.pending@[m].id == x;
                        if m < k {
                            assert(before[m].id == x);
                        } else {
                            assert(before[m + 1].id == x);
                        }
                    }
                    assert forall|x: u64| pmap(before).remove(id).contains_key(x) implies pmap(
                        self.pending@,
                    ).contains_key(x) by {
                        let m = choose|m: int| 0 <= m < before.len() && #[trigger] before[m].id == x;
                        if m < k {
                            assert(self.pending@[m].id == x);
                        } else {
                            assert(self.pending@[m - 1].id == x);
                        }
                    }
                    assert(pmap(self.pending@) =~= pmap(before).remove(id));
                }
                return true;
            }
            k = k + 1;
        }
        proof {
            if old(self)@.contains_key(id) {
                let m = choose|m: int|
                    0 <= m < self.pending@.len() && #[trigger] self.pending@[m].id == id;
                assert(false);
            }
        }
        false
    }

    /// The deadline, if any, of an outstanding identifier.
    pub fn deadline_of(&self, id: u64) -> (r: Option<Option<u64>>)
        requires
            self.wf(),
        ensures
            match r {
                Some(d) => self@.contains_key(id) && self@[id] == d,
                None => !self@.contains_key(id),
            },
    {
        proof {
            lemma_pmap(self.pending@);
        }
        let mut k: usize = 0;
        while k < self.pending.len()
            invariant
                k <= self.pending@.len(),
                forall|m: int| 0 <= m < k ==> (#[trigger] self.pending@[m].id) != id,
                self.wf(),
            decreases self.pending@.len() - k,
        {
            if self.pending[k].id == id {
                proof {
                    lemma_pmap(self.pending@);
                }
                return Some(self.pending[k].deadline);
            }
            k = k + 1;
        }
        proof {
            lemma_pmap(self.pending@);
            if self@.contains_key(id) {
                let m = choose|m: int|
                    0 <= m < self.pending@.len() && #[trigger] self.pending@[m].id == id;
                assert(false);
            }
        }
        None
    }

    /// Cancels every outstanding request at once, as a disconnect or a
    /// close does, and hands back their identifiers so each can be
    /// resolved with the corresponding error.
    pub fn fail_all(&mut self) -> (ids: Vec<u64>)
        requires
            old(self).wf(),
        ensures
            final(self).wf(),
            final(self)@ == Map::<u64, Option<u64>>::empty(),
            final(self).outstanding() == 0,
            final(self).exhausted() == old(self).exhausted(),
            ids@.len() == old(self).outstanding(),
            forall|k1: int, k2: int| 0 <= k1 < k2 < ids@.len() ==> ids@[k1] != ids@[k2],
            forall|k: int|
                0 <= k < ids@.len() ==> old(self)@.contains_key(#[trigger] ids@[k]),
            forall|id: u64| old(self)@.contains_key(id) ==> ids@.contains(id),
    {
        proof {
            lemma_pmap(self.pending@);
        }
        let mut ids: Vec<u64> = Vec::new();
        let mut k: usize = 0;
        while k < self.pending.len()
            invariant
                k <= self.pending@.len(),
                old(self).wf(),
                ids@.len() == k,
                forall|m: int| 0 <= m < k ==> ids@[m] == (#[trigger] self.pending@[m].id),
                self == old(self),
            decreases self.pending@.len() - k,
        {
            let id = self.pending[k].id;
            ids.push(id);
            k = k + 1;
        }
        self.pending = Vec::new();
        proof {
            lemma_pmap(old(self).pending@);
            assert forall|k1: int, k2: int| 0 <= k1 < k2 < ids@.len() implies ids@[k1]
                != ids@[k2] by {
                assert(ids@[k1] == old(self).pending@[k1].id);
                assert(ids@[k2] == old(self).pending@[k2].id);
            }
            assert forall|m: int| 0 <= m < ids@.len() implies old(self)@.contains_key(
                #[trigger] ids@[m],
            ) by {
                assert(ids@[m] == old(self).pending@[m].id);
            }
            assert forall|id: u64| old(self)@.contains_key(id) implies ids@.contains(id) by {
                let m = choose|m: int|
                    0 <= m < old(self).pending@.len() && #[trigger] old(self).pending@[m].id == id;
                assert(ids@[m] == id);
            }
        }
        ids
    }

    /// Removes every entry whose deadline has passed and hands back
    /// their identifiers, each to be resolved with a timeout error; an
    /// entry without a deadline, or whose deadline lies ahead, stays
    /// exactly as it was.
    pub fn expire(&mut self, now: u64) -> (ids: Vec<u64>)
        requires
            old(self).wf(),
        ensures
            final(self).wf(),
            final(self).exhausted() == old(self).exhausted(),
            forall|k1: int, k2: int| 0 <= k1 < k2 < ids@.len() ==> ids@[k1] != ids@[k2],
            forall|id: u64|
                #[trigger] final(self)@.contains_key(id) == (old(self)@.contains_key(id)
                    && !timed_out(old(self)@[id], now)),
            forall|id: u64|
                final(self)@.contains_key(id) ==> final(self)@[id] == old(self)@[id],
            forall|id: u64|
                #[trigger] ids@.contains(id) == (old(self)@.contains_key(id) && timed_out(
                    old(self)@[id],
                    now,
                )),
    {
        let mut kept: Vec<PendingRequest> = Vec::new();
        let mut ids: Vec<u64> = Vec::new();
        let mut k: usize = 0;
        while k < self.pending.len()
            invariant
                k <= self.pending@.len(),
                old(self).wf(),
                self == old(self),
                kept@ == keep_filter(self.pending@.take(k as int), now),
                ids@ == expired_ids(self.pending@.take(k as int), now),
            decreases self.pending@.len() - k,
        {
            let e = &self.pending[k];
            let expired = match e.deadline {
                Some(d) => d <= now,
                None => false,
            };
            proof {
                assert(self.pending@.take(k + 1).drop_last() =~= self.pending@.take(k as int));
                assert(self.pending@.take(k + 1).last() == self.pending@[k as int]);
            }
            if expired {
                ids.push(e.id);
            } else {
                let item = PendingRequest { id: e.id, deadline: e.deadline };
                proof {
                    assert(item == self.pending@[k as int]);
                }
                kept.push(item);
            }
            k = k + 1;
        }
        let ghost before = self.pending@;
        self.pending = kept;
        proof {
            assert(before.take(before.len() as int) =~= before);
            lemma_expire_split(before, now);
            lemma_pmap(before);
        }
        ids
    }
}

/// The entries of `s` that have not timed out at `now`, in order.
pub open spec fn keep_filter(s: Seq<PendingRequest>, now: u64) -> Seq<PendingRequest>
    decreases s.len(),
{
    if s.len() == 0 {
        Seq::empty()
    } else {
        let front = keep_filter(s.drop_last(), now);
        if timed_out(s.last().deadline, now) {
            front
        } else {
            front.push(s.last())
        }
    }
}

/// The identifiers of the entries of `s` that have timed out at `now`.
pub open spec fn expired_ids(s: Seq<PendingRequest>, now: u64) -> Seq<u64>
    decreases s.len(),
{
    if s.len() == 0 {
        Seq::empty()
    } else {
        let front = expired_ids(s.drop_last(), now);
        if timed_out(s.last().deadline, now) {
            front.push(s.last().id)
        } else {
            front
        }
    }
}

/// Splitting a run by its deadlines partitions its map: the kept part
/// holds exactly the entries that have not timed out, unchanged, and
/// the expired identifiers are exactly the others.
pub proof fn lemma_expire_split(s: Seq<PendingRequest>, now: u64)
    requires
        ids_distinct(s),
    ensures
        ids_distinct(keep_filter(s, now)),
        forall|m: int|
            0 <= m < keep_filter(s, now).len() ==> s.contains(#[trigger] keep_filter(s, now)[m]),
        forall|id: u64|
            #[trigger] pmap(keep_filter(s, now)).contains_key(id) == (pmap(s).contains_key(id)
                && !timed_out(pmap(s)[id], now)),
        forall|id: u64|
            pmap(keep_filter(s, now)).contains_key(id) ==> pmap(keep_filter(s, now))[id] == pmap(
                s,
            )[id],
        forall|id: u64|
            #[trigger] expired_ids(s, now).contains(id) == (pmap(s).contains_key(id) && timed_out(
                pmap(s)[id],
                now,
            )),
        forall|k1: int, k2: int|
            0 <= k1 < k2 < expired_ids(s, now).len() ==> expired_ids(s, now)[k1] != expired_ids(
                s,
                now,
            )[k2],
    decreases s.len(),
{
    if s.len() > 0 {
        let front = s.drop_last();
        let e = s.last();
        assert(ids_distinct(front));
        lemma_expire_split(front, now);
        lemma_pmap(front);
        lemma_pmap(s);
        assert(forall|m: int| 0 <= m < front.len() ==> front[m] == s[m]);
        assert(forall|k: int| 0 <= k < s.len() - 1 ==> s[k].id != e.id);
        assert(!pmap(front).contains_key(e.id));
        let kf = keep_filter(s, now);
        let ff = keep_filter(front, now);
        let xs = expired_ids(s, now);
        let xf = expired_ids(front, now);
        assert forall|m: int| 0 <= m < kf.len() implies s.contains(#[trigger] kf[m]) by {
            if timed_out(e.deadline, now) {
                assert(front.contains(kf[m]));
                let p = choose|p: int| 0 <= p < front.len() && front[p] == kf[m];
                assert(s[p] == kf[m]);
            } else {
                if m < ff.len() {
                    assert(front.contains(ff[m]));
                    let p = choose|p: int| 0 <= p < front.len() && front[p] == ff[m];
                    assert(s[p] == kf[m]);
                } else {
                    assert(kf[m] == e);
                    assert(s[s.len() - 1] == e);
                }
            }
        }
        if !timed_out(e.deadline, now) {
            assert forall|m: int| 0 <= m < ff.len() implies (#[trigger] ff[m].id) != e.id by {
                assert(front.contains(ff[m]));
                let p = choose|p: int| 0 <= p < front.len() && front[p] == ff[m];
            }
            assert(ids_distinct(kf));
            assert(kf.drop_last() =~= ff);
            assert(pmap(kf) == pmap(ff).insert(e.id, e.deadline));
            lemma_pmap(kf);
        } else {
            assert(xs.contains(e.id)) by {
                assert(xs[xs.len() - 1] == e.id);
            }
            assert forall|id: u64| xf.contains(id) implies xs.contains(id) by {
                let m = choose|m: int| 0 <= m < xf.len() && xf[m] == id;
                assert(xs[m] == id);
            }
            assert forall|id: u64| #[trigger] xs.contains(id) implies (pmap(s).contains_key(id)
                && timed_out(pmap(s)[id], now)) by {
                let m = choose|m: int| 0 <= m < xs.len() && xs[m] == id;
                if m < xf.len() {
                    assert(xf.contains(id));
                } else {
                    assert(id == e.id);
                }
            }
            assert forall|id: u64|
                pmap(s).contains_key(id) && timed_out(pmap(s)[id], now) implies xs.contains(
                id,
            ) by {
                if id != e.id {
                    assert(xf.contains(id));
                    let m = choose|m: int| 0 <= m < xf.len() && xf[m] == id;
                    assert(xs[m] == id);
                }
            }
            assert(xs == xf.push(e.id));
            assert forall|k1: int, k2: int| 0 <= k1 < k2 < xs.len() implies xs[k1] != xs[k2] by {
                if k2 < xf.len() {
                    assert(xs[k1] == xf[k1] && xs[k2] == xf[k2]);
                } else {
                    assert(xs[k1] == xf[k1]);
                    assert(xs[k2] == e.id);
                    assert(xf.contains(xf[k1]));
                    if xf[k1] == e.id {
                        assert(pmap(front).contains_key(e.id));
                        assert(false);
                    }
                }
            }
        }
        if !timed_out(e.deadline, now) {
            assert(expired_ids(s, now) == expired_ids(front, now));
        }
    }
}


/// Whether a deadline has passed at instant `now`; no deadline never
/// times out.
pub open spec fn timed_out(deadline: Option<u64>, now: u64) -> bool {
    match deadline {
        Some(d) => d <= now,
        None => false,
    }
}

/// Resolving one outstanding identifier cannot resolve or alter any
/// other: after removing `i` from the table, every other identifier
/// `j` is still present exactly when it was, with its deadline
/// untouched.
pub proof fn lemma_resolve_no_cross_talk(table: Map<u64, Option<u64>>, i: u64, j: u64)
    requires
        i != j,
    ensures
        table.remove(i).contains_key(j) == table.contains_key(j),
        table.contains_key(j) ==> table.remove(i)[j] == table[j],
{
}

} // verus!
