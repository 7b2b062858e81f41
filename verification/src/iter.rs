use vstd::prelude::*;

use crate::error::Error;
use crate::refs::{has_issue_head, has_name, RefDir, Reference};
use crate::store::{NodeId, Store};
use crate::traversal::{reaches_any, Traversal};

verus! {

/// Number of occurrences of `r` in `s`.
pub open spec fn occ(s: Seq<Reference>, r: Reference) -> nat
    decreases s.len(),
{
    if s.len() == 0 {
        0
    } else {
        occ(s.drop_last(), r) + if s.last() == r {
            1nat
        } else {
            0nat
        }
    }
}

/// The references of `w` that target `t`, in watch order.
pub open spec fn targeting(w: Seq<Reference>, t: NodeId) -> Seq<Reference>
    decreases w.len(),
{
    if w.len() == 0 {
        Seq::empty()
    } else {
        let rest = targeting(w.drop_last(), t);
        if w.last().target == t {
            rest.push(w.last())
        } else {
            rest
        }
    }
}

/// The references fired by visiting the ids of `vis`, in order: for each
/// visited id, the watched references targeting it, in watch order.
pub open spec fn fired(w: Seq<Reference>, vis: Seq<NodeId>) -> Seq<Reference>
    decreases vis.len(),
{
    if vis.len() == 0 {
        Seq::empty()
    } else {
        fired(w, vis.drop_last()) + targeting(w, vis.last())
    }
}

/// Occurrence counts after appending one element.
proof fn lemma_occ_snoc(s: Seq<Reference>, x: Reference, r: Reference)
    ensures
        occ(s.push(x), r) == occ(s, r) + if x == r {
            1nat
        } else {
            0nat
        },
{
    assert(s.push(x).drop_last() =~= s);
    assert(s.push(x).last() == x);
}

/// Occurrence counts distribute over concatenation.
proof fn lemma_occ_append(a: Seq<Reference>, b: Seq<Reference>, r: Reference)
    ensures
        occ(a + b, r) == occ(a, r) + occ(b, r),
    decreases b.len(),
{
    if b.len() == 0 {
        assert(a + b =~= a);
    } else {
        lemma_occ_append(a, b.drop_last(), r);
        assert((a + b).drop_last() =~= a + b.drop_last());
        assert((a + b).last() == b.last());
    }
}

/// A reference occurs in a sequence exactly when its count is positive.
pub proof fn lemma_occ_pos(s: Seq<Reference>, r: Reference)
    ensures
        (occ(s, r) > 0) <==> s.contains(r),
    decreases s.len(),
{
    if s.len() > 0 {
        lemma_occ_pos(s.drop_last(), r);
        if s.drop_last().contains(r) {
            let i = choose|i: int| 0 <= i < s.drop_last().len() && s.drop_last()[i] == r;
            assert(s[i] == r);
        }
        if s.contains(r) && s.last() != r {
            let i = choose|i: int| 0 <= i < s.len() && s[i] == r;
            assert(s.drop_last()[i] == r);
        }
    }
}

/// Appending a reference extends its target's bucket and no other.
proof fn lemma_targeting_snoc(w: Seq<Reference>, x: Reference, t: NodeId)
    ensures
        targeting(w.push(x), t) == if x.target == t {
            targeting(w, t).push(x)
        } else {
            targeting(w, t)
        },
{
    assert(w.push(x).drop_last() =~= w);
    assert(w.push(x).last() == x);
}

/// A bucket holds exactly the watched references with its target.
proof fn lemma_targeting_membership(w: Seq<Reference>, t: NodeId, x: Reference)
    ensures
        targeting(w, t).contains(x) <==> (w.contains(x) && x.target == t),
    decreases w.len(),
{
    if w.len() > 0 {
        let dl = w.drop_last();
        lemma_targeting_membership(dl, t, x);
        if dl.contains(x) {
            let i = choose|i: int| 0 <= i < dl.len() && dl[i] == x;
            assert(w[i] == x);
        }
        if targeting(dl, t).contains(x) {
            let i = choose|i: int| 0 <= i < targeting(dl, t).len() && targeting(dl, t)[i] == x;
            if w.last().target == t {
                assert(targeting(w, t)[i] == x);
            }
        }
        if w.contains(x) && x.target == t {
            let i = choose|i: int| 0 <= i < w.len() && w[i] == x;
            if i < w.len() - 1 {
                assert(dl[i] == x);
                assert(targeting(dl, t).contains(x));
            } else {
                assert(targeting(w, t).last() == x);
            }
        }
        if targeting(w, t).contains(x) && (w.last().target != t || w.last() != x) {
            let i = choose|i: int| 0 <= i < targeting(w, t).len() && targeting(w, t)[i] == x;
            if w.last().target == t {
                if i < targeting(w, t).len() - 1 {
                    assert(targeting(dl, t)[i] == x);
                }
            } else {
                assert(targeting(dl, t)[i] == x);
            }
        }
    }
}

/// When no reference of `w` targets `t`, the bucket for `t` is empty.
proof fn lemma_targeting_none(w: Seq<Reference>, t: NodeId)
    requires
        forall|i: int| 0 <= i < w.len() ==> (#[trigger] w[i]).target != t,
    ensures
        targeting(w, t) == Seq::<Reference>::empty(),
    decreases w.len(),
{
    if w.len() == 0 {
        assert(targeting(w, t) =~= Seq::<Reference>::empty());
    } else {
        assert(forall|i: int|
            0 <= i < w.drop_last().len() ==> (#[trigger] w.drop_last()[i]).target != t);
        lemma_targeting_none(w.drop_last(), t);
        assert(w[w.len() - 1].target != t);
    }
}

/// Count of `r` in the bucket for `t`: all of `r`'s occurrences when `r`
/// targets `t`, none otherwise.
proof fn lemma_occ_targeting(w: Seq<Reference>, t: NodeId, r: Reference)
    ensures
        occ(targeting(w, t), r) == if r.target == t {
            occ(w, r)
        } else {
            0nat
        },
    decreases w.len(),
{
    if w.len() > 0 {
        let dl = w.drop_last();
        let x = w.last();
        lemma_occ_targeting(dl, t, r);
        assert(w =~= dl.push(x));
        lemma_occ_snoc(dl, x, r);
        if x.target == t {
            lemma_occ_snoc(targeting(dl, t), x, r);
        }
    }
}

/// Firing one more visited id appends exactly the references targeting it.
proof fn lemma_fired_snoc(w: Seq<Reference>, vis: Seq<NodeId>, v: NodeId)
    ensures
        fired(w, vis.push(v)) == fired(w, vis) + targeting(w, v),
{
    assert(vis.push(v).drop_last() =~= vis);
    assert(vis.push(v).last() == v);
}

/// Exactly-once emission: over a duplicate-free visit sequence, each watched
/// reference fires as often as it was watched when its target is visited,
/// and not at all otherwise — independent of visit length, of visit order
/// and of watch order. References sharing one target all fire together.
pub proof fn lemma_occ_fired(w: Seq<Reference>, vis: Seq<NodeId>, r: Reference)
    requires
        vis.no_duplicates(),
    ensures
        occ(fired(w, vis), r) == if vis.contains(r.target) {
            occ(w, r)
        } else {
            0nat
        },
    decreases vis.len(),
{
    if vis.len() > 0 {
        let dl = vis.drop_last();
        let v = vis.last();
        assert(dl.no_duplicates());
        lemma_occ_fired(w, dl, r);
        lemma_occ_append(fired(w, dl), targeting(w, v), r);
        lemma_occ_targeting(w, v, r);
        if dl.contains(r.target) {
            let j = choose|j: int| 0 <= j < dl.len() && dl[j] == r.target;
            assert(vis[j] == r.target);
            assert(v != r.target) by {
                if vis[vis.len() - 1] == vis[j] {
                }
            }
        } else if v == r.target {
            assert(vis[vis.len() - 1] == r.target);
        } else {
            assert(!vis.contains(r.target)) by {
                if vis.contains(r.target) {
                    let j = choose|j: int| 0 <= j < vis.len() && vis[j] == r.target;
                    assert(dl[j] == r.target);
                }
            }
        }
    }
}

/// Everything fired was watched, and fired only because its target was
/// visited.
pub proof fn lemma_fired_membership(w: Seq<Reference>, vis: Seq<NodeId>, x: Reference)
    requires
        vis.no_duplicates(),
        fired(w, vis).contains(x),
    ensures
        w.contains(x),
        vis.contains(x.target),
{
    lemma_occ_pos(fired(w, vis), x);
    lemma_occ_fired(w, vis, x);
    lemma_occ_pos(w, x);
}

/// A single watched reference fires exactly once when its target is visited.
pub proof fn lemma_fired_singleton(h: Reference, vis: Seq<NodeId>)
    requires
        vis.no_duplicates(),
    ensures
        fired(seq![h], vis) == if vis.contains(h.target) {
            seq![h]
        } else {
            Seq::<Reference>::empty()
        },
    decreases vis.len(),
{
    let s1 = seq![h];
    if vis.len() == 0 {
        assert(fired(s1, vis) =~= Seq::<Reference>::empty());
    } else {
        let dl = vis.drop_last();
        let v = vis.last();
        assert(dl.no_duplicates());
        lemma_fired_singleton(h, dl);
        assert(s1.drop_last() =~= Seq::<Reference>::empty());
        assert(targeting(Seq::<Reference>::empty(), v) =~= Seq::<Reference>::empty());
        assert(s1.last() == h);
        assert(targeting(s1, v) == if h.target == v {
            Seq::<Reference>::empty().push(h)
        } else {
            Seq::<Reference>::empty()
        });
        if h.target == v {
            assert(!dl.contains(h.target)) by {
                if dl.contains(h.target) {
                    let j = choose|j: int| 0 <= j < dl.len() && dl[j] == h.target;
                    assert(vis[j] == vis[vis.len() - 1]);
                }
            }
            assert(fired(s1, vis) =~= seq![h]);
            assert(vis[vis.len() - 1] == h.target);
        } else {
            if dl.contains(h.target) {
                assert(fired(s1, vis) =~= seq![h]);
                let j = choose|j: int| 0 <= j < dl.len() && dl[j] == h.target;
                assert(vis[j] == h.target);
            } else {
                assert(fired(s1, vis) =~= Seq::<Reference>::empty());
                assert(!vis.contains(h.target)) by {
                    if vis.contains(h.target) {
                        let j = choose|j: int| 0 <= j < vis.len() && vis[j] == h.target;
                        assert(dl[j] == h.target);
                    }
                }
            }
        }
    }
}

/// When no watched reference targets a visited id, nothing fires.
pub proof fn lemma_fired_unwatched(w: Seq<Reference>, vis: Seq<NodeId>)
    requires
        forall|i: int| 0 <= i < w.len() ==> !vis.contains((#[trigger] w[i]).target),
    ensures
        fired(w, vis) == Seq::<Reference>::empty(),
    decreases vis.len(),
{
    if vis.len() == 0 {
        assert(fired(w, vis) =~= Seq::<Reference>::empty());
    } else {
        let dl = vis.drop_last();
        assert forall|i: int| 0 <= i < w.len() implies !dl.contains(
            (#[trigger] w[i]).target,
        ) by {
            if dl.contains(w[i].target) {
                let j = choose|j: int| 0 <= j < dl.len() && dl[j] == w[i].target;
                assert(vis[j] == w[i].target);
            }
        }
        lemma_fired_unwatched(w, dl);
        assert forall|i: int| 0 <= i < w.len() implies (#[trigger] w[i]).target != vis.last() by {
            if w[i].target == vis.last() {
                assert(vis[vis.len() - 1] == w[i].target);
            }
        }
        lemma_targeting_none(w, vis.last());
        assert(fired(w, vis) =~= Seq::<Reference>::empty());
    }
}

/// One bucket of the reverse index: the watched references that peel to one
/// target id, in watch order.
struct WatchEntry {
    target: NodeId,
    refs: Vec<Reference>,
}

/// Reachability reverse-index iterator.
///
/// Owns one ancestry traversal and a watch set of references keyed by target
/// id. Drained, it emits exactly the watched references whose target the
/// traversal visits, each exactly once, bucket by bucket; references whose
/// target is never visited are never emitted — they are not redundant, which
/// is the intended outcome, not an error.
pub struct RefsReferringTo {
    watch: Vec<WatchEntry>,
    pending: Vec<Reference>,
    traversal: Traversal,
    watched: Ghost<Seq<Reference>>,
    emitted: Ghost<Seq<Reference>>,
}

impl RefsReferringTo {
    /// Every reference watched so far, in watch order.
    pub closed spec fn watched(self) -> Seq<Reference> {
        self.watched@
    }

    /// Every reference emitted so far, in emission order.
    pub closed spec fn emitted(self) -> Seq<Reference> {
        self.emitted@
    }

    /// The seed set of the owned traversal.
    pub closed spec fn seed_set(self) -> Set<NodeId> {
        self.traversal.seed_set()
    }

    /// Whether the owned traversal follows only first parents.
    pub closed spec fn is_first_parent(self) -> bool {
        self.traversal.is_first_parent()
    }

    /// The ids the owned traversal has visited, in visit order.
    pub closed spec fn trav_emitted(self) -> Seq<NodeId> {
        self.traversal.emitted()
    }

    /// Whether consumption has not started: references may still be watched.
    pub closed spec fn inactive(self) -> bool {
        !self.traversal.started() && self.pending@.len() == 0 && self.emitted@.len() == 0
    }

    /// The iterator's invariant against the store content `m`.
    pub closed spec fn wf(self, m: Map<NodeId, Seq<NodeId>>) -> bool {
        &&& self.traversal.wf(m)
        &&& self.emitted@ + self.pending@ == fired(self.watched@, self.traversal.emitted())
        &&& forall|k: int|
            0 <= k < self.watch@.len() ==> (#[trigger] self.watch@[k]).refs@ == targeting(
                self.watched@,
                self.watch@[k].target,
            ) && !self.traversal.emitted().contains(self.watch@[k].target)
                && self.watch@[k].refs@.len() > 0
        &&& forall|k1: int, k2: int|
            0 <= k1 < k2 < self.watch@.len() ==> (#[trigger] self.watch@[k1]).target != (
            #[trigger] self.watch@[k2]).target
        &&& forall|i: int|
            0 <= i < self.watched@.len() ==> self.traversal.emitted().contains(
                (#[trigger] self.watched@[i]).target,
            ) || exists|k: int|
                0 <= k < self.watch@.len() && (#[trigger] self.watch@[k]).target
                    == self.watched@[i].target
    }

    /// A fresh iterator around a not-yet-consumed traversal.
    pub fn new(traversal: Traversal) -> (it: RefsReferringTo)
        requires
            !traversal.started(),
        ensures
            it.watched() == Seq::<Reference>::empty(),
            it.emitted() == Seq::<Reference>::empty(),
            it.inactive(),
            it.seed_set() == traversal.seed_set(),
            it.is_first_parent() == traversal.is_first_parent(),
            forall|m: Map<NodeId, Seq<NodeId>>| traversal.wf(m) ==> it.wf(m),
    {
        let it = RefsReferringTo {
            watch: Vec::new(),
            pending: Vec::new(),
            traversal,
            watched: Ghost(Seq::empty()),
            emitted: Ghost(Seq::empty()),
        };
        proof {
            assert(it.emitted@ + it.pending@ =~= Seq::<Reference>::empty());
        }
        it
    }

    /// Watch one reference, keyed by the id its target peels to.
    pub fn watch_ref(&mut self, r: Reference)
        requires
            old(self).inactive(),
        ensures
            final(self).watched() == old(self).watched().push(r),
            final(self).emitted() == old(self).emitted(),
            final(self).inactive(),
            final(self).seed_set() == old(self).seed_set(),
            final(self).is_first_parent() == old(self).is_first_parent(),
            forall|m: Map<NodeId, Seq<NodeId>>| old(self).wf(m) ==> final(self).wf(m),
    {
        let ghost old_watch = self.watch@;
        let ghost old_watched = self.watched@;
        let k_found = self.find_entry(r.target);
        match k_found {
            Some(k) => {
                let mut entry = self.watch.remove(k);
                entry.refs.push(r);
                self.watch.push(entry);
            },
            None => {
                let mut refs: Vec<Reference> = Vec::new();
                refs.push(r);
                self.watch.push(WatchEntry { target: r.target, refs });
            },
        }
        proof {
            self.watched@ = self.watched@.push(r);
        }
        proof {
            assert forall|m: Map<NodeId, Seq<NodeId>>| old(self).wf(m) implies self.wf(m) by {
                if old(self).wf(m) {
                    assert(self.traversal.emitted().len() == 0);
                    assert(self.emitted@ + self.pending@ =~= fired(
                        self.watched@,
                        self.traversal.emitted(),
                    ));
                    // Bucket characterization for every entry of the new watch set.
                    assert forall|k: int|
                        0 <= k < self.watch@.len() implies (#[trigger] self.watch@[k]).refs@
                        == targeting(self.watched@, self.watch@[k].target)
                        && !self.traversal.emitted().contains(self.watch@[k].target)
                        && self.watch@[k].refs@.len() > 0 by {
                        let e = self.watch@[k];
                        lemma_targeting_snoc(old_watched, r, e.target);
                        match k_found {
                            Some(kf) => {
                                if k < self.watch@.len() - 1 {
                                    let kk: int = if k < kf as int {
                                        k
                                    } else {
                                        k + 1
                                    };
                                    assert(e == old_watch[kk]);
                                    assert(e.target != r.target) by {
                                        assert(old_watch[kf as int].target == r.target);
                                    }
                                } else {
                                    assert(e.refs@ == old_watch[kf as int].refs@.push(r));
                                    assert(e.target == r.target);
                                }
                            },
                            None => {
                                if k < self.watch@.len() - 1 {
                                    assert(e == old_watch[k]);
                                    assert(e.target != r.target);
                                } else {
                                    assert(e.target == r.target && e.refs@ =~= seq![r]);
                                    assert(targeting(old_watched, e.target) =~= Seq::<
                                        Reference,
                                    >::empty()) by {
                                        let tg = targeting(old_watched, e.target);
                                        if tg.len() > 0 {
                                            assert(tg.contains(tg[0]));
                                            lemma_targeting_membership(
                                                old_watched,
                                                e.target,
                                                tg[0],
                                            );
                                            let i = choose|i: int|
                                                0 <= i < old_watched.len() && old_watched[i]
                                                    == tg[0];
                                            assert(old_watched[i].target == r.target);
                                        }
                                    }
                                }
                            },
                        }
                    }
                    // Key uniqueness.
                    assert forall|k1: int, k2: int|
                        0 <= k1 < k2 < self.watch@.len() implies (#[trigger] self.watch@[k1]).target
                        != (#[trigger] self.watch@[k2]).target by {
                        match k_found {
                            Some(kf) => {
                                let m1: int = if k1 < kf as int {
                                    k1
                                } else {
                                    k1 + 1
                                };
                                assert(self.watch@[k1] == old_watch[m1]);
                                if k2 < self.watch@.len() - 1 {
                                    let m2: int = if k2 < kf as int {
                                        k2
                                    } else {
                                        k2 + 1
                                    };
                                    assert(self.watch@[k2] == old_watch[m2]);
                                } else {
                                    assert(self.watch@[k2].target == old_watch[kf as int].target);
                                    assert(m1 != kf as int);
                                }
                            },
                            None => {
                                if k2 == self.watch@.len() - 1 {
                                    assert(self.watch@[k1] == old_watch[k1]);
                                    assert(self.watch@[k2].target == r.target);
                                }
                            },
                        }
                    }
                    // Coverage of every watched reference.
                    assert forall|i: int|
                        0 <= i < self.watched@.len() implies self.traversal.emitted().contains(
                        (#[trigger] self.watched@[i]).target,
                    ) || exists|k: int|
                        0 <= k < self.watch@.len() && (#[trigger] self.watch@[k]).target
                            == self.watched@[i].target by {
                        let t = self.watched@[i].target;
                        if i == self.watched@.len() - 1 {
                            assert(self.watch@[self.watch@.len() - 1].target == r.target);
                        } else {
                            assert(old_watched[i].target == t);
                            let kk = choose|kk: int|
                                0 <= kk < old_watch.len() && (#[trigger] old_watch[kk]).target
                                    == t;
                            match k_found {
                                Some(kf) => {
                                    if kk == kf as int {
                                        assert(self.watch@[self.watch@.len() - 1].target
                                            == old_watch[kf as int].target);
                                    } else if kk < kf as int {
                                        assert(self.watch@[kk].target == t);
                                    } else {
                                        assert(self.watch@[kk - 1].target == t);
                                    }
                                },
                                None => {
                                    assert(self.watch@[kk].target == t);
                                },
                            }
                        }
                    }
                }
            }
        }
    }

    /// Index of the watch entry for `target`, when present.
    fn find_entry(&self, target: NodeId) -> (r: Option<usize>)
        ensures
            match r {
                Some(k) => k < self.watch@.len() && self.watch@[k as int].target == target,
                None => forall|j: int|
                    0 <= j < self.watch@.len() ==> (#[trigger] self.watch@[j]).target != target,
            },
    {
        let n = self.watch.len();
        let mut i: usize = 0;
        while i < n
            invariant
                i <= n,
                n == self.watch@.len(),
                forall|j: int| 0 <= j < i ==> (#[trigger] self.watch@[j]).target != target,
            decreases n - i,
        {
            if self.watch[i].target == target {
                return Some(i);
            }
            i += 1;
        }
        None
    }

    /// Watch a whole batch of references.
    pub fn watch_refs(&mut self, refs: Vec<Reference>)
        requires
            old(self).inactive(),
        ensures
            final(self).watched() == old(self).watched() + refs@,
            final(self).emitted() == old(self).emitted(),
            final(self).inactive(),
            final(self).seed_set() == old(self).seed_set(),
            final(self).is_first_parent() == old(self).is_first_parent(),
            forall|m: Map<NodeId, Seq<NodeId>>| old(self).wf(m) ==> final(self).wf(m),
    {
        let n = refs.len();
        let mut i: usize = 0;
        while i < n
            invariant
                i <= n,
                n == refs@.len(),
                self.inactive(),
                self.watched() == old(self).watched() + refs@.take(i as int),
                self.emitted() == old(self).emitted(),
                self.seed_set() == old(self).seed_set(),
                self.is_first_parent() == old(self).is_first_parent(),
                forall|m: Map<NodeId, Seq<NodeId>>| old(self).wf(m) ==> self.wf(m),
            decreases n - i,
        {
            self.watch_ref(refs[i]);
            proof {
                assert(old(self).watched() + refs@.take(i + 1) =~= (old(self).watched()
                    + refs@.take(i as int)).push(refs@[i as int]));
            }
            i += 1;
        }
        proof {
            assert(refs@.take(n as int) =~= refs@);
        }
    }

    /// Everything emitted so far was watched, and only with a target that is
    /// an ancestor of the seeds.
    pub proof fn lemma_emitted_sound(self, m: Map<NodeId, Seq<NodeId>>)
        requires
            self.wf(m),
        ensures
            forall|i: int|
                0 <= i < self.emitted().len() ==> self.watched().contains(
                    #[trigger] self.emitted()[i],
                ) && reaches_any(
                    m,
                    self.is_first_parent(),
                    self.seed_set(),
                    self.emitted()[i].target,
                ),
    {
        self.traversal.lemma_wf_facts(m);
        assert forall|i: int| 0 <= i < self.emitted().len() implies self.watched().contains(
            #[trigger] self.emitted()[i],
        ) && reaches_any(
            m,
            self.is_first_parent(),
            self.seed_set(),
            self.emitted()[i].target,
        ) by {
            let rf = self.emitted@[i];
            let all = self.emitted@ + self.pending@;
            assert(all[i] == rf);
            assert(all.contains(rf));
            lemma_fired_membership(self.watched@, self.traversal.emitted(), rf);
            let j = choose|j: int|
                0 <= j < self.traversal.emitted().len() && self.traversal.emitted()[j]
                    == rf.target;
        }
    }

    /// Produce the next emission: one watched reference whose target the
    /// traversal has proven reachable.
    ///
    /// Staged references are reported first; otherwise the traversal is
    /// pulled until a watched id is visited, the whole bucket for that id is
    /// staged, and its first reference returned. `Ok(None)` means the
    /// sequence is finished: every watched reference with a reachable target
    /// has been emitted.
    pub fn next(&mut self, store: &Store) -> (r: Result<Option<Reference>, Error>)
        requires
            store.wf(),
            old(self).wf(store@),
        ensures
            final(self).watched() == old(self).watched(),
            final(self).seed_set() == old(self).seed_set(),
            final(self).is_first_parent() == old(self).is_first_parent(),
            match r {
                Ok(opt) => match opt {
                    Some(rf) => final(self).wf(store@) && final(self).emitted() == old(
                        self,
                    ).emitted().push(rf),
                    None => {
                        &&& final(self).wf(store@)
                        &&& final(self).emitted() == old(self).emitted()
                        &&& final(self).emitted() == fired(
                            final(self).watched(),
                            final(self).trav_emitted(),
                        )
                        &&& final(self).trav_emitted().no_duplicates()
                        &&& forall|n: NodeId|
                            final(self).trav_emitted().contains(n) <==> reaches_any(
                                store@,
                                final(self).is_first_parent(),
                                final(self).seed_set(),
                                n,
                            )
                    },
                },
                Err(e) => e matches Error::LookupError(id) && !store@.contains_key(id)
                    && reaches_any(
                    store@,
                    old(self).is_first_parent(),
                    old(self).seed_set(),
                    id,
                ),
            },
    {
        let ghost m = store@;
        if self.pending.len() > 0 {
            let ghost prev_e = self.emitted@;
            let ghost prev_p = self.pending@;
            let rf = self.pending.remove(0);
            proof {
                self.emitted@ = self.emitted@.push(rf);
                assert(self.emitted@ + self.pending@ =~= prev_e + prev_p);
                assert(self.traversal.wf(m));
                assert(self.emitted@ + self.pending@ == fired(
                    self.watched@,
                    self.traversal.emitted(),
                ));
                assert(forall|k: int|
                    0 <= k < self.watch@.len() ==> (#[trigger] self.watch@[k]).refs@ == targeting(
                        self.watched@,
                        self.watch@[k].target,
                    ) && !self.traversal.emitted().contains(self.watch@[k].target)
                        && self.watch@[k].refs@.len() > 0);
                assert forall|i: int|
                    0 <= i < self.watched@.len() implies self.traversal.emitted().contains(
                    (#[trigger] self.watched@[i]).target,
                ) || exists|k: int|
                    0 <= k < self.watch@.len() && (#[trigger] self.watch@[k]).target
                        == self.watched@[i].target by {
                    let t = self.watched@[i].target;
                    if !self.traversal.emitted().contains(t) {
                        let k = choose|k: int|
                            0 <= k < old(self).watch@.len() && (#[trigger] old(self).watch@[k]).target
                                == t;
                        assert(self.watch@[k].target == t);
                    }
                }
            }
            return Ok(Some(rf));
        }
        proof {
            lemma_trav_bound(self.traversal, m, store);
        }
        loop
            invariant
                store.wf(),
                m == store@,
                self.wf(m),
                self.pending@.len() == 0,
                self.watched@ == old(self).watched@,
                self.emitted@ == old(self).emitted@,
                self.seed_set() == old(self).seed_set(),
                self.is_first_parent() == old(self).is_first_parent(),
                self.traversal.emitted().len() <= m.dom().len(),
            decreases m.dom().len() - self.traversal.emitted().len(),
        {
            let ghost prev_trav = self.traversal.emitted();
            let step_r = self.traversal.next(store);
            match step_r {
                Err(e) => {
                    return Err(e);
                },
                Ok(None) => {
                    proof {
                        self.traversal.lemma_wf_facts(m);
                        assert forall|n: NodeId|
                            self.traversal.emitted().contains(n) implies reaches_any(
                            m,
                            self.is_first_parent(),
                            self.seed_set(),
                            n,
                        ) by {
                            let i = choose|i: int|
                                0 <= i < self.traversal.emitted().len()
                                    && self.traversal.emitted()[i] == n;
                        }
                        assert(self.emitted@ =~= self.emitted@ + self.pending@);
                    }
                    return Ok(None);
                },
                Ok(Some(id)) => {
                    proof {
                        lemma_fired_snoc(self.watched@, prev_trav, id);
                        assert(self.traversal.emitted() =~= prev_trav.push(id));
                    }
                    let entry_idx = self.find_entry(id);
                    match entry_idx {
                        Some(k) => {
                            let ghost old_watch = self.watch@;
                            let entry = self.watch.remove(k);
                            let ghost prev_e = self.emitted@;
                            self.pending = entry.refs;
                            let rf = self.pending.remove(0);
                            proof {
                                self.emitted@ = self.emitted@.push(rf);
                                assert(entry.refs@ == targeting(self.watched@, id));
                                assert(self.emitted@ + self.pending@ =~= prev_e + entry.refs@);
                                assert(self.emitted@ + self.pending@ == fired(
                                    self.watched@,
                                    self.traversal.emitted(),
                                ));
                                assert forall|kk: int|
                                    0 <= kk < self.watch@.len() implies (
                                #[trigger] self.watch@[kk]).refs@ == targeting(
                                    self.watched@,
                                    self.watch@[kk].target,
                                ) && !self.traversal.emitted().contains(self.watch@[kk].target)
                                    && self.watch@[kk].refs@.len() > 0 by {
                                    let src: int = if kk < k as int {
                                        kk
                                    } else {
                                        kk + 1
                                    };
                                    assert(self.watch@[kk] == old_watch[src]);
                                    assert(old_watch[src].target != id) by {
                                        assert(old_watch[k as int].target == id);
                                    }
                                    assert(!prev_trav.contains(old_watch[src].target));
                                    assert forall|n: NodeId|
                                        self.traversal.emitted().contains(n) && n != id implies
                                        prev_trav.contains(n) by {
                                        let i = choose|i: int|
                                            0 <= i < self.traversal.emitted().len()
                                                && self.traversal.emitted()[i] == n;
                                        if i < self.traversal.emitted().len() - 1 {
                                            assert(prev_trav[i] == n);
                                        }
                                    }
                                }
                                assert forall|k1: int, k2: int|
                                    0 <= k1 < k2 < self.watch@.len() implies (
                                #[trigger] self.watch@[k1]).target != (
                                #[trigger] self.watch@[k2]).target by {
                                    let s1: int = if k1 < k as int {
                                        k1
                                    } else {
                                        k1 + 1
                                    };
                                    let s2: int = if k2 < k as int {
                                        k2
                                    } else {
                                        k2 + 1
                                    };
                                    assert(self.watch@[k1] == old_watch[s1]);
                                    assert(self.watch@[k2] == old_watch[s2]);
                                }
                                assert forall|i: int|
                                    0 <= i < self.watched@.len() implies
                                    self.traversal.emitted().contains(
                                    (#[trigger] self.watched@[i]).target,
                                ) || exists|kk: int|
                                    0 <= kk < self.watch@.len() && (
                                    #[trigger] self.watch@[kk]).target
                                        == self.watched@[i].target by {
                                    let t = self.watched@[i].target;
                                    if t == id {
                                        assert(self.traversal.emitted().last() == id);
                                    } else if !prev_trav.contains(t) {
                                        let kk = choose|kk: int|
                                            0 <= kk < old_watch.len() && (
                                            #[trigger] old_watch[kk]).target == t;
                                        if kk < k as int {
                                            assert(self.watch@[kk].target == t);
                                        } else {
                                            assert(kk != k as int);
                                            assert(self.watch@[kk - 1].target == t);
                                        }
                                    } else {
                                        let i2 = choose|i2: int|
                                            0 <= i2 < prev_trav.len() && prev_trav[i2] == t;
                                        assert(self.traversal.emitted()[i2] == t);
                                    }
                                }
                            }
                            return Ok(Some(rf));
                        },
                        None => {
                            proof {
                                assert forall|i: int|
                                    0 <= i < self.watched@.len() implies (
                                #[trigger] self.watched@[i]).target != id by {
                                    if self.watched@[i].target == id {
                                        assert(prev_trav.contains(id) || exists|kk: int|
                                            0 <= kk < self.watch@.len() && (
                                            #[trigger] self.watch@[kk]).target == id);
                                    }
                                }
                                lemma_targeting_none(self.watched@, id);
                                assert(self.emitted@ + self.pending@ =~= fired(
                                    self.watched@,
                                    prev_trav,
                                ) + targeting(self.watched@, id));
                                assert forall|kk: int|
                                    0 <= kk < self.watch@.len() implies (
                                #[trigger] self.watch@[kk]).refs@ == targeting(
                                    self.watched@,
                                    self.watch@[kk].target,
                                ) && !self.traversal.emitted().contains(self.watch@[kk].target)
                                    && self.watch@[kk].refs@.len() > 0 by {
                                    assert(self.watch@[kk].target != id) by {
                                        let b = self.watch@[kk].refs@;
                                        assert(b.len() > 0);
                                        assert(b.contains(b[0]));
                                        lemma_targeting_membership(
                                            self.watched@,
                                            self.watch@[kk].target,
                                            b[0],
                                        );
                                        let i = choose|i: int|
                                            0 <= i < self.watched@.len() && self.watched@[i]
                                                == b[0];
                                    }
                                    assert forall|n: NodeId|
                                        self.traversal.emitted().contains(n) && n != id implies
                                        prev_trav.contains(n) by {
                                        let i = choose|i: int|
                                            0 <= i < self.traversal.emitted().len()
                                                && self.traversal.emitted()[i] == n;
                                        if i < self.traversal.emitted().len() - 1 {
                                            assert(prev_trav[i] == n);
                                        }
                                    }
                                }
                                assert forall|i: int|
                                    0 <= i < self.watched@.len() implies
                                    self.traversal.emitted().contains(
                                    (#[trigger] self.watched@[i]).target,
                                ) || exists|kk: int|
                                    0 <= kk < self.watch@.len() && (
                                    #[trigger] self.watch@[kk]).target
                                        == self.watched@[i].target by {
                                    let t = self.watched@[i].target;
                                    if prev_trav.contains(t) {
                                        let i2 = choose|i2: int|
                                            0 <= i2 < prev_trav.len() && prev_trav[i2] == t;
                                        assert(self.traversal.emitted()[i2] == t);
                                    }
                                }
                                lemma_trav_bound(self.traversal, m, store);
                            }
                        },
                    }
                },
            }
        }
    }

    /// Drain the iterator, appending every emission to `out`.
    ///
    /// On success `out` has grown by exactly the watched references whose
    /// target is an ancestor of the traversal's seeds; a lookup failure
    /// surfaces the offending id and aborts.
    pub fn collect_result_into(&mut self, store: &Store, out: &mut Vec<Reference>) -> (r: Result<
        (),
        Error,
    >)
        requires
            store.wf(),
            old(self).wf(store@),
        ensures
            final(self).watched() == old(self).watched(),
            final(self).seed_set() == old(self).seed_set(),
            final(self).is_first_parent() == old(self).is_first_parent(),
            match r {
                Ok(()) => {
                    &&& final(self).wf(store@)
                    &&& final(self).emitted() == fired(
                        final(self).watched(),
                        final(self).trav_emitted(),
                    )
                    &&& final(self).trav_emitted().no_duplicates()
                    &&& forall|n: NodeId|
                        final(self).trav_emitted().contains(n) <==> reaches_any(
                            store@,
                            final(self).is_first_parent(),
                            final(self).seed_set(),
                            n,
                        )
                    &&& forall|n: NodeId|
                        reaches_any(
                            store@,
                            final(self).is_first_parent(),
                            final(self).seed_set(),
                            n,
                        ) ==> store@.contains_key(n)
                    &&& final(self).emitted().take(old(self).emitted().len() as int) == old(
                        self,
                    ).emitted()
                    &&& final(out)@ == old(out)@ + final(self).emitted().skip(
                        old(self).emitted().len() as int,
                    )
                },
                Err(e) => e matches Error::LookupError(id) && !store@.contains_key(id)
                    && reaches_any(
                    store@,
                    old(self).is_first_parent(),
                    old(self).seed_set(),
                    id,
                ),
            },
    {
        let ghost m = store@;
        let ghost base = old(self).emitted@.len() as int;
        proof {
            assert(self.emitted@.take(base) =~= self.emitted@);
            assert(self.emitted@.skip(base) =~= Seq::<Reference>::empty());
            assert(out@ =~= old(out)@ + self.emitted@.skip(base));
        }
        // Flush anything already staged for the id reported last.
        while self.pending.len() > 0
            invariant
                store.wf(),
                m == store@,
                self.wf(m),
                self.watched@ == old(self).watched@,
                self.seed_set() == old(self).seed_set(),
                self.is_first_parent() == old(self).is_first_parent(),
                self.traversal == old(self).traversal,
                base == old(self).emitted@.len() as int,
                base <= self.emitted@.len(),
                self.emitted@.take(base) == old(self).emitted@,
                out@ == old(out)@ + self.emitted@.skip(base),
            decreases self.pending@.len(),
        {
            let ghost prev_e = self.emitted@;
            let ghost prev_p = self.pending@;
            let rf = self.pending.remove(0);
            out.push(rf);
            proof {
                self.emitted@ = self.emitted@.push(rf);
                assert(self.emitted@ + self.pending@ =~= prev_e + prev_p);
                assert(self.emitted@.take(base) =~= prev_e.take(base));
                assert(self.emitted@.skip(base) =~= prev_e.skip(base).push(rf));
                assert(self.traversal.wf(m));
                assert(self.emitted@ + self.pending@ == fired(
                    self.watched@,
                    self.traversal.emitted(),
                ));
                assert(forall|k: int|
                    0 <= k < self.watch@.len() ==> (#[trigger] self.watch@[k]).refs@ == targeting(
                        self.watched@,
                        self.watch@[k].target,
                    ) && !self.traversal.emitted().contains(self.watch@[k].target)
                        && self.watch@[k].refs@.len() > 0);
                assert(forall|i: int|
                    0 <= i < self.watched@.len() ==> self.traversal.emitted().contains(
                        (#[trigger] self.watched@[i]).target,
                    ) || exists|k: int|
                        0 <= k < self.watch@.len() && (#[trigger] self.watch@[k]).target
                            == self.watched@[i].target);
            }
        }
        proof {
            lemma_trav_bound(self.traversal, m, store);
        }
        // Drain the traversal, bucket by bucket.
        loop
            invariant
                store.wf(),
                m == store@,
                self.wf(m),
                self.pending@.len() == 0,
                self.watched@ == old(self).watched@,
                self.seed_set() == old(self).seed_set(),
                self.is_first_parent() == old(self).is_first_parent(),
                base == old(self).emitted@.len() as int,
                base <= self.emitted@.len(),
                self.emitted@.take(base) == old(self).emitted@,
                out@ == old(out)@ + self.emitted@.skip(base),
                self.traversal.emitted().len() <= m.dom().len(),
            decreases m.dom().len() - self.traversal.emitted().len(),
        {
            let ghost prev_trav = self.traversal.emitted();
            let step_r = self.traversal.next(store);
            match step_r {
                Err(e) => {
                    return Err(e);
                },
                Ok(None) => {
                    proof {
                        self.traversal.lemma_wf_facts(m);
                        assert forall|n: NodeId|
                            self.traversal.emitted().contains(n) implies reaches_any(
                            m,
                            self.is_first_parent(),
                            self.seed_set(),
                            n,
                        ) by {
                            let i = choose|i: int|
                                0 <= i < self.traversal.emitted().len()
                                    && self.traversal.emitted()[i] == n;
                        }
                        assert forall|n: NodeId|
                            reaches_any(m, self.is_first_parent(), self.seed_set(), n) implies
                            m.contains_key(n) by {
                            assert(self.traversal.emitted().contains(n));
                            let i = choose|i: int|
                                0 <= i < self.traversal.emitted().len()
                                    && self.traversal.emitted()[i] == n;
                        }
                        assert(self.emitted@ =~= self.emitted@ + self.pending@);
                    }
                    return Ok(());
                },
                Ok(Some(id)) => {
                    proof {
                        lemma_fired_snoc(self.watched@, prev_trav, id);
                        assert(self.traversal.emitted() =~= prev_trav.push(id));
                    }
                    let entry_idx = self.find_entry(id);
                    match entry_idx {
                        Some(k) => {
                            let ghost old_watch = self.watch@;
                            let entry = self.watch.remove(k);
                            let ghost prev_e = self.emitted@;
                            let ghost out_before = out@;
                            let cnt = entry.refs.len();
                            let mut j: usize = 0;
                            while j < cnt
                                invariant
                                    j <= cnt,
                                    cnt == entry.refs@.len(),
                                    out@ == out_before + entry.refs@.take(j as int),
                                decreases cnt - j,
                            {
                                out.push(entry.refs[j]);
                                proof {
                                    assert(entry.refs@.take(j + 1) =~= entry.refs@.take(
                                        j as int,
                                    ).push(entry.refs@[j as int]));
                                }
                                j += 1;
                            }
                            proof {
                                assert(entry.refs@.take(cnt as int) =~= entry.refs@);
                                self.emitted@ = self.emitted@ + entry.refs@;
                                // The bucket is exactly what the new visit fires.
                                assert(entry.refs@ == targeting(self.watched@, id));
                                assert(self.emitted@ + self.pending@ =~= prev_e + entry.refs@);
                                assert(self.emitted@ + self.pending@ == fired(
                                    self.watched@,
                                    self.traversal.emitted(),
                                ));
                                // Remaining buckets: shifted by one removal.
                                assert forall|kk: int|
                                    0 <= kk < self.watch@.len() implies (
                                #[trigger] self.watch@[kk]).refs@ == targeting(
                                    self.watched@,
                                    self.watch@[kk].target,
                                ) && !self.traversal.emitted().contains(self.watch@[kk].target)
                                    && self.watch@[kk].refs@.len() > 0 by {
                                    let src: int = if kk < k as int {
                                        kk
                                    } else {
                                        kk + 1
                                    };
                                    assert(self.watch@[kk] == old_watch[src]);
                                    assert(old_watch[src].target != id) by {
                                        assert(old_watch[k as int].target == id);
                                    }
                                    assert(!prev_trav.contains(old_watch[src].target));
                                    assert forall|n: NodeId|
                                        self.traversal.emitted().contains(n) && n != id implies
                                        prev_trav.contains(n) by {
                                        let i = choose|i: int|
                                            0 <= i < self.traversal.emitted().len()
                                                && self.traversal.emitted()[i] == n;
                                        if i < self.traversal.emitted().len() - 1 {
                                            assert(prev_trav[i] == n);
                                        }
                                    }
                                }
                                assert forall|k1: int, k2: int|
                                    0 <= k1 < k2 < self.watch@.len() implies (
                                #[trigger] self.watch@[k1]).target != (
                                #[trigger] self.watch@[k2]).target by {
                                    let s1: int = if k1 < k as int {
                                        k1
                                    } else {
                                        k1 + 1
                                    };
                                    let s2: int = if k2 < k as int {
                                        k2
                                    } else {
                                        k2 + 1
                                    };
                                    assert(self.watch@[k1] == old_watch[s1]);
                                    assert(self.watch@[k2] == old_watch[s2]);
                                }
                                // Coverage survives the removal: the removed target
                                // is now visited.
                                assert forall|i: int|
                                    0 <= i < self.watched@.len() implies
                                    self.traversal.emitted().contains(
                                    (#[trigger] self.watched@[i]).target,
                                ) || exists|kk: int|
                                    0 <= kk < self.watch@.len() && (
                                    #[trigger] self.watch@[kk]).target
                                        == self.watched@[i].target by {
                                    let t = self.watched@[i].target;
                                    if t == id {
                                        assert(self.traversal.emitted().last() == id);
                                    } else if !prev_trav.contains(t) {
                                        let kk = choose|kk: int|
                                            0 <= kk < old_watch.len() && (
                                            #[trigger] old_watch[kk]).target == t;
                                        if kk < k as int {
                                            assert(self.watch@[kk].target == t);
                                        } else {
                                            assert(kk != k as int);
                                            assert(self.watch@[kk - 1].target == t);
                                        }
                                    } else {
                                        let i2 = choose|i2: int|
                                            0 <= i2 < prev_trav.len() && prev_trav[i2] == t;
                                        assert(self.traversal.emitted()[i2] == t);
                                    }
                                }
                                // Bookkeeping for the output.
                                assert(self.emitted@.take(base) =~= prev_e.take(base));
                                assert(self.emitted@.skip(base) =~= prev_e.skip(base)
                                    + entry.refs@);
                                assert(out@ =~= old(out)@ + self.emitted@.skip(base));
                                lemma_trav_bound(self.traversal, m, store);
                            }
                        },
                        None => {
                            proof {
                                assert forall|i: int|
                                    0 <= i < self.watched@.len() implies (
                                #[trigger] self.watched@[i]).target != id by {
                                    if self.watched@[i].target == id {
                                        assert(prev_trav.contains(id) || exists|kk: int|
                                            0 <= kk < self.watch@.len() && (
                                            #[trigger] self.watch@[kk]).target == id);
                                    }
                                }
                                lemma_targeting_none(self.watched@, id);
                                assert(self.emitted@ + self.pending@ =~= fired(
                                    self.watched@,
                                    prev_trav,
                                ) + targeting(self.watched@, id));
                                assert forall|kk: int|
                                    0 <= kk < self.watch@.len() implies (
                                #[trigger] self.watch@[kk]).refs@ == targeting(
                                    self.watched@,
                                    self.watch@[kk].target,
                                ) && !self.traversal.emitted().contains(self.watch@[kk].target)
                                    && self.watch@[kk].refs@.len() > 0 by {
                                    assert(self.watch@[kk].target != id) by {
                                        let b = self.watch@[kk].refs@;
                                        assert(b.len() > 0);
                                        assert(b.contains(b[0]));
                                        lemma_targeting_membership(
                                            self.watched@,
                                            self.watch@[kk].target,
                                            b[0],
                                        );
                                        let i = choose|i: int|
                                            0 <= i < self.watched@.len() && self.watched@[i]
                                                == b[0];
                                    }
                                    assert forall|n: NodeId|
                                        self.traversal.emitted().contains(n) && n != id implies
                                        prev_trav.contains(n) by {
                                        let i = choose|i: int|
                                            0 <= i < self.traversal.emitted().len()
                                                && self.traversal.emitted()[i] == n;
                                        if i < self.traversal.emitted().len() - 1 {
                                            assert(prev_trav[i] == n);
                                        }
                                    }
                                }
                                assert forall|i: int|
                                    0 <= i < self.watched@.len() implies
                                    self.traversal.emitted().contains(
                                    (#[trigger] self.watched@[i]).target,
                                ) || exists|kk: int|
                                    0 <= kk < self.watch@.len() && (
                                    #[trigger] self.watch@[kk]).target
                                        == self.watched@[i].target by {
                                    let t = self.watched@[i].target;
                                    if prev_trav.contains(t) {
                                        let i2 = choose|i2: int|
                                            0 <= i2 < prev_trav.len() && prev_trav[i2] == t;
                                        assert(self.traversal.emitted()[i2] == t);
                                    }
                                }
                                lemma_trav_bound(self.traversal, m, store);
                            }
                        },
                    }
                },
            }
        }
    }
}

/// Reference-deleting iterator.
///
/// Wraps a finite removable-reference sequence; each advance deletes the
/// next reference from the directory and reports success or a deletion
/// error carrying the reference's name. Draining it fully performs the
/// collection; draining it partially deletes exactly a prefix and leaves
/// every other reference intact. There is no rollback.
pub struct ReferenceDeletingIter {
    refs: Vec<Reference>,
    pos: usize,
}

impl ReferenceDeletingIter {
    /// The references not yet deleted, next first.
    pub closed spec fn remaining(self) -> Seq<Reference> {
        if self.pos as int <= self.refs@.len() {
            self.refs@.skip(self.pos as int)
        } else {
            Seq::empty()
        }
    }

    /// Wrap a removable-reference sequence.
    pub fn new(refs: Vec<Reference>) -> (it: ReferenceDeletingIter)
        ensures
            it.remaining() == refs@,
    {
        let it = ReferenceDeletingIter { refs, pos: 0 };
        proof {
            assert(it.remaining() =~= it.refs@);
        }
        it
    }

    /// Delete the next reference from `dir`.
    ///
    /// `None` once the sequence is exhausted; otherwise exactly the next
    /// reference is removed from the directory, or a deletion error names it
    /// when it had already vanished, and the directory stays as it was.
    pub fn next(&mut self, dir: &mut RefDir) -> (r: Option<Result<(), Error>>)
        requires
            old(dir).wf(),
        ensures
            final(dir).wf(),
            match r {
                None => {
                    &&& old(self).remaining().len() == 0
                    &&& *final(self) == *old(self)
                    &&& final(dir)@ == old(dir)@
                },
                Some(res) => {
                    &&& old(self).remaining().len() > 0
                    &&& final(self).remaining() == old(self).remaining().drop_first()
                    &&& match res {
                        Ok(()) => exists|i: int|
                            0 <= i < old(dir)@.len() && old(dir)@[i].name == old(
                                self,
                            ).remaining().first().name && final(dir)@ == old(dir)@.remove(i),
                        Err(e) => e == Error::DeletionError(old(self).remaining().first().name)
                            && !has_name(old(dir)@, old(self).remaining().first().name)
                            && final(dir)@ == old(dir)@,
                    }
                },
            },
    {
        if self.pos >= self.refs.len() {
            proof {
                assert(self.remaining().len() == 0);
            }
            return None;
        }
        let rf = self.refs[self.pos];
        self.pos = self.pos + 1;
        proof {
            assert(old(self).remaining().first() == rf);
            assert(self.remaining() =~= old(self).remaining().drop_first());
        }
        Some(dir.delete(rf.name))
    }
}

/// Iterator over the messages of an issue.
///
/// Follows first parents from a starting message and stops, inclusively,
/// once a message backed by an issue head — an initial message — has been
/// reported.
pub struct IssueMessagesIter {
    current: Option<NodeId>,
}

impl IssueMessagesIter {
    /// The id the next call will report, if any.
    pub closed spec fn current_id(self) -> Option<NodeId> {
        self.current
    }

    /// An iterator starting at the message `commit`.
    pub fn new(commit: NodeId) -> (it: IssueMessagesIter)
        ensures
            it.current_id() == Some(commit),
    {
        IssueMessagesIter { current: Some(commit) }
    }

    /// Fuse the iterator if `id` is the root of an issue.
    fn fuse_if_initial(&mut self, dir: &RefDir, id: NodeId)
        ensures
            final(self).current_id() == if has_issue_head(dir@, id) {
                None
            } else {
                old(self).current_id()
            },
    {
        if dir.has_issue_head(id) {
            self.current = None;
        }
    }

    /// Report the next message, first parents first.
    ///
    /// A message that cannot be resolved surfaces as a lookup error; a
    /// message that is an initial message is reported and ends the
    /// sequence.
    pub fn next(&mut self, store: &Store, dir: &RefDir) -> (r: Option<Result<NodeId, Error>>)
        requires
            store.wf(),
        ensures
            match old(self).current_id() {
                None => r == None::<Result<NodeId, Error>> && final(self).current_id()
                    == None::<NodeId>,
                Some(id) => {
                    &&& !store@.contains_key(id) ==> r == Some(
                        Err::<NodeId, Error>(Error::LookupError(id)),
                    ) && final(self).current_id() == None::<NodeId>
                    &&& store@.contains_key(id) ==> r == Some(Ok::<NodeId, Error>(id))
                        && final(self).current_id() == (if has_issue_head(dir@, id) {
                        None
                    } else if store@[id].len() > 0 {
                        Some(store@[id][0])
                    } else {
                        None
                    })
                },
            },
    {
        match self.current {
            None => None,
            Some(id) => {
                match store.resolve(id) {
                    None => {
                        self.current = None;
                        Some(Err(Error::LookupError(id)))
                    },
                    Some(parents) => {
                        if parents.len() > 0 {
                            let p = parents[0];
                            self.current = Some(p);
                        } else {
                            self.current = None;
                        }
                        self.fuse_if_initial(dir, id);
                        Some(Ok(id))
                    },
                }
            },
        }
    }
}

/// A traversal never visits more ids than the store holds.
proof fn lemma_trav_bound(t: Traversal, m: Map<NodeId, Seq<NodeId>>, store: &Store)
    requires
        t.wf(m),
        store@ == m,
    ensures
        t.emitted().len() <= m.dom().len(),
{
    t.lemma_wf_facts(m);
    store.lemma_finite();
    let s = t.emitted();
    s.unique_seq_to_set();
    assert(s.to_set().subset_of(m.dom())) by {
        assert forall|x: NodeId| s.to_set().contains(x) implies m.dom().contains(x) by {
            assert(s.contains(x));
            let i = choose|i: int| 0 <= i < s.len() && s[i] == x;
        }
    }
    vstd::set_lib::lemma_len_subset(s.to_set(), m.dom());
}

} // verus!
