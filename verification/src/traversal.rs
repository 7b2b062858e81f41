use vstd::prelude::*;

use crate::error::Error;
use crate::store::{NodeId, Store};

verus! {

/// The parent ids a traversal follows out of node `v`: all of them, or, under
/// the first-parent simplification, only the first.
pub open spec fn followed(m: Map<NodeId, Seq<NodeId>>, first_parent: bool, v: NodeId) -> Seq<
    NodeId,
> {
    if first_parent {
        if m[v].len() > 0 {
            seq![m[v][0]]
        } else {
            Seq::empty()
        }
    } else {
        m[v]
    }
}

/// One parent step: `b` is a followed parent of the resolvable node `a`.
pub open spec fn step(m: Map<NodeId, Seq<NodeId>>, first_parent: bool, a: NodeId, b: NodeId) -> bool {
    m.contains_key(a) && followed(m, first_parent, a).contains(b)
}

/// The step at position `i` of path `p` is a parent step.
pub open spec fn path_ok_at(
    m: Map<NodeId, Seq<NodeId>>,
    first_parent: bool,
    p: Seq<NodeId>,
    i: int,
) -> bool {
    step(m, first_parent, p[i], p[i + 1])
}

/// `p` is a chain of parent steps under `m`.
pub open spec fn valid_path(m: Map<NodeId, Seq<NodeId>>, first_parent: bool, p: Seq<NodeId>) -> bool {
    p.len() > 0 && forall|i: int| 0 <= i < p.len() - 1 ==> #[trigger] path_ok_at(m, first_parent, p, i)
}

/// `to` is an ancestor of `from` (reflexively) along followed parent links.
pub open spec fn reaches(m: Map<NodeId, Seq<NodeId>>, first_parent: bool, from: NodeId, to: NodeId) -> bool {
    exists|p: Seq<NodeId>|
        valid_path(m, first_parent, p) && p.first() == from && p.last() == to
}

/// `to` is an ancestor of some seed.
pub open spec fn reaches_any(
    m: Map<NodeId, Seq<NodeId>>,
    first_parent: bool,
    seeds: Set<NodeId>,
    to: NodeId,
) -> bool {
    exists|s: NodeId| seeds.contains(s) && reaches(m, first_parent, s, to)
}

/// Every node is an ancestor of itself.
pub proof fn lemma_reaches_refl(m: Map<NodeId, Seq<NodeId>>, first_parent: bool, x: NodeId)
    ensures
        reaches(m, first_parent, x, x),
{
    let p = seq![x];
    assert(valid_path(m, first_parent, p));
    assert(p.first() == x && p.last() == x);
}

/// Ancestry extends along one more parent step.
pub proof fn lemma_reaches_step(
    m: Map<NodeId, Seq<NodeId>>,
    first_parent: bool,
    a: NodeId,
    b: NodeId,
    c: NodeId,
)
    requires
        reaches(m, first_parent, a, b),
        step(m, first_parent, b, c),
    ensures
        reaches(m, first_parent, a, c),
{
    let p = choose|p: Seq<NodeId>|
        valid_path(m, first_parent, p) && p.first() == a && p.last() == b;
    let q = p.push(c);
    assert forall|i: int| 0 <= i < q.len() - 1 implies #[trigger] path_ok_at(
        m,
        first_parent,
        q,
        i,
    ) by {
        if i < p.len() - 1 {
            assert(path_ok_at(m, first_parent, p, i));
            assert(q[i] == p[i] && q[i + 1] == p[i + 1]);
        } else {
            assert(q[i] == p.last() && q[i + 1] == c);
        }
    }
    assert(valid_path(m, first_parent, q) && q.first() == a && q.last() == c);
}

/// Growing the seed set never loses ancestry.
pub proof fn lemma_reaches_any_mono(
    m: Map<NodeId, Seq<NodeId>>,
    first_parent: bool,
    s1: Set<NodeId>,
    s2: Set<NodeId>,
    to: NodeId,
)
    requires
        s1.subset_of(s2),
        reaches_any(m, first_parent, s1, to),
    ensures
        reaches_any(m, first_parent, s2, to),
{
    let s = choose|s: NodeId| s1.contains(s) && reaches(m, first_parent, s, to);
    assert(s2.contains(s));
}

/// A set closed under parent steps contains every node reachable from it.
pub proof fn lemma_closed_path(
    m: Map<NodeId, Seq<NodeId>>,
    first_parent: bool,
    vis: Set<NodeId>,
    p: Seq<NodeId>,
)
    requires
        forall|a: NodeId, b: NodeId|
            vis.contains(a) && #[trigger] step(m, first_parent, a, b) ==> vis.contains(b),
        valid_path(m, first_parent, p),
        vis.contains(p.first()),
    ensures
        vis.contains(p.last()),
    decreases p.len(),
{
    if p.len() > 1 {
        assert(path_ok_at(m, first_parent, p, 0));
        assert(step(m, first_parent, p[0], p[1]));
        let q = p.drop_first();
        assert forall|i: int| 0 <= i < q.len() - 1 implies #[trigger] path_ok_at(
            m,
            first_parent,
            q,
            i,
        ) by {
            assert(path_ok_at(m, first_parent, p, i + 1));
            assert(q[i] == p[i + 1] && q[i + 1] == p[i + 2]);
        }
        assert(valid_path(m, first_parent, q));
        assert(vis.contains(q.first()));
        lemma_closed_path(m, first_parent, vis, q);
        assert(q.last() == p.last());
    }
}

/// Lazy ancestry traversal engine.
///
/// Seeds are pushed before consumption starts; each call of `next` then
/// produces one more id of the union of the seeds' ancestries, never the same
/// id twice, until the union is exhausted. An id that cannot be resolved,
/// whether a seed or an ancestor met on the way, surfaces as a lookup error.
/// The traversal is one-shot: it cannot be restarted.
pub struct Traversal {
    queue: Vec<NodeId>,
    visited: Vec<NodeId>,
    first_parent: bool,
    seeds: Ghost<Set<NodeId>>,
}

impl Traversal {
    /// The set of seed ids pushed so far.
    pub closed spec fn seed_set(self) -> Set<NodeId> {
        self.seeds@
    }

    /// The ids emitted so far, in emission order.
    pub closed spec fn emitted(self) -> Seq<NodeId> {
        self.visited@
    }

    /// Whether the traversal follows only first parents.
    pub closed spec fn is_first_parent(self) -> bool {
        self.first_parent
    }

    /// Whether consumption has begun.
    pub open spec fn started(self) -> bool {
        self.emitted().len() > 0
    }

    /// Whether the traversal is exhausted: it will only answer `None`.
    pub closed spec fn drained(self) -> bool {
        self.queue@.len() == 0
    }

    /// The traversal's invariant against the store content `m`.
    pub closed spec fn wf(self, m: Map<NodeId, Seq<NodeId>>) -> bool {
        &&& forall|i: int|
            0 <= i < self.queue@.len() ==> reaches_any(
                m,
                self.first_parent,
                self.seeds@,
                #[trigger] self.queue@[i],
            )
        &&& forall|i: int|
            0 <= i < self.visited@.len() ==> reaches_any(
                m,
                self.first_parent,
                self.seeds@,
                #[trigger] self.visited@[i],
            ) && m.contains_key(self.visited@[i])
        &&& self.visited@.no_duplicates()
        &&& forall|i: int, x: NodeId|
            0 <= i < self.visited@.len() && #[trigger] followed(
                m,
                self.first_parent,
                self.visited@[i],
            ).contains(x) ==> self.visited@.contains(x) || self.queue@.contains(x)
        &&& forall|s: NodeId|
            #[trigger] self.seeds@.contains(s) ==> self.visited@.contains(s)
                || self.queue@.contains(s)
    }

    /// What the invariant yields about the emitted prefix.
    pub proof fn lemma_wf_facts(self, m: Map<NodeId, Seq<NodeId>>)
        requires
            self.wf(m),
        ensures
            self.emitted().no_duplicates(),
            forall|i: int|
                0 <= i < self.emitted().len() ==> m.contains_key(#[trigger] self.emitted()[i])
                    && reaches_any(m, self.is_first_parent(), self.seed_set(), self.emitted()[i]),
    {
    }

    /// A fresh traversal with no seeds.
    pub fn new(first_parent: bool) -> (t: Traversal)
        ensures
            t.seed_set() == Set::<NodeId>::empty(),
            t.emitted() == Seq::<NodeId>::empty(),
            t.is_first_parent() == first_parent,
            !t.started(),
            forall|m: Map<NodeId, Seq<NodeId>>| t.wf(m),
    {
        Traversal {
            queue: Vec::new(),
            visited: Vec::new(),
            first_parent,
            seeds: Ghost(Set::empty()),
        }
    }

    /// Push one more seed; allowed only before consumption starts.
    pub fn push(&mut self, seed: NodeId)
        requires
            !old(self).started(),
        ensures
            final(self).seed_set() == old(self).seed_set().insert(seed),
            final(self).emitted() == old(self).emitted(),
            final(self).is_first_parent() == old(self).is_first_parent(),
            !final(self).started(),
            forall|m: Map<NodeId, Seq<NodeId>>| old(self).wf(m) ==> final(self).wf(m),
    {
        self.queue.push(seed);
        proof {
            self.seeds@ = self.seeds@.insert(seed);
        }
        proof {
            assert forall|m: Map<NodeId, Seq<NodeId>>| old(self).wf(m) implies self.wf(m) by {
                if old(self).wf(m) {
                    lemma_reaches_refl(m, self.first_parent, seed);
                    assert(self.queue@.last() == seed);
                    assert forall|i: int|
                        0 <= i < self.queue@.len() implies reaches_any(
                        m,
                        self.first_parent,
                        self.seeds@,
                        #[trigger] self.queue@[i],
                    ) by {
                        if i < self.queue@.len() - 1 {
                            assert(reaches_any(
                                m,
                                self.first_parent,
                                old(self).seeds@,
                                self.queue@[i],
                            ));
                            lemma_reaches_any_mono(
                                m,
                                self.first_parent,
                                old(self).seeds@,
                                self.seeds@,
                                self.queue@[i],
                            );
                        } else {
                            assert(self.seeds@.contains(seed));
                        }
                    }
                    assert forall|i: int|
                        0 <= i < self.visited@.len() implies reaches_any(
                        m,
                        self.first_parent,
                        self.seeds@,
                        #[trigger] self.visited@[i],
                    ) && m.contains_key(self.visited@[i]) by {
                        lemma_reaches_any_mono(
                            m,
                            self.first_parent,
                            old(self).seeds@,
                            self.seeds@,
                            self.visited@[i],
                        );
                    }
                    assert forall|i: int, x: NodeId|
                        0 <= i < self.visited@.len() && #[trigger] followed(
                            m,
                            self.first_parent,
                            self.visited@[i],
                        ).contains(x) implies self.visited@.contains(x) || self.queue@.contains(
                        x,
                    ) by {
                        assert(old(self).visited@.contains(x) || old(self).queue@.contains(x));
                        if old(self).queue@.contains(x) {
                            let j = choose|j: int|
                                0 <= j < old(self).queue@.len() && old(self).queue@[j] == x;
                            assert(self.queue@[j] == x);
                        }
                    }
                    assert forall|s: NodeId| #[trigger]
                        self.seeds@.contains(s) implies self.visited@.contains(s)
                        || self.queue@.contains(s) by {
                        if s == seed {
                            assert(self.queue@.last() == seed);
                        } else {
                            assert(old(self).visited@.contains(s) || old(self).queue@.contains(s));
                            if old(self).queue@.contains(s) {
                                let j = choose|j: int|
                                    0 <= j < old(self).queue@.len() && old(self).queue@[j] == s;
                                assert(self.queue@[j] == s);
                            }
                        }
                    }
                }
            }
        }
    }

    /// Produce the next ancestor id.
    ///
    /// `Ok(Some(id))` emits a not-yet-emitted ancestor of the seeds;
    /// `Ok(None)` means the traversal is exhausted, and then every id
    /// reachable from the seeds has been emitted. A lookup failure aborts the
    /// traversal with the offending id.
    pub fn next(&mut self, store: &Store) -> (r: Result<Option<NodeId>, Error>)
        requires
            store.wf(),
            old(self).wf(store@),
        ensures
            final(self).seed_set() == old(self).seed_set(),
            final(self).is_first_parent() == old(self).is_first_parent(),
            match r {
                Ok(opt) => match opt {
                    Some(id) => {
                        &&& final(self).wf(store@)
                        &&& final(self).emitted() == old(self).emitted().push(id)
                        &&& !old(self).emitted().contains(id)
                        &&& store@.contains_key(id)
                        &&& reaches_any(
                            store@,
                            old(self).is_first_parent(),
                            old(self).seed_set(),
                            id,
                        )
                    },
                    None => {
                        &&& final(self).wf(store@)
                        &&& final(self).emitted() == old(self).emitted()
                        &&& final(self).drained()
                        &&& forall|n: NodeId|
                            reaches_any(
                                store@,
                                old(self).is_first_parent(),
                                old(self).seed_set(),
                                n,
                            ) ==> final(self).emitted().contains(n)
                    },
                },
                Err(e) => {
                    &&& final(self).emitted() == old(self).emitted()
                    &&& e matches Error::LookupError(id) && !store@.contains_key(id)
                        && reaches_any(
                        store@,
                        old(self).is_first_parent(),
                        old(self).seed_set(),
                        id,
                    )
                },
            },
    {
        loop
            invariant
                store.wf(),
                self.wf(store@),
                self.seeds@ == old(self).seeds@,
                self.first_parent == old(self).first_parent,
                self.visited@ == old(self).visited@,
            decreases self.queue@.len(),
        {
            if self.queue.len() == 0 {
                proof {
                    let m = store@;
                    let fp = self.first_parent;
                    let vis = self.visited@.to_set();
                    assert forall|n: NodeId|
                        reaches_any(m, fp, self.seeds@, n) implies self.visited@.contains(
                        n,
                    ) by {
                        let s = choose|s: NodeId|
                            self.seeds@.contains(s) && reaches(m, fp, s, n);
                        let p = choose|p: Seq<NodeId>|
                            valid_path(m, fp, p) && p.first() == s && p.last() == n;
                        assert forall|a: NodeId, b: NodeId|
                            vis.contains(a) && #[trigger] step(m, fp, a, b) implies vis.contains(
                            b,
                        ) by {
                            let i = choose|i: int|
                                0 <= i < self.visited@.len() && self.visited@[i] == a;
                            assert(followed(m, fp, self.visited@[i]).contains(b));
                            assert(self.visited@.contains(b) || self.queue@.contains(b));
                        }
                        assert(vis.contains(p.first()));
                        lemma_closed_path(m, fp, vis, p);
                    }
                }
                return Ok(None);
            }
            let ghost prev_queue = self.queue@;
            let id = self.queue.remove(0);
            proof {
                assert(prev_queue[0] == id);
                assert forall|x: NodeId| #[trigger]
                    prev_queue.contains(x) implies x == id || self.queue@.contains(x) by {
                    let j = choose|j: int| 0 <= j < prev_queue.len() && prev_queue[j] == x;
                    if j > 0 {
                        assert(self.queue@[j - 1] == x);
                    }
                }
            }
            if Self::vec_contains(&self.visited, id) {
                proof {
                    assert(reaches_any(store@, self.first_parent, self.seeds@, id));
                    assert forall|i: int, x: NodeId|
                        0 <= i < self.visited@.len() && #[trigger] followed(
                            store@,
                            self.first_parent,
                            self.visited@[i],
                        ).contains(x) implies self.visited@.contains(x) || self.queue@.contains(
                        x,
                    ) by {
                        assert(self.visited@.contains(x) || prev_queue.contains(x));
                    }
                    assert forall|s: NodeId| #[trigger]
                        self.seeds@.contains(s) implies self.visited@.contains(s)
                        || self.queue@.contains(s) by {
                        assert(self.visited@.contains(s) || prev_queue.contains(s));
                    }
                }
                continue;
            }
            match store.resolve(id) {
                None => {
                    proof {
                        assert(prev_queue[0] == id);
                        assert(reaches_any(store@, self.first_parent, self.seeds@, id));
                    }
                    return Err(Error::LookupError(id));
                },
                Some(parents) => {
                    let ghost m = store@;
                    let ghost fp = self.first_parent;
                    proof {
                        assert(prev_queue[0] == id);
                        assert(reaches_any(m, fp, self.seeds@, id));
                    }
                    let ghost queue_before = self.queue@;
                    let ghost visited_before = self.visited@;
                    let ghost seeds_now = self.seeds@;
                    if self.first_parent {
                        if parents.len() > 0 {
                            self.queue.push(parents[0]);
                        }
                    } else {
                        let k = parents.len();
                        let mut j: usize = 0;
                        while j < k
                            invariant
                                k == parents@.len(),
                                j <= k,
                                self.queue@ == queue_before + parents@.take(j as int),
                                self.visited@ == visited_before,
                                self.seeds@ == seeds_now,
                                self.first_parent == false,
                            decreases k - j,
                        {
                            self.queue.push(parents[j]);
                            proof {
                                assert(parents@.take(j + 1) =~= parents@.take(j as int).push(
                                    parents@[j as int],
                                ));
                            }
                            j += 1;
                        }
                        proof {
                            assert(parents@.take(k as int) =~= parents@);
                        }
                    }
                    self.visited.push(id);
                    proof {
                        let va = self.visited@;
                        assert(va.last() == id);
                        // Soundness of the new queue entries.
                        assert forall|i: int|
                            0 <= i < self.queue@.len() implies reaches_any(
                            m,
                            fp,
                            self.seeds@,
                            #[trigger] self.queue@[i],
                        ) by {
                            if i < queue_before.len() {
                                assert(self.queue@[i] == queue_before[i]);
                            } else {
                                let x = self.queue@[i];
                                assert(followed(m, fp, id).contains(x)) by {
                                    if fp {
                                        assert(self.queue@[i] == m[id][0]);
                                    } else {
                                        assert(self.queue@[i] == m[id][i - queue_before.len()]);
                                    }
                                }
                                assert(step(m, fp, id, x));
                                let s = choose|s: NodeId|
                                    self.seeds@.contains(s) && reaches(m, fp, s, id);
                                lemma_reaches_step(m, fp, s, id, x);
                            }
                        }
                        // Emitted prefix facts.
                        assert forall|i: int|
                            0 <= i < va.len() implies reaches_any(
                            m,
                            fp,
                            self.seeds@,
                            #[trigger] va[i],
                        ) && m.contains_key(va[i]) by {
                            if i < va.len() - 1 {
                                assert(va[i] == old(self).visited@[i]);
                            }
                        }
                        assert(va.no_duplicates()) by {
                            assert(!old(self).visited@.contains(id));
                        }
                        // Closure of emitted nodes under followed parents.
                        assert forall|i: int, x: NodeId|
                            0 <= i < va.len() && #[trigger] followed(m, fp, va[i]).contains(
                                x,
                            ) implies va.contains(x) || self.queue@.contains(x) by {
                            if i == va.len() - 1 {
                                assert(followed(m, fp, id).contains(x));
                                let j = choose|j: int|
                                    0 <= j < followed(m, fp, id).len() && followed(m, fp, id)[j]
                                        == x;
                                if fp {
                                    assert(self.queue@[queue_before.len() as int] == x);
                                } else {
                                    assert(self.queue@[queue_before.len() + j] == x);
                                }
                            } else {
                                assert(old(self).visited@.contains(x) || prev_queue.contains(x));
                                if old(self).visited@.contains(x) {
                                    let j = choose|j: int|
                                        0 <= j < old(self).visited@.len() && old(self).visited@[j]
                                            == x;
                                    assert(va[j] == x);
                                } else if x == id {
                                    assert(va.last() == x);
                                } else {
                                    assert(self.queue@.contains(x)) by {
                                        let j = choose|j: int|
                                            0 <= j < queue_before.len() && queue_before[j] == x;
                                        assert(self.queue@[j] == x);
                                    }
                                }
                            }
                        }
                        // Seeds stay covered.
                        assert forall|s: NodeId| #[trigger]
                            self.seeds@.contains(s) implies va.contains(s) || self.queue@.contains(
                            s,
                        ) by {
                            assert(old(self).visited@.contains(s) || prev_queue.contains(s));
                            if old(self).visited@.contains(s) {
                                let j = choose|j: int|
                                    0 <= j < old(self).visited@.len() && old(self).visited@[j]
                                        == s;
                                assert(va[j] == s);
                            } else if s == id {
                                assert(va.last() == s);
                            } else {
                                let j = choose|j: int|
                                    0 <= j < queue_before.len() && queue_before[j] == s;
                                assert(self.queue@[j] == s);
                            }
                        }
                    }
                    return Ok(Some(id));
                },
            }
        }
    }

    /// Linear membership scan.
    fn vec_contains(v: &Vec<NodeId>, x: NodeId) -> (r: bool)
        ensures
            r == v@.contains(x),
    {
        let n = v.len();
        let mut i: usize = 0;
        while i < n
            invariant
                i <= n,
                n == v@.len(),
                forall|j: int| 0 <= j < i ==> v@[j] != x,
            decreases n - i,
        {
            if v[i] == x {
                return true;
            }
            i += 1;
        }
        false
    }
}

} // verus!
