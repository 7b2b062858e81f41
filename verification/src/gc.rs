use vstd::prelude::*;

use crate::error::Error;
use crate::iter::{fired, ReferenceDeletingIter, RefsReferringTo};
use crate::refs::Reference;
use crate::store::{NodeId, Store};
use crate::traversal::{reaches_any, Traversal};

verus! {

/// Reference collecting iterator: a `ReferenceDeletingIter` wrapping the
/// computed removable references.
pub type ReferenceCollector = ReferenceDeletingIter;

/// Under what circumstances a local head may be collected.
#[derive(Clone, Copy, PartialEq, Eq, Structural, Debug)]
pub enum ReferenceCollectionSpec {
    Never,
    BackedByRemoteHead,
}

/// One issue, as the calculator sees it: the root node id, the single local
/// head, and the leaf and remote references enumerated for it.
pub struct Issue {
    /// The id of the issue's root node.
    pub id: NodeId,
    /// The issue's single local head reference.
    pub local_head: Reference,
    /// The local references to unmerged reply branches.
    pub local_leaves: Vec<Reference>,
    /// The remote head references mirrored for the issue.
    pub remote_heads: Vec<Reference>,
    /// The remote leaf references mirrored for the issue.
    pub remote_leaves: Vec<Reference>,
}

impl Issue {
    /// Scopes, roles and owning issue of every reference are as their field
    /// says.
    pub open spec fn wf(self) -> bool {
        &&& self.local_head.scope == crate::refs::RefScope::Local
        &&& self.local_head.role == crate::refs::RefRole::Head
        &&& self.local_head.issue == self.id
        &&& forall|j: int|
            0 <= j < self.local_leaves@.len() ==> (#[trigger] self.local_leaves@[j]).scope
                == crate::refs::RefScope::Local && self.local_leaves@[j].role
                == crate::refs::RefRole::Leaf && self.local_leaves@[j].issue == self.id
        &&& forall|j: int|
            0 <= j < self.remote_heads@.len() ==> (#[trigger] self.remote_heads@[j]).scope
                == crate::refs::RefScope::Remote && self.remote_heads@[j].role
                == crate::refs::RefRole::Head && self.remote_heads@[j].issue == self.id
        &&& forall|j: int|
            0 <= j < self.remote_leaves@.len() ==> (#[trigger] self.remote_leaves@[j]).scope
                == crate::refs::RefScope::Remote && self.remote_leaves@[j].role
                == crate::refs::RefRole::Leaf && self.remote_leaves@[j].issue == self.id
    }
}

/// The set holding exactly the ids of `ids`.
pub open spec fn id_set(ids: Seq<NodeId>) -> Set<NodeId>
    decreases ids.len(),
{
    if ids.len() == 0 {
        Set::empty()
    } else {
        id_set(ids.drop_last()).insert(ids.last())
    }
}

/// Membership in `id_set` is membership in the sequence.
pub proof fn lemma_id_set_elem(ids: Seq<NodeId>, x: NodeId)
    ensures
        id_set(ids).contains(x) <==> ids.contains(x),
    decreases ids.len(),
{
    if ids.len() > 0 {
        let dl = ids.drop_last();
        lemma_id_set_elem(dl, x);
        if dl.contains(x) {
            let i = choose|i: int| 0 <= i < dl.len() && dl[i] == x;
            assert(ids[i] == x);
        }
        if ids.contains(x) {
            let i = choose|i: int| 0 <= i < ids.len() && ids[i] == x;
            if i < ids.len() - 1 {
                assert(dl[i] == x);
            } else {
                assert(ids.last() == x);
            }
        }
    }
}

/// The set of target ids of the references of `rs`.
pub open spec fn targets_of(rs: Seq<Reference>) -> Set<NodeId>
    decreases rs.len(),
{
    if rs.len() == 0 {
        Set::empty()
    } else {
        targets_of(rs.drop_last()).insert(rs.last().target)
    }
}

/// Membership in `targets_of` is being some reference's target.
pub proof fn lemma_targets_of_elem(rs: Seq<Reference>, t: NodeId)
    ensures
        targets_of(rs).contains(t) <==> exists|i: int|
            0 <= i < rs.len() && (#[trigger] rs[i]).target == t,
    decreases rs.len(),
{
    if rs.len() > 0 {
        let dl = rs.drop_last();
        lemma_targets_of_elem(dl, t);
        if targets_of(dl).contains(t) {
            let i = choose|i: int| 0 <= i < dl.len() && (#[trigger] dl[i]).target == t;
            assert(rs[i].target == t);
        }
        if rs.last().target == t {
            assert(rs[rs.len() - 1].target == t);
        }
        if exists|i: int| 0 <= i < rs.len() && (#[trigger] rs[i]).target == t {
            let i = choose|i: int| 0 <= i < rs.len() && (#[trigger] rs[i]).target == t;
            if i < rs.len() - 1 {
                assert(dl[i].target == t);
            } else {
                assert(rs.last().target == t);
            }
        }
    }
}

/// The seeds of an issue's head-retention pass: none when heads are never
/// collected, the remote heads' targets when heads backed by a remote head
/// may go.
pub open spec fn head_seed_set(issue: Issue, policy: ReferenceCollectionSpec) -> Set<NodeId> {
    match policy {
        ReferenceCollectionSpec::Never => Set::empty(),
        ReferenceCollectionSpec::BackedByRemoteHead => targets_of(issue.remote_heads@),
    }
}

/// Whether an issue's local head is redundant under `policy`: its target is
/// an ancestor of the head pass's seeds.
pub open spec fn head_removable(
    m: Map<NodeId, Seq<NodeId>>,
    issue: Issue,
    policy: ReferenceCollectionSpec,
) -> bool {
    reaches_any(m, false, head_seed_set(issue, policy), issue.local_head.target)
}

/// The local heads collected over `issues`, in issue order.
pub open spec fn collected_heads(
    m: Map<NodeId, Seq<NodeId>>,
    issues: Seq<Issue>,
    policy: ReferenceCollectionSpec,
) -> Seq<Reference>
    decreases issues.len(),
{
    if issues.len() == 0 {
        Seq::empty()
    } else {
        collected_heads(m, issues.drop_last(), policy) + if head_removable(
            m,
            issues.last(),
            policy,
        ) {
            seq![issues.last().local_head]
        } else {
            Seq::empty()
        }
    }
}

/// The references the shared leaves pass watches: every issue's local
/// leaves, in issue order.
pub open spec fn leaves_watched(issues: Seq<Issue>) -> Seq<Reference>
    decreases issues.len(),
{
    if issues.len() == 0 {
        Seq::empty()
    } else {
        leaves_watched(issues.drop_last()) + issues.last().local_leaves@
    }
}

/// The parents of the leaves' targets, the seeds a leaf contributes:
/// deliberately the parents and never the leaf's own target, so that no
/// leaf justifies its own removal.
pub open spec fn leaf_parent_seeds(m: Map<NodeId, Seq<NodeId>>, leaves: Seq<Reference>) -> Set<
    NodeId,
>
    decreases leaves.len(),
{
    if leaves.len() == 0 {
        Set::empty()
    } else {
        leaf_parent_seeds(m, leaves.drop_last()).union(
            if m.contains_key(leaves.last().target) {
                id_set(m[leaves.last().target])
            } else {
                Set::empty()
            },
        )
    }
}

/// The seeds one issue contributes to the shared leaves pass: its head's
/// target, its leaves' targets' parents and, when remote references are
/// considered, its remote leaves' targets.
pub open spec fn issue_seeds(
    m: Map<NodeId, Seq<NodeId>>,
    issue: Issue,
    consider_remote: bool,
) -> Set<NodeId> {
    Set::empty().insert(issue.local_head.target).union(
        leaf_parent_seeds(m, issue.local_leaves@),
    ).union(
        if consider_remote {
            targets_of(issue.remote_leaves@)
        } else {
            Set::empty()
        },
    )
}

/// The seeds of the shared leaves pass over all issues.
pub open spec fn leaves_seed_set(
    m: Map<NodeId, Seq<NodeId>>,
    issues: Seq<Issue>,
    consider_remote: bool,
) -> Set<NodeId>
    decreases issues.len(),
{
    if issues.len() == 0 {
        Set::empty()
    } else {
        leaves_seed_set(m, issues.drop_last(), consider_remote).union(
            issue_seeds(m, issues.last(), consider_remote),
        )
    }
}

/// Every ancestor of the seeds resolves in the store.
pub open spec fn seeds_closed(m: Map<NodeId, Seq<NodeId>>, seeds: Set<NodeId>) -> bool {
    forall|n: NodeId| reaches_any(m, false, seeds, n) ==> m.contains_key(n)
}

/// Every local leaf's target resolves in the store.
pub open spec fn leaves_resolvable(m: Map<NodeId, Seq<NodeId>>, issues: Seq<Issue>) -> bool {
    forall|i: int, j: int|
        0 <= i < issues.len() && 0 <= j < issues[i].local_leaves@.len() ==> m.contains_key(
            (#[trigger] issues[i].local_leaves@[j]).target,
        )
}

/// The whole batch can be computed: every id the two kinds of passes may
/// meet resolves. Exactly then the calculator succeeds.
pub open spec fn batch_ok(
    m: Map<NodeId, Seq<NodeId>>,
    issues: Seq<Issue>,
    consider_remote: bool,
    policy: ReferenceCollectionSpec,
) -> bool {
    &&& leaves_resolvable(m, issues)
    &&& forall|i: int|
        0 <= i < issues.len() ==> seeds_closed(m, head_seed_set(#[trigger] issues[i], policy))
    &&& seeds_closed(m, leaves_seed_set(m, issues, consider_remote))
}

/// A visit sequence that covers exactly the ancestors of `seeds`, without
/// repetition: what a completed traversal from `seeds` has emitted.
pub open spec fn covering_visit(
    m: Map<NodeId, Seq<NodeId>>,
    seeds: Set<NodeId>,
    vis: Seq<NodeId>,
) -> bool {
    vis.no_duplicates() && forall|n: NodeId| vis.contains(n) <==> reaches_any(m, false, seeds, n)
}

/// A collected head is some issue's local head, and only because its target
/// is an ancestor of that issue's head-pass seeds.
pub proof fn lemma_collected_heads_membership(
    m: Map<NodeId, Seq<NodeId>>,
    issues: Seq<Issue>,
    policy: ReferenceCollectionSpec,
    rf: Reference,
)
    requires
        collected_heads(m, issues, policy).contains(rf),
    ensures
        exists|i: int|
            0 <= i < issues.len() && rf == (#[trigger] issues[i]).local_head && head_removable(
                m,
                issues[i],
                policy,
            ),
    decreases issues.len(),
{
    let s = collected_heads(m, issues, policy);
    let dl = issues.drop_last();
    let left = collected_heads(m, dl, policy);
    let k = choose|k: int| 0 <= k < s.len() && s[k] == rf;
    if k < left.len() {
        assert(left[k] == rf);
        lemma_collected_heads_membership(m, dl, policy, rf);
        let i = choose|i: int|
            0 <= i < dl.len() && rf == (#[trigger] dl[i]).local_head && head_removable(
                m,
                dl[i],
                policy,
            );
        assert(issues[i] == dl[i]);
    } else {
        assert(head_removable(m, issues.last(), policy));
        assert(rf == issues.last().local_head);
        assert(issues[issues.len() - 1] == issues.last());
    }
}

/// When heads are never collected, no head is collected.
pub proof fn lemma_collected_heads_never(m: Map<NodeId, Seq<NodeId>>, issues: Seq<Issue>)
    ensures
        collected_heads(m, issues, ReferenceCollectionSpec::Never) == Seq::<Reference>::empty(),
    decreases issues.len(),
{
    if issues.len() == 0 {
        assert(collected_heads(m, issues, ReferenceCollectionSpec::Never) =~= Seq::<
            Reference,
        >::empty());
    } else {
        lemma_collected_heads_never(m, issues.drop_last());
        assert(!head_removable(m, issues.last(), ReferenceCollectionSpec::Never));
        assert(collected_heads(m, issues, ReferenceCollectionSpec::Never) =~= Seq::<
            Reference,
        >::empty());
    }
}

/// What the shared leaves pass watches is exactly every issue's local
/// leaves.
pub proof fn lemma_leaves_watched_membership(issues: Seq<Issue>, rf: Reference)
    ensures
        leaves_watched(issues).contains(rf) <==> exists|i: int, j: int|
            0 <= i < issues.len() && 0 <= j < issues[i].local_leaves@.len() && (
            #[trigger] issues[i].local_leaves@[j]) == rf,
    decreases issues.len(),
{
    if issues.len() > 0 {
        let dl = issues.drop_last();
        let left = leaves_watched(dl);
        lemma_leaves_watched_membership(dl, rf);
        if leaves_watched(issues).contains(rf) {
            let k = choose|k: int|
                0 <= k < leaves_watched(issues).len() && leaves_watched(issues)[k] == rf;
            if k < left.len() {
                assert(left[k] == rf);
                let (i, j): (int, int) = choose|i: int, j: int|
                    0 <= i < dl.len() && 0 <= j < dl[i].local_leaves@.len() && (
                    #[trigger] dl[i].local_leaves@[j]) == rf;
                assert(issues[i] == dl[i]);
                assert(issues[i].local_leaves@[j] == rf);
            } else {
                let j = k - left.len();
                assert(issues.last().local_leaves@[j] == rf);
                assert(issues[issues.len() - 1] == issues.last());
            }
        }
        if exists|i: int, j: int|
            0 <= i < issues.len() && 0 <= j < issues[i].local_leaves@.len() && (
            #[trigger] issues[i].local_leaves@[j]) == rf {
            let (i, j): (int, int) = choose|i: int, j: int|
                0 <= i < issues.len() && 0 <= j < issues[i].local_leaves@.len() && (
                #[trigger] issues[i].local_leaves@[j]) == rf;
            if i < issues.len() - 1 {
                assert(dl[i].local_leaves@[j] == rf);
                assert(left.contains(rf));
                let k = choose|k: int| 0 <= k < left.len() && left[k] == rf;
                assert(leaves_watched(issues)[k] == rf);
            } else {
                assert(leaves_watched(issues)[left.len() + j] == rf);
            }
        }
    }
}

/// What a batch of leaves contributes to the seeds: parents of the leaves'
/// targets, nothing else.
pub proof fn lemma_leaf_parent_seeds_elem(
    m: Map<NodeId, Seq<NodeId>>,
    leaves: Seq<Reference>,
    x: NodeId,
)
    ensures
        leaf_parent_seeds(m, leaves).contains(x) <==> exists|j: int|
            0 <= j < leaves.len() && m.contains_key((#[trigger] leaves[j]).target)
                && m[leaves[j].target].contains(x),
    decreases leaves.len(),
{
    if leaves.len() > 0 {
        let dl = leaves.drop_last();
        lemma_leaf_parent_seeds_elem(m, dl, x);
        if m.contains_key(leaves.last().target) {
            lemma_id_set_elem(m[leaves.last().target], x);
        }
        if leaf_parent_seeds(m, leaves).contains(x) {
            if leaf_parent_seeds(m, dl).contains(x) {
                let j = choose|j: int|
                    0 <= j < dl.len() && m.contains_key((#[trigger] dl[j]).target)
                        && m[dl[j].target].contains(x);
                assert(leaves[j] == dl[j]);
                assert(m.contains_key(leaves[j].target) && m[leaves[j].target].contains(x));
            } else {
                assert(leaves[leaves.len() - 1] == leaves.last());
                assert(m.contains_key(leaves.last().target) && m[leaves.last().target].contains(
                    x,
                ));
            }
        }
        if exists|j: int|
            0 <= j < leaves.len() && m.contains_key((#[trigger] leaves[j]).target)
                && m[leaves[j].target].contains(x) {
            let j = choose|j: int|
                0 <= j < leaves.len() && m.contains_key((#[trigger] leaves[j]).target)
                    && m[leaves[j].target].contains(x);
            if j < leaves.len() - 1 {
                assert(dl[j] == leaves[j]);
                assert(m.contains_key(dl[j].target) && m[dl[j].target].contains(x));
            }
        }
    }
}

/// What seeds the shared leaves pass, exactly: some issue's head target, a
/// parent of some leaf's target, or — when remote references are
/// considered — some remote leaf's target. In particular a leaf's own
/// target never seeds the pass on the leaf's own account.
pub proof fn lemma_leaves_seed_set_elem(
    m: Map<NodeId, Seq<NodeId>>,
    issues: Seq<Issue>,
    consider_remote: bool,
    x: NodeId,
)
    ensures
        leaves_seed_set(m, issues, consider_remote).contains(x) <==> exists|i: int|
            0 <= i < issues.len() && ((#[trigger] issues[i]).local_head.target == x
                || leaf_parent_seeds(m, issues[i].local_leaves@).contains(x) || (consider_remote
                && targets_of(issues[i].remote_leaves@).contains(x))),
    decreases issues.len(),
{
    if issues.len() > 0 {
        let dl = issues.drop_last();
        lemma_leaves_seed_set_elem(m, dl, consider_remote, x);
        if leaves_seed_set(m, issues, consider_remote).contains(x) {
            if leaves_seed_set(m, dl, consider_remote).contains(x) {
                let i = choose|i: int|
                    0 <= i < dl.len() && ((#[trigger] dl[i]).local_head.target == x
                        || leaf_parent_seeds(m, dl[i].local_leaves@).contains(x) || (
                    consider_remote && targets_of(dl[i].remote_leaves@).contains(x)));
                assert(issues[i] == dl[i]);
                assert(issues[i].local_head.target == x || leaf_parent_seeds(
                    m,
                    issues[i].local_leaves@,
                ).contains(x) || (consider_remote && targets_of(
                    issues[i].remote_leaves@,
                ).contains(x)));
            } else {
                assert(issue_seeds(m, issues.last(), consider_remote).contains(x));
                assert(issues[issues.len() - 1] == issues.last());
                assert(issues.last().local_head.target == x || leaf_parent_seeds(
                    m,
                    issues.last().local_leaves@,
                ).contains(x) || (consider_remote && targets_of(
                    issues.last().remote_leaves@,
                ).contains(x)));
            }
        }
        if exists|i: int|
            0 <= i < issues.len() && ((#[trigger] issues[i]).local_head.target == x
                || leaf_parent_seeds(m, issues[i].local_leaves@).contains(x) || (consider_remote
                && targets_of(issues[i].remote_leaves@).contains(x))) {
            let i = choose|i: int|
                0 <= i < issues.len() && ((#[trigger] issues[i]).local_head.target == x
                    || leaf_parent_seeds(m, issues[i].local_leaves@).contains(x) || (
                consider_remote && targets_of(issues[i].remote_leaves@).contains(x)));
            if i < issues.len() - 1 {
                assert(dl[i] == issues[i]);
                assert(dl[i].local_head.target == x || leaf_parent_seeds(
                    m,
                    dl[i].local_leaves@,
                ).contains(x) || (consider_remote && targets_of(dl[i].remote_leaves@).contains(
                    x,
                )));
            } else {
                assert(issue_seeds(m, issues.last(), consider_remote).contains(x));
            }
        }
    }
}

/// Soundness of the removable set.
///
/// Every reference of the computed set is either some issue's local head
/// whose target is an ancestor of that issue's remote-head seeds, or one of
/// the watched local leaves whose target is an ancestor of the shared
/// leaves-pass seeds. By `lemma_leaves_seed_set_elem` those seeds are only
/// head targets, parents of leaf targets and, when enabled, remote leaf
/// targets: a reference's own target never justifies its own removal.
pub proof fn lemma_removable_sound(
    m: Map<NodeId, Seq<NodeId>>,
    issues: Seq<Issue>,
    consider_remote: bool,
    policy: ReferenceCollectionSpec,
    vis: Seq<NodeId>,
    rf: Reference,
)
    requires
        covering_visit(m, leaves_seed_set(m, issues, consider_remote), vis),
        (collected_heads(m, issues, policy) + fired(leaves_watched(issues), vis)).contains(rf),
    ensures
        (exists|i: int|
            0 <= i < issues.len() && rf == (#[trigger] issues[i]).local_head && reaches_any(
                m,
                false,
                head_seed_set(issues[i], policy),
                rf.target,
            )) || (leaves_watched(issues).contains(rf) && reaches_any(
            m,
            false,
            leaves_seed_set(m, issues, consider_remote),
            rf.target,
        )),
{
    let heads = collected_heads(m, issues, policy);
    let leaves = fired(leaves_watched(issues), vis);
    let s = heads + leaves;
    let k = choose|k: int| 0 <= k < s.len() && s[k] == rf;
    if k < heads.len() {
        assert(heads[k] == rf);
        lemma_collected_heads_membership(m, issues, policy, rf);
    } else {
        assert(leaves[k - heads.len()] == rf);
        assert(leaves.contains(rf));
        crate::iter::lemma_fired_membership(leaves_watched(issues), vis, rf);
    }
}

/// No-op idempotence.
///
/// Under the default configuration — heads never collected — and with no
/// leaf subsumed by the leaves-pass seeds, the removable set is empty; as
/// the set is a function of store, issues and configuration alone, it is
/// empty on every repeated run as well.
pub proof fn lemma_noop_idempotence(
    m: Map<NodeId, Seq<NodeId>>,
    issues: Seq<Issue>,
    consider_remote: bool,
    vis: Seq<NodeId>,
)
    requires
        covering_visit(m, leaves_seed_set(m, issues, consider_remote), vis),
        forall|i: int, j: int|
            0 <= i < issues.len() && 0 <= j < issues[i].local_leaves@.len() ==> !reaches_any(
                m,
                false,
                leaves_seed_set(m, issues, consider_remote),
                (#[trigger] issues[i].local_leaves@[j]).target,
            ),
    ensures
        collected_heads(m, issues, ReferenceCollectionSpec::Never) + fired(
            leaves_watched(issues),
            vis,
        ) == Seq::<Reference>::empty(),
{
    lemma_collected_heads_never(m, issues);
    let w = leaves_watched(issues);
    assert forall|k: int| 0 <= k < w.len() implies !vis.contains((#[trigger] w[k]).target) by {
        assert(w.contains(w[k]));
        lemma_leaves_watched_membership(issues, w[k]);
        let (i, j): (int, int) = choose|i: int, j: int|
            0 <= i < issues.len() && 0 <= j < issues[i].local_leaves@.len() && (
            #[trigger] issues[i].local_leaves@[j]) == w[k];
        assert(!reaches_any(
            m,
            false,
            leaves_seed_set(m, issues, consider_remote),
            issues[i].local_leaves@[j].target,
        ));
    }
    crate::iter::lemma_fired_unwatched(w, vis);
    assert(collected_heads(m, issues, ReferenceCollectionSpec::Never) + fired(w, vis) =~= Seq::<
        Reference,
    >::empty());
}

/// Head default-safety.
///
/// When heads are never collected, everything in the removable set is a
/// leaf reference: a local head is never reported, whatever remote heads
/// exist and whatever they target.
pub proof fn lemma_head_default_safety(
    m: Map<NodeId, Seq<NodeId>>,
    issues: Seq<Issue>,
    consider_remote: bool,
    vis: Seq<NodeId>,
    rf: Reference,
)
    requires
        forall|i: int| 0 <= i < issues.len() ==> (#[trigger] issues[i]).wf(),
        covering_visit(m, leaves_seed_set(m, issues, consider_remote), vis),
        (collected_heads(m, issues, ReferenceCollectionSpec::Never) + fired(
            leaves_watched(issues),
            vis,
        )).contains(rf),
    ensures
        rf.role == crate::refs::RefRole::Leaf,
        rf.scope == crate::refs::RefScope::Local,
{
    lemma_collected_heads_never(m, issues);
    let w = leaves_watched(issues);
    let s = collected_heads(m, issues, ReferenceCollectionSpec::Never) + fired(w, vis);
    assert(s =~= fired(w, vis));
    crate::iter::lemma_fired_membership(w, vis, rf);
    lemma_leaves_watched_membership(issues, rf);
    let (i, j): (int, int) = choose|i: int, j: int|
        0 <= i < issues.len() && 0 <= j < issues[i].local_leaves@.len() && (
        #[trigger] issues[i].local_leaves@[j]) == rf;
    assert(issues[i].wf());
}

/// Type representing collectable references.
///
/// Computes, for a set of issues, which references are no longer required
/// and thus may be collected. By default only local references are
/// considered and heads are never collected.
pub struct CollectableRefs {
    issues: Vec<Issue>,
    /// Should remote references be considered during collection?
    consider_remote_refs: bool,
    /// Under what circumstances should local heads be collected?
    collect_heads: ReferenceCollectionSpec,
}

impl CollectableRefs {
    /// The issues of the batch.
    pub closed spec fn issue_seq(self) -> Seq<Issue> {
        self.issues@
    }

    /// Whether remote references are considered.
    pub closed spec fn considers_remote(self) -> bool {
        self.consider_remote_refs
    }

    /// The head-retention policy.
    pub closed spec fn head_policy(self) -> ReferenceCollectionSpec {
        self.collect_heads
    }

    /// Every issue of the batch is well formed.
    pub open spec fn wf(self) -> bool {
        forall|i: int| 0 <= i < self.issue_seq().len() ==> (#[trigger] self.issue_seq()[i]).wf()
    }

    /// A new calculator over `issues`, with the default configuration: only
    /// local references are considered, and heads are never collected.
    pub fn new(issues: Vec<Issue>) -> (c: CollectableRefs)
        ensures
            c.issue_seq() == issues@,
            !c.considers_remote(),
            c.head_policy() == ReferenceCollectionSpec::Never,
    {
        CollectableRefs {
            issues,
            consider_remote_refs: false,
            collect_heads: ReferenceCollectionSpec::Never,
        }
    }

    /// Causes remote references to be considered: a local leaf subsumed by
    /// remote-leaf ancestry is then collectable too.
    pub fn consider_remote_refs(self) -> (c: CollectableRefs)
        ensures
            c.issue_seq() == self.issue_seq(),
            c.considers_remote(),
            c.head_policy() == self.head_policy(),
    {
        CollectableRefs {
            issues: self.issues,
            consider_remote_refs: true,
            collect_heads: self.collect_heads,
        }
    }

    /// Causes local head references to be collected under the condition
    /// given.
    pub fn collect_heads(self, condition: ReferenceCollectionSpec) -> (c: CollectableRefs)
        ensures
            c.issue_seq() == self.issue_seq(),
            c.considers_remote() == self.considers_remote(),
            c.head_policy() == condition,
    {
        CollectableRefs {
            issues: self.issues,
            consider_remote_refs: self.consider_remote_refs,
            collect_heads: condition,
        }
    }

    /// Push the parents of the referred node into a traversal's seeds.
    ///
    /// The parents are seeded, never the reference's own target: otherwise
    /// the reverse index would report that exact same reference.
    fn push_ref_parents(target: &mut Traversal, store: &Store, reference: &Reference) -> (r:
        Result<(), Error>)
        requires
            store.wf(),
            !old(target).started(),
        ensures
            final(target).is_first_parent() == old(target).is_first_parent(),
            final(target).emitted() == old(target).emitted(),
            !final(target).started(),
            forall|mm: Map<NodeId, Seq<NodeId>>| old(target).wf(mm) ==> final(target).wf(mm),
            match r {
                Ok(()) => store@.contains_key(reference.target) && final(target).seed_set() == old(
                    target,
                ).seed_set().union(id_set(store@[reference.target])),
                Err(e) => e == Error::LookupError(reference.target) && !store@.contains_key(
                    reference.target,
                ) && final(target).seed_set() == old(target).seed_set(),
            },
    {
        match store.resolve(reference.target) {
            None => Err(Error::LookupError(reference.target)),
            Some(parents) => {
                let ghost m = store@;
                let ghost t0 = reference.target;
                let k = parents.len();
                let mut j: usize = 0;
                proof {
                    assert(target.seed_set() =~= old(target).seed_set().union(
                        id_set(parents@.take(0)),
                    ));
                }
                while j < k
                    invariant
                        j <= k,
                        k == parents@.len(),
                        !target.started(),
                        target.is_first_parent() == old(target).is_first_parent(),
                        target.emitted() == old(target).emitted(),
                        target.seed_set() == old(target).seed_set().union(
                            id_set(parents@.take(j as int)),
                        ),
                        forall|mm: Map<NodeId, Seq<NodeId>>|
                            old(target).wf(mm) ==> target.wf(mm),
                    decreases k - j,
                {
                    target.push(parents[j]);
                    proof {
                        assert(parents@.take(j + 1).drop_last() =~= parents@.take(j as int));
                        assert(parents@.take(j + 1).last() == parents@[j as int]);
                        assert(target.seed_set() =~= old(target).seed_set().union(
                            id_set(parents@.take(j + 1)),
                        ));
                    }
                    j += 1;
                }
                proof {
                    assert(parents@.take(k as int) =~= parents@);
                }
                Ok(())
            },
        }
    }

    /// Perform the computation of the references to collect.
    ///
    /// Per issue a head-retention pass, seeded by policy and watching only
    /// the local head, decides whether the head is redundant; one shared
    /// leaves pass, seeded with every head's target, every leaf's parents
    /// and — when remote references are considered — every remote leaf's
    /// target, decides which leaves are subsumed. The two passes are kept
    /// separate: a reply leaf must never make its own head look redundant.
    /// Any resolution failure aborts the whole batch.
    pub fn into_refs(self, store: &Store) -> (r: Result<Vec<Reference>, Error>)
        requires
            store.wf(),
            self.wf(),
        ensures
            match r {
                Ok(v) => {
                    &&& batch_ok(
                        store@,
                        self.issue_seq(),
                        self.considers_remote(),
                        self.head_policy(),
                    )
                    &&& exists|vis: Seq<NodeId>|
                        #[trigger] covering_visit(
                            store@,
                            leaves_seed_set(store@, self.issue_seq(), self.considers_remote()),
                            vis,
                        ) && v@ == collected_heads(store@, self.issue_seq(), self.head_policy())
                            + fired(leaves_watched(self.issue_seq()), vis)
                },
                Err(e) => {
                    &&& !batch_ok(
                        store@,
                        self.issue_seq(),
                        self.considers_remote(),
                        self.head_policy(),
                    )
                    &&& e matches Error::LookupError(id) && !store@.contains_key(id)
                },
            },
    {
        let ghost m = store@;
        let cr = self.consider_remote_refs;
        let policy = self.collect_heads;
        let ghost iss = self.issues@;

        let mut retval: Vec<Reference> = Vec::new();
        let mut messages = Traversal::new(false);
        let mut refs_to_assess: Vec<Reference> = Vec::new();

        let n = self.issues.len();
        let mut i: usize = 0;
        proof {
            assert(retval@ =~= collected_heads(m, iss.take(0), policy));
            assert(refs_to_assess@ =~= leaves_watched(iss.take(0)));
            assert(messages.seed_set() =~= leaves_seed_set(m, iss.take(0), cr));
            assert(iss == self.issue_seq());
            assert forall|k: int| 0 <= k < iss.len() implies (#[trigger] iss[k]).wf() by {
                assert(self.issue_seq()[k].wf());
            }
        }
        while i < n
            invariant
                store.wf(),
                m == store@,
                i <= n,
                n == iss.len(),
                iss == self.issue_seq(),
                cr == self.considers_remote(),
                policy == self.head_policy(),
                forall|k: int| 0 <= k < iss.len() ==> (#[trigger] iss[k]).wf(),
                !messages.started(),
                messages.is_first_parent() == false,
                forall|mm: Map<NodeId, Seq<NodeId>>| messages.wf(mm),
                messages.seed_set() == leaves_seed_set(m, iss.take(i as int), cr),
                refs_to_assess@ == leaves_watched(iss.take(i as int)),
                retval@ == collected_heads(m, iss.take(i as int), policy),
                forall|k: int|
                    0 <= k < i ==> seeds_closed(m, head_seed_set(#[trigger] iss[k], policy)),
                forall|k: int, j: int|
                    0 <= k < i && 0 <= j < iss[k].local_leaves@.len() ==> m.contains_key(
                        (#[trigger] iss[k].local_leaves@[j]).target,
                    ),
            decreases n - i,
        {
            let issue = &self.issues[i];
            // Seed the shared leaves pass with the head's target: any leaf
            // whose target is an ancestor of the head is subsumed.
            messages.push(issue.local_head.target);
            let ghost after_head = messages.seed_set();

            // Head-retention pass: an independent traversal, so that a leaf
            // replying to the head cannot make the head look redundant.
            let mut head_history = Traversal::new(false);
            match policy {
                ReferenceCollectionSpec::Never => {},
                ReferenceCollectionSpec::BackedByRemoteHead => {
                    let hk = issue.remote_heads.len();
                    let mut hj: usize = 0;
                    proof {
                        assert(head_history.seed_set() =~= targets_of(
                            issue.remote_heads@.take(0),
                        ));
                    }
                    while hj < hk
                        invariant
                            hj <= hk,
                            hk == issue.remote_heads@.len(),
                            !head_history.started(),
                            head_history.is_first_parent() == false,
                            forall|mm: Map<NodeId, Seq<NodeId>>| head_history.wf(mm),
                            head_history.seed_set() == targets_of(
                                issue.remote_heads@.take(hj as int),
                            ),
                        decreases hk - hj,
                    {
                        head_history.push(issue.remote_heads[hj].target);
                        proof {
                            assert(issue.remote_heads@.take(hj + 1).drop_last()
                                =~= issue.remote_heads@.take(hj as int));
                            assert(issue.remote_heads@.take(hj + 1).last()
                                == issue.remote_heads@[hj as int]);
                            assert(head_history.seed_set() =~= targets_of(
                                issue.remote_heads@.take(hj + 1),
                            ));
                        }
                        hj += 1;
                    }
                    proof {
                        assert(issue.remote_heads@.take(hk as int) =~= issue.remote_heads@);
                    }
                },
            }
            proof {
                assert(head_history.seed_set() =~= head_seed_set(iss[i as int], policy));
            }
            let mut referring_refs = RefsReferringTo::new(head_history);
            referring_refs.watch_ref(issue.local_head);
            proof {
                assert(referring_refs.watched() =~= seq![issue.local_head]);
            }
            let ghost retval_before = retval@;
            let head_res = referring_refs.collect_result_into(store, &mut retval);
            match head_res {
                Err(e) => {
                    proof {
                        let id = e->LookupError_0;
                        assert(!m.contains_key(id));
                        assert(reaches_any(m, false, head_seed_set(iss[i as int], policy), id));
                        assert(!seeds_closed(m, head_seed_set(iss[i as int], policy)));
                        assert(!batch_ok(m, iss, cr, policy)) by {
                            if batch_ok(m, iss, cr, policy) {
                                assert(seeds_closed(m, head_seed_set(#[trigger] iss[i as int], policy)));
                            }
                        }
                    }
                    return Err(e);
                },
                Ok(()) => {
                    proof {
                        let vis = referring_refs.trav_emitted();
                        crate::iter::lemma_fired_singleton(issue.local_head, vis);
                        assert(referring_refs.emitted().skip(0) =~= referring_refs.emitted());
                        assert(retval@ == retval_before + referring_refs.emitted());
                        assert(iss.take(i + 1).drop_last() =~= iss.take(i as int));
                        assert(iss.take(i + 1).last() == iss[i as int]);
                        if head_removable(m, iss[i as int], policy) {
                            assert(vis.contains(issue.local_head.target));
                            assert(retval@ =~= collected_heads(m, iss.take(i + 1), policy));
                        } else {
                            assert(!vis.contains(issue.local_head.target));
                            assert(retval@ =~= collected_heads(m, iss.take(i + 1), policy));
                        }
                    }
                },
            }

            // Local leaves: seed each leaf's parents and register the leaf
            // itself for the shared leaves pass.
            let lk = issue.local_leaves.len();
            let mut lj: usize = 0;
            proof {
                assert(messages.seed_set() =~= after_head.union(
                    leaf_parent_seeds(m, issue.local_leaves@.take(0)),
                ));
            }
            while lj < lk
                invariant
                    store.wf(),
                    m == store@,
                    i < n,
                    n == iss.len(),
                    iss == self.issue_seq(),
                    cr == self.considers_remote(),
                    policy == self.head_policy(),
                    *issue == iss[i as int],
                    lj <= lk,
                    lk == issue.local_leaves@.len(),
                    !messages.started(),
                    messages.is_first_parent() == false,
                    forall|mm: Map<NodeId, Seq<NodeId>>| messages.wf(mm),
                    messages.seed_set() == after_head.union(
                        leaf_parent_seeds(m, issue.local_leaves@.take(lj as int)),
                    ),
                    refs_to_assess@ == leaves_watched(iss.take(i as int))
                        + issue.local_leaves@.take(lj as int),
                    forall|j: int|
                        0 <= j < lj ==> m.contains_key(
                            (#[trigger] issue.local_leaves@[j]).target,
                        ),
                decreases lk - lj,
            {
                let leaf = issue.local_leaves[lj];
                let leaf_res = Self::push_ref_parents(&mut messages, store, &leaf);
                match leaf_res {
                    Err(e) => {
                        proof {
                            assert(iss[i as int].local_leaves@[lj as int] == leaf);
                            assert(!m.contains_key(leaf.target));
                            assert(!leaves_resolvable(m, iss)) by {
                                if leaves_resolvable(m, iss) {
                                    assert(m.contains_key(
                                        (#[trigger] iss[i as int].local_leaves@[lj as int]).target,
                                    ));
                                }
                            }
                            assert(!batch_ok(m, iss, cr, policy));
                        }
                        return Err(e);
                    },
                    Ok(()) => {},
                }
                refs_to_assess.push(leaf);
                proof {
                    assert(issue.local_leaves@.take(lj + 1).drop_last()
                        =~= issue.local_leaves@.take(lj as int));
                    assert(issue.local_leaves@.take(lj + 1).last()
                        == issue.local_leaves@[lj as int]);
                    assert(messages.seed_set() =~= after_head.union(
                        leaf_parent_seeds(m, issue.local_leaves@.take(lj + 1)),
                    ));
                    assert(refs_to_assess@ =~= leaves_watched(iss.take(i as int))
                        + issue.local_leaves@.take(lj + 1));
                }
                lj += 1;
            }
            proof {
                assert(issue.local_leaves@.take(lk as int) =~= issue.local_leaves@);
            }

            // Remote leaves: when considered, their targets seed the shared
            // pass — a leaf already mirrored remotely is redundant locally.
            if cr {
                let rk = issue.remote_leaves.len();
                let mut rj: usize = 0;
                let ghost after_leaves = messages.seed_set();
                proof {
                    assert(messages.seed_set() =~= after_leaves.union(
                        targets_of(issue.remote_leaves@.take(0)),
                    ));
                }
                while rj < rk
                    invariant
                        rj <= rk,
                        rk == issue.remote_leaves@.len(),
                        !messages.started(),
                        messages.is_first_parent() == false,
                        forall|mm: Map<NodeId, Seq<NodeId>>| messages.wf(mm),
                        messages.seed_set() == after_leaves.union(
                            targets_of(issue.remote_leaves@.take(rj as int)),
                        ),
                    decreases rk - rj,
                {
                    messages.push(issue.remote_leaves[rj].target);
                    proof {
                        assert(issue.remote_leaves@.take(rj + 1).drop_last()
                            =~= issue.remote_leaves@.take(rj as int));
                        assert(issue.remote_leaves@.take(rj + 1).last()
                            == issue.remote_leaves@[rj as int]);
                        assert(messages.seed_set() =~= after_leaves.union(
                            targets_of(issue.remote_leaves@.take(rj + 1)),
                        ));
                    }
                    rj += 1;
                }
                proof {
                    assert(issue.remote_leaves@.take(rk as int) =~= issue.remote_leaves@);
                }
            }

            proof {
                assert(iss.take(i + 1).drop_last() =~= iss.take(i as int));
                assert(iss.take(i + 1).last() == iss[i as int]);
                assert(messages.seed_set() =~= leaves_seed_set(m, iss.take(i + 1), cr));
                assert(refs_to_assess@ =~= leaves_watched(iss.take(i + 1)));
            }
            i += 1;
        }
        proof {
            assert(iss.take(n as int) =~= iss);
        }

        // The shared leaves pass: collect the references referring to the
        // part of the DAG that is retained anyway.
        let mut referring_refs = RefsReferringTo::new(messages);
        referring_refs.watch_refs(refs_to_assess);
        proof {
            assert(referring_refs.watched() =~= leaves_watched(iss));
        }
        let ghost retval_before = retval@;
        let leaves_res = referring_refs.collect_result_into(store, &mut retval);
        match leaves_res {
            Err(e) => {
                proof {
                    let id = e->LookupError_0;
                    assert(!m.contains_key(id));
                    assert(reaches_any(m, false, leaves_seed_set(m, iss, cr), id));
                    assert(!seeds_closed(m, leaves_seed_set(m, iss, cr)));
                    assert(!batch_ok(m, iss, cr, policy));
                }
                Err(e)
            },
            Ok(()) => {
                proof {
                    let vis = referring_refs.trav_emitted();
                    assert(referring_refs.emitted().skip(0) =~= referring_refs.emitted());
                    assert(retval@ == collected_heads(m, iss, policy) + fired(
                        leaves_watched(iss),
                        vis,
                    ));
                    assert(covering_visit(m, leaves_seed_set(m, iss, cr), vis));
                    assert(batch_ok(m, iss, cr, policy));
                }
                Ok(retval)
            },
        }
    }

    /// Transform directly into a reference collection iterator over the
    /// computed removable references.
    pub fn into_collector(self, store: &Store) -> (r: Result<ReferenceCollector, Error>)
        requires
            store.wf(),
            self.wf(),
        ensures
            match r {
                Ok(it) => {
                    &&& batch_ok(
                        store@,
                        self.issue_seq(),
                        self.considers_remote(),
                        self.head_policy(),
                    )
                    &&& exists|vis: Seq<NodeId>|
                        #[trigger] covering_visit(
                            store@,
                            leaves_seed_set(store@, self.issue_seq(), self.considers_remote()),
                            vis,
                        ) && it.remaining() == collected_heads(
                            store@,
                            self.issue_seq(),
                            self.head_policy(),
                        ) + fired(leaves_watched(self.issue_seq()), vis)
                },
                Err(e) => {
                    &&& !batch_ok(
                        store@,
                        self.issue_seq(),
                        self.considers_remote(),
                        self.head_policy(),
                    )
                    &&& e matches Error::LookupError(id) && !store@.contains_key(id)
                },
            },
    {
        let ghost me = self;
        match self.into_refs(store) {
            Ok(refs) => {
                let ghost v = refs@;
                let it = ReferenceDeletingIter::new(refs);
                proof {
                    let vis = choose|vis: Seq<NodeId>|
                        #[trigger] covering_visit(
                            store@,
                            leaves_seed_set(store@, me.issue_seq(), me.considers_remote()),
                            vis,
                        ) && v == collected_heads(store@, me.issue_seq(), me.head_policy())
                            + fired(leaves_watched(me.issue_seq()), vis);
                    assert(covering_visit(
                        store@,
                        leaves_seed_set(store@, me.issue_seq(), me.considers_remote()),
                        vis,
                    ) && it.remaining() == collected_heads(store@, me.issue_seq(), me.head_policy())
                        + fired(leaves_watched(me.issue_seq()), vis));
                }
                Ok(it)
            },
            Err(e) => Err(e),
        }
    }
}

} // verus!
