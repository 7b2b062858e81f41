use vstd::prelude::*;

use crate::error::Error;
use crate::refs::{has_issue_head, RefDir};
use crate::store::{NodeId, Store};
use crate::traversal::{path_ok_at, step, valid_path};

verus! {

/// No id of `p` is the root of an issue under `refs`.
pub open spec fn none_initial(refs: Seq<crate::refs::Reference>, p: Seq<NodeId>) -> bool {
    forall|k: int| 0 <= k < p.len() ==> !has_issue_head(refs, #[trigger] p[k])
}

/// Retrieve an issue: the id is one exactly when a head reference backs it.
pub fn find_issue(dir: &RefDir, id: NodeId) -> (r: Result<NodeId, Error>)
    ensures
        match r {
            Ok(n) => n == id && has_issue_head(dir@, id),
            Err(e) => e == Error::LookupError(id) && !has_issue_head(dir@, id),
        },
{
    if dir.has_issue_head(id) {
        Ok(id)
    } else {
        Err(Error::LookupError(id))
    }
}

/// A duplicate-free sequence of resolvable ids is no longer than the store.
proof fn lemma_chain_bound(v: Seq<NodeId>, m: Map<NodeId, Seq<NodeId>>, store: &Store)
    requires
        v.no_duplicates(),
        forall|k: int| 0 <= k < v.len() ==> m.contains_key(#[trigger] v[k]),
        store@ == m,
    ensures
        v.len() <= m.dom().len(),
{
    store.lemma_finite();
    v.unique_seq_to_set();
    assert(v.to_set().subset_of(m.dom())) by {
        assert forall|x: NodeId| v.to_set().contains(x) implies m.dom().contains(x) by {
            assert(v.contains(x));
            let k = choose|k: int| 0 <= k < v.len() && v[k] == x;
        }
    }
    vstd::set_lib::lemma_len_subset(v.to_set(), m.dom());
}

/// Linear membership scan.
fn chain_contains(v: &Vec<NodeId>, x: NodeId) -> (r: bool)
    ensures
        r == v@.contains(x),
{
    let n = v.len();
    let mut i: usize = 0;
    while i < n
        invariant
            i <= n,
            n == v@.len(),
            forall|j: int| 0 <= j < i ==> v@[j] != x,
        decreases n - i,
    {
        if v[i] == x {
            return true;
        }
        i += 1;
    }
    false
}

/// Find the initial message of an issue.
///
/// Follows the chain of first parents from `commit` towards an initial
/// message backed by a head reference. The chain ends without one when a
/// message has no parent, or when the first parent would close a cycle —
/// which an append-only content-addressed store never produces.
pub fn find_tree_init(store: &Store, dir: &RefDir, commit: NodeId) -> (r: Result<NodeId, Error>)
    requires
        store.wf(),
    ensures
        match r {
            Ok(n) => exists|p: Seq<NodeId>|
                #[trigger] valid_path(store@, true, p) && p.first() == commit && p.last() == n
                    && none_initial(dir@, p.drop_last()) && has_issue_head(dir@, n),
            Err(e) => match e {
                Error::LookupError(x) => exists|p: Seq<NodeId>|
                    #[trigger] valid_path(store@, true, p) && p.first() == commit && p.last() == x
                        && none_initial(dir@, p) && !store@.contains_key(x),
                Error::NoTreeInitFound(c) => c == commit && exists|p: Seq<NodeId>|
                    #[trigger] valid_path(store@, true, p) && p.first() == commit && none_initial(
                        dir@,
                        p,
                    ) && store@.contains_key(p.last()) && (store@[p.last()].len() == 0
                        || p.contains(store@[p.last()][0])),
                Error::DeletionError(_) => false,
            },
        },
{
    let ghost m = store@;
    let mut cur = commit;
    let mut visited: Vec<NodeId> = Vec::new();
    proof {
        assert(valid_path(m, true, visited@.push(cur)));
        lemma_chain_bound(visited@, m, store);
    }
    loop
        invariant
            store.wf(),
            m == store@,
            valid_path(m, true, visited@.push(cur)),
            visited@.push(cur).first() == commit,
            none_initial(dir@, visited@),
            visited@.no_duplicates(),
            !visited@.contains(cur),
            forall|k: int| 0 <= k < visited@.len() ==> m.contains_key(#[trigger] visited@[k]),
            visited@.len() <= m.dom().len(),
        decreases m.dom().len() - visited@.len(),
    {
        let ghost p = visited@.push(cur);
        if dir.has_issue_head(cur) {
            proof {
                assert(p.drop_last() =~= visited@);
            }
            return Ok(cur);
        }
        match store.resolve(cur) {
            None => {
                proof {
                    assert forall|k: int| 0 <= k < p.len() implies !has_issue_head(
                        dir@,
                        #[trigger] p[k],
                    ) by {
                        if k < p.len() - 1 {
                            assert(p[k] == visited@[k]);
                        } else {
                            assert(p[k] == cur);
                        }
                    }
                }
                return Err(Error::LookupError(cur));
            },
            Some(parents) => {
                proof {
                    assert forall|k: int| 0 <= k < p.len() implies !has_issue_head(
                        dir@,
                        #[trigger] p[k],
                    ) by {
                        if k < p.len() - 1 {
                            assert(p[k] == visited@[k]);
                        } else {
                            assert(p[k] == cur);
                        }
                    }
                }
                if parents.len() == 0 {
                    proof {
                        assert(p.last() == cur);
                    }
                    return Err(Error::NoTreeInitFound(commit));
                }
                let next = parents[0];
                if next == cur || chain_contains(&visited, next) {
                    proof {
                        assert(p.last() == cur);
                        assert(m[cur][0] == next);
                        if next == cur {
                            assert(p[p.len() - 1] == next);
                        } else {
                            let k = choose|k: int|
                                0 <= k < visited@.len() && visited@[k] == next;
                            assert(p[k] == next);
                        }
                        assert(p.contains(m[p.last()][0]));
                    }
                    return Err(Error::NoTreeInitFound(commit));
                }
                visited.push(cur);
                let prev = cur;
                cur = next;
                proof {
                    let q = visited@.push(cur);
                    assert(q.drop_last() =~= p);
                    assert(step(m, true, prev, cur)) by {
                        assert(crate::traversal::followed(m, true, prev) == seq![m[prev][0]]);
                        assert(seq![m[prev][0]][0] == cur);
                    }
                    assert forall|k: int| 0 <= k < q.len() - 1 implies #[trigger] path_ok_at(
                        m,
                        true,
                        q,
                        k,
                    ) by {
                        if k < p.len() - 1 {
                            assert(path_ok_at(m, true, p, k));
                            assert(q[k] == p[k] && q[k + 1] == p[k + 1]);
                        } else {
                            assert(q[k] == prev && q[k + 1] == cur);
                        }
                    }
                    assert(valid_path(m, true, q));
                    assert(q.first() == commit);
                    assert(visited@ =~= p);
                    lemma_chain_bound(visited@, m, store);
                }
            },
        }
    }
}

} // verus!
