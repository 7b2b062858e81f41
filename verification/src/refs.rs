use vstd::prelude::*;

use crate::error::Error;
use crate::store::NodeId;

verus! {

/// Whether a reference lives in the local namespace or mirrors a remote one.
#[derive(Clone, Copy, PartialEq, Eq, Structural, Debug)]
pub enum RefScope {
    Local,
    Remote,
}

/// Whether a reference marks an issue's current tip or the tip of an
/// unmerged reply branch.
#[derive(Clone, Copy, PartialEq, Eq, Structural, Debug)]
pub enum RefRole {
    Head,
    Leaf,
}

/// A mutable named pointer into the DAG.
///
/// A reference belongs to the issue rooted at `issue` and peels to the node
/// `target`. The name token stands for the reference's full name and is
/// unique within a directory.
#[derive(Clone, Copy, PartialEq, Eq, Structural, Debug)]
pub struct Reference {
    /// Name token, unique among the references of a directory.
    pub name: u64,
    /// The namespace the reference lives in.
    pub scope: RefScope,
    /// The role the reference plays for its issue.
    pub role: RefRole,
    /// The id of the root node of the issue the reference belongs to.
    pub issue: NodeId,
    /// The node id the reference peels to.
    pub target: NodeId,
}

/// Whether some reference of `refs` carries the name `name`.
pub open spec fn has_name(refs: Seq<Reference>, name: u64) -> bool {
    exists|i: int| 0 <= i < refs.len() && refs[i].name == name
}

/// Whether some reference of `refs` is a head of the issue rooted at `id`,
/// local or remote: exactly then `id` is the root of an issue.
pub open spec fn has_issue_head(refs: Seq<Reference>, id: NodeId) -> bool {
    exists|i: int|
        0 <= i < refs.len() && (#[trigger] refs[i]).role == RefRole::Head && refs[i].issue == id
}

/// Model of the reference directory: the mutable namespace that holds every
/// reference, local and remote, and from which deletion removes them.
pub struct RefDir {
    refs: Vec<Reference>,
}

impl View for RefDir {
    type V = Seq<Reference>;

    closed spec fn view(&self) -> Seq<Reference> {
        self.refs@
    }
}

impl RefDir {
    /// Names are unique within a directory.
    pub open spec fn wf(self) -> bool {
        forall|i: int, j: int|
            0 <= i < j < self@.len() ==> (#[trigger] self@[i]).name != (#[trigger] self@[j]).name
    }

    /// An empty directory.
    pub fn new() -> (d: RefDir)
        ensures
            d.wf(),
            d@ == Seq::<Reference>::empty(),
    {
        RefDir { refs: Vec::new() }
    }

    /// Whether a reference named `name` is present.
    pub fn contains_name(&self, name: u64) -> (r: bool)
        ensures
            r == has_name(self@, name),
    {
        let n = self.refs.len();
        let mut i: usize = 0;
        while i < n
            invariant
                i <= n,
                n == self@.len(),
                forall|j: int| 0 <= j < i ==> self@[j].name != name,
            decreases n - i,
        {
            if self.refs[i].name == name {
                return true;
            }
            i += 1;
        }
        false
    }

    /// Add a reference; refused when its name is already taken.
    pub fn add_ref(&mut self, r: Reference) -> (added: bool)
        requires
            old(self).wf(),
        ensures
            final(self).wf(),
            added == !has_name(old(self)@, r.name),
            added ==> final(self)@ == old(self)@.push(r),
            !added ==> final(self)@ == old(self)@,
    {
        if self.contains_name(r.name) {
            return false;
        }
        self.refs.push(r);
        true
    }

    /// Number of references in the directory.
    pub fn len(&self) -> (n: usize)
        ensures
            n == self@.len(),
    {
        self.refs.len()
    }

    /// The reference at position `i`.
    pub fn get(&self, i: usize) -> (r: &Reference)
        requires
            i < self@.len(),
        ensures
            *r == self@[i as int],
    {
        &self.refs[i]
    }

    /// Whether a head reference, of any scope, exists for the issue rooted
    /// at `id`.
    pub fn has_issue_head(&self, id: NodeId) -> (r: bool)
        ensures
            r == has_issue_head(self@, id),
    {
        let n = self.refs.len();
        let mut i: usize = 0;
        while i < n
            invariant
                i <= n,
                n == self@.len(),
                forall|j: int|
                    0 <= j < i ==> !((#[trigger] self@[j]).role == RefRole::Head && self@[j].issue
                        == id),
            decreases n - i,
        {
            if self.refs[i].role == RefRole::Head && self.refs[i].issue == id {
                return true;
            }
            i += 1;
        }
        false
    }

    /// Delete the reference named `name`.
    ///
    /// Removes exactly that reference and nothing else; a name that is not
    /// present yields a deletion error and leaves the directory untouched.
    pub fn delete(&mut self, name: u64) -> (r: Result<(), Error>)
        requires
            old(self).wf(),
        ensures
            final(self).wf(),
            match r {
                Ok(()) => exists|i: int|
                    0 <= i < old(self)@.len() && old(self)@[i].name == name && final(self)@
                        == old(self)@.remove(i),
                Err(e) => e == Error::DeletionError(name) && !has_name(old(self)@, name)
                    && final(self)@ == old(self)@,
            },
    {
        let n = self.refs.len();
        let mut i: usize = 0;
        while i < n
            invariant
                i <= n,
                n == self@.len(),
                self.wf(),
                *self == *old(self),
                forall|j: int| 0 <= j < i ==> self@[j].name != name,
            decreases n - i,
        {
            if self.refs[i].name == name {
                let ghost prev = self@;
                self.refs.remove(i);
                proof {
                    assert(self@ =~= prev.remove(i as int));
                    assert forall|a: int, b: int|
                        0 <= a < b < self@.len() implies (#[trigger] self@[a]).name != (
                    #[trigger] self@[b]).name by {
                        if a < i && b < i {
                        } else if a < i {
                            assert(self@[b] == prev[b + 1]);
                        } else {
                            assert(self@[a] == prev[a + 1] && self@[b] == prev[b + 1]);
                        }
                    }
                }
                return Ok(());
            }
            i += 1;
        }
        Err(Error::DeletionError(name))
    }
}

} // verus!
