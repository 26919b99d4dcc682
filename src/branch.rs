//! The branch pointers and the active branch.
use vstd::prelude::*;
use vstd::pervasive::VecAdditionalExecFns;
use crate::error::VitError;

verus! {

/// A named branch and the hash of its tip commit.
#[derive(Debug)]
pub struct Branch {
    pub name: String,
    pub tip: [u8; 32],
}

/// The branches of a repository, and the one HEAD points at.
#[derive(Debug)]
pub struct Refs {
    pub head: String,
    pub branches: Vec<Branch>,
}

/// The first position of a branch named `name`.
pub open spec fn branch_index(bs: Seq<Branch>, name: Seq<char>) -> Option<int> {
    if exists|i: int| 0 <= i < bs.len() && bs[i].name@ == name {
        Some(
            choose|i: int|
                0 <= i < bs.len() && bs[i].name@ == name && forall|j: int|
                    0 <= j < i ==> bs[j].name@ != name,
        )
    } else {
        None
    }
}

impl Refs {
    /// No two branches share a name.
    pub open spec fn wf(&self) -> bool {
        forall|i: int, j: int|
            0 <= i < j < self.branches@.len() ==> self.branches@[i].name@ != self.branches@[j].name@
    }

    /// The position of the branch named `name`.
    pub fn position(&self, name: &String) -> (r: Option<usize>)
        ensures
            r matches Some(i) ==> i < self.branches@.len() && branch_index(self.branches@, name@)
                == Some(i as int),
            r is None ==> branch_index(self.branches@, name@) is None,
    {
        let mut i: usize = 0;
        while i < self.branches.len()
            invariant
                0 <= i <= self.branches@.len(),
                forall|j: int| 0 <= j < i ==> self.branches@[j].name@ != name@,
            decreases self.branches@.len() - i,
        {
            if self.branches[i].name == *name {
                proof {
                    let c = choose|c: int|
                        0 <= c < self.branches@.len() && self.branches@[c].name@ == name@
                            && forall|j: int| 0 <= j < c ==> self.branches@[j].name@ != name@;
                    if c > i {
                        assert(self.branches@[i as int].name@ != name@);
                    }
                }
                return Some(i);
            }
            i = i + 1;
        }
        None
    }

    /// The tip of the active branch; `NotFound` where it has no commit yet.
    pub fn head_tip(&self) -> (r: Result<[u8; 32], VitError>)
        ensures
            r is Ok <==> branch_index(self.branches@, self.head@) is Some,
            r matches Ok(t) ==> t == self.branches@[branch_index(
                self.branches@,
                self.head@,
            )->Some_0].tip,
            r matches Err(e) ==> e == VitError::NotFound,
    {
        match self.position(&self.head) {
            Some(i) => Ok(self.branches[i].tip),
            None => Err(VitError::NotFound),
        }
    }

    /// Creates a branch at the active branch's tip. `AlreadyExists` where a branch of
    /// that name exists; `NotFound` where the active branch has no commit yet.
    pub fn create_branch(&mut self, name: String) -> (r: Result<(), VitError>)
        requires
            old(self).wf(),
        ensures
            final(self).wf(),
            branch_index(old(self).branches@, name@) is Some ==> r == Err::<(), VitError>(
                VitError::AlreadyExists,
            ) && *final(self) == *old(self),
            branch_index(old(self).branches@, name@) is None && branch_index(
                old(self).branches@,
                old(self).head@,
            ) is None ==> r == Err::<(), VitError>(VitError::NotFound) && *final(self) == *old(self),
            r is Ok <==> branch_index(old(self).branches@, name@) is None && branch_index(
                old(self).branches@,
                old(self).head@,
            ) is Some,
            r is Ok ==> final(self).head == old(self).head && final(self).branches@.len() == old(self).branches@.len() + 1 && final(self).branches@.last().name@ == name@ && final(self).branches@.last().tip == old(self).branches@[branch_index(
                old(self).branches@,
                old(self).head@,
            )->Some_0].tip && final(self).branches@.drop_last() == old(self).branches@,
    {
        if self.position(&name).is_some() {
            return Err(VitError::AlreadyExists);
        }
        let tip = self.head_tip()?;
        let ghost before = self.branches@;
        self.branches.push(Branch { name, tip });
        proof {
            assert(self.branches@.drop_last() =~= before);
            assert forall|i: int, j: int|
                0 <= i < j < self.branches@.len() implies self.branches@[i].name@
                != self.branches@[j].name@ by {
                if j == before.len() {
                    assert(self.branches@[i] == before[i]);
                }
            }
        }
        Ok(())
    }

    /// Deletes a branch. `NotFound` where no branch has that name; `AlreadyActive`
    /// where it is the active branch.
    pub fn delete_branch(&mut self, name: &String) -> (r: Result<(), VitError>)
        requires
            old(self).wf(),
        ensures
            final(self).wf(),
            branch_index(old(self).branches@, name@) is None ==> r == Err::<(), VitError>(
                VitError::NotFound,
            ),
            branch_index(old(self).branches@, name@) is Some && name@ == old(self).head@ ==> r
                == Err::<(), VitError>(VitError::AlreadyActive),
            r is Err ==> *final(self) == *old(self),
            r is Ok <==> branch_index(old(self).branches@, name@) is Some && name@ != old(self).head@,
            r is Ok ==> final(self).head == old(self).head && final(self).branches@ == old(self).branches@.remove(branch_index(old(self).branches@, name@)->Some_0),
    {
        let i = match self.position(name) {
            Some(i) => i,
            None => {
                return Err(VitError::NotFound);
            },
        };
        if *name == self.head {
            return Err(VitError::AlreadyActive);
        }
        let ghost before = self.branches@;
        self.branches.remove(i);
        proof {
            assert forall|a: int, b: int|
                0 <= a < b < self.branches@.len() implies self.branches@[a].name@
                != self.branches@[b].name@ by {
                let a0 = if a < i { a } else { a + 1 };
                let b0 = if b < i { b } else { b + 1 };
                assert(self.branches@[a] == before[a0]);
                assert(self.branches@[b] == before[b0]);
            }
        }
        Ok(())
    }

    /// The tips of the active branch and of `name`, for a switch to `name`.
    /// `AlreadyActive` where `name` is the active branch; `NotFound` where either
    /// branch has no tip.
    pub fn switch_tips(&self, name: &String) -> (r: Result<([u8; 32], [u8; 32]), VitError>)
        ensures
            name@ == self.head@ ==> r == Err::<([u8; 32], [u8; 32]), VitError>(
                VitError::AlreadyActive,
            ),
            r is Ok <==> name@ != self.head@ && branch_index(self.branches@, name@) is Some
                && branch_index(self.branches@, self.head@) is Some,
            r matches Ok((cur, tgt)) ==> cur == self.branches@[branch_index(
                self.branches@,
                self.head@,
            )->Some_0].tip && tgt == self.branches@[branch_index(self.branches@, name@)->Some_0].tip,
            r matches Err(e) ==> e == VitError::AlreadyActive || e == VitError::NotFound,
            name@ != self.head@ ==> (r matches Err(e) ==> e == VitError::NotFound),
    {
        if *name == self.head {
            return Err(VitError::AlreadyActive);
        }
        let j = match self.position(name) {
            Some(j) => j,
            None => {
                return Err(VitError::NotFound);
            },
        };
        let cur = self.head_tip()?;
        Ok((cur, self.branches[j].tip))
    }

    /// Each branch name, with whether it is the active branch.
    pub fn list(&self) -> (r: Vec<(String, bool)>)
        ensures
            r@.len() == self.branches@.len(),
            forall|i: int|
                0 <= i < r@.len() ==> (#[trigger] r@[i]).0@ == self.branches@[i].name@ && r@[i].1
                    == (self.branches@[i].name@ == self.head@),
    {
        let mut out: Vec<(String, bool)> = Vec::new();
        let mut i: usize = 0;
        while i < self.branches.len()
            invariant
                0 <= i <= self.branches@.len(),
                out@.len() == i,
                forall|k: int|
                    0 <= k < i ==> (#[trigger] out@[k]).0@ == self.branches@[k].name@ && out@[k].1
                        == (self.branches@[k].name@ == self.head@),
            decreases self.branches@.len() - i,
        {
            let active = self.branches[i].name == self.head;
            out.push((self.branches[i].name.clone(), active));
            i = i + 1;
        }
        out
    }
}

impl Refs {
    /// Points the active branch at `tip`, creating its pointer where it has none.
    pub fn set_head_tip(&mut self, tip: [u8; 32])
        requires
            old(self).wf(),
        ensures
            final(self).wf(),
            final(self).head == old(self).head,
            branch_index(final(self).branches@, final(self).head@) is Some,
            final(self).branches@[branch_index(final(self).branches@, final(self).head@)->Some_0].tip == tip,
            branch_index(old(self).branches@, old(self).head@) matches Some(i) ==> final(self).branches@ == old(self).branches@.update(i, Branch { tip, ..old(self).branches@[i] }),
            branch_index(old(self).branches@, old(self).head@) is None ==> final(self).branches@.drop_last() == old(self).branches@,
    {
        let ghost before = self.branches@;
        match self.position(&self.head) {
            Some(i) => {
                let b = Branch { name: self.branches[i].name.clone(), tip };
                self.branches.set(i, b);
                proof {
                    assert forall|a: int, c: int| 0 <= a < c < self.branches@.len() implies self.branches@[a].name@ != self.branches@[c].name@ by {
                        assert(before[a].name@ != before[c].name@);
                    }
                    assert(self.branches@[i as int].name@ == self.head@);
                    let k = branch_index(self.branches@, self.head@)->Some_0;
                    assert(0 <= i < self.branches@.len() && self.branches@[i as int].name@ == self.head@);
                    let c = choose|c: int| 0 <= c < self.branches@.len() && self.branches@[c].name@ == self.head@ && forall|j: int| 0 <= j < c ==> self.branches@[j].name@ != self.head@;
                    if c != i {
                        if c < i {
                            assert(self.branches@[c].name@ != self.branches@[i as int].name@);
                        } else {
                            assert(self.branches@[i as int].name@ != self.branches@[c].name@);
                        }
                    }
                }
            },
            None => {
                let b = Branch { name: self.head.clone(), tip };
                self.branches.push(b);
                proof {
                    assert(self.branches@.drop_last() =~= before);
                    assert forall|a: int, c: int| 0 <= a < c < self.branches@.len() implies self.branches@[a].name@ != self.branches@[c].name@ by {
                        if c == before.len() {
                            assert(self.branches@[a] == before[a]);
                        }
                    }
                    let n = before.len() as int;
                    assert(self.branches@[n].name@ == self.head@);
                    let c = choose|c: int| 0 <= c < self.branches@.len() && self.branches@[c].name@ == self.head@ && forall|j: int| 0 <= j < c ==> self.branches@[j].name@ != self.head@;
                    if c < n {
                        assert(before[c].name@ == self.head@);
                    }
                }
            },
        }
    }
}

} // verus!
