use vstd::prelude::*;

verus! {

/// A course and the codes of the courses it requires.
#[derive(Debug)]
pub struct Node {
    pub code: String,
    pub prereqs: Vec<String>,
}

impl Node {
    /// A course with no prerequisites.
    pub fn new(code: &str) -> (r: Node)
        ensures
            r.code@ == code@,
            r.prereqs@.len() == 0,
    {
        Node { code: code.to_owned(), prereqs: Vec::new() }
    }

    /// Adds `prereq` to the prerequisites unless a prerequisite with that code is
    /// already there.
    pub fn add_prereq(&mut self, prereq: &str)
        ensures
            final(self).code == old(self).code,
            (exists|i: int| 0 <= i < old(self).prereqs@.len() && old(self).prereqs@[i]@ == prereq@)
                ==> final(self).prereqs@ == old(self).prereqs@,
            !(exists|i: int| 0 <= i < old(self).prereqs@.len() && old(self).prereqs@[i]@ == prereq@)
                ==> final(self).prereqs@.len() == old(self).prereqs@.len() + 1
                && final(self).prereqs@.subrange(0, old(self).prereqs@.len() as int) == old(self).prereqs@
                && final(self).prereqs@.last()@ == prereq@,
    {
        let p = prereq.to_owned();
        let mut i: usize = 0;
        while i < self.prereqs.len()
            invariant
                i <= self.prereqs@.len(),
                self == old(self),
                p@ == prereq@,
                forall|j: int| 0 <= j < i ==> self.prereqs@[j]@ != prereq@,
            decreases self.prereqs@.len() - i,
        {
            if self.prereqs[i] == p {
                return;
            }
            i = i + 1;
        }
        self.prereqs.push(p);
        proof {
            assert(self.prereqs@.subrange(0, old(self).prereqs@.len() as int) =~= old(self).prereqs@);
        }
    }
}

} // verus!
