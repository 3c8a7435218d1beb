use vstd::prelude::*;
use std::collections::HashSet;
use std::rc::Rc;

verus! {

broadcast use vstd::std_specs::hash::group_hash_axioms;

/// One step of a path: an identifier and the path that led to it.
pub struct Node {
    pub parent: Option<Rc<Node>>,
    pub id: u64,
}

proof fn lemma_singleton_set(x: u64)
    ensures
        seq![x].to_set() == set![x],
{
    assert(seq![x][0] == x);
    assert(seq![x].to_set() =~= set![x]);
}

impl Node {
    /// The identifiers of the path, from its root to this node.
    pub open spec fn path(&self) -> Seq<u64>
        decreases self,
    {
        match self.parent {
            None => seq![self.id],
            Some(p) => p.path().push(self.id),
        }
    }

    /// The identifiers met from this node back to the root of its path.
    pub fn get_lineage(&self) -> (lineage: HashSet<u64>)
        ensures
            lineage@ == self.path().to_set(),
    {
        let mut lineage: HashSet<u64> = HashSet::new();
        let mut current: &Node = self;
        while current.parent.is_some()
            invariant
                lineage@.union(current.path().to_set()) == self.path().to_set(),
            decreases current.path().len(),
        {
            lineage.insert(current.id);
            let ghost before = *current;
            match &current.parent {
                Some(p) => {
                    current = p;
                },
                None => {},
            }
            proof {
                let p = before.parent.unwrap();
                assert(before.path() == p.path().push(before.id));
                vstd::seq_lib::seq_to_set_distributes_over_add(p.path(), seq![before.id]);
                assert(p.path().push(before.id) =~= p.path() + seq![before.id]);
                lemma_singleton_set(before.id);
            }
        }
        lineage.insert(current.id);
        proof {
            assert(current.path() == seq![current.id]);
            lemma_singleton_set(current.id);
        }
        lineage
    }
}

} // verus!
