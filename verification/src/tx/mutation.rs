//! Buffered row mutations.
use vstd::prelude::*;

verus! {

/// A buffered change of one row: a new encoded value or a deletion.
#[derive(Debug)]
pub enum Mutation {
    Put(Vec<u8>),
    Delete,
}

/// The mathematical content of a mutation.
pub enum MutationView {
    Put(Seq<u8>),
    Delete,
}

impl View for Mutation {
    type V = MutationView;

    open spec fn view(&self) -> MutationView {
        match self {
            Mutation::Put(v) => MutationView::Put(v@),
            Mutation::Delete => MutationView::Delete,
        }
    }
}

impl Clone for Mutation {
    fn clone(&self) -> (r: Self)
        ensures
            r@ == self@,
    {
        match self {
            Mutation::Put(v) => {
                let c = v.clone();
                proof {
                    assert(c@ =~= v@);
                }
                Mutation::Put(c)
            },
            Mutation::Delete => Mutation::Delete,
        }
    }
}

} // verus!
