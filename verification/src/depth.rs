//! The depth of a transaction: the smallest number of references that lead
//! from it to the root.

use crate::graph::Graph;
use crate::id::Id;
use crate::id::NonRootId;
use crate::ledger;
use crate::ledger::acyclic;
use crate::ledger::complete;
use crate::ledger::is_ranking;
use crate::ledger::is_transaction;
use crate::ledger::lemma_depth_of_root;
use crate::ledger::lemma_depth_of_transaction;
use crate::ledger::lemma_ranked_depth;
use crate::ledger::ranking;
use crate::ledger::refers;
use crate::ledger::Ledger;
use std::collections::HashMap;
use vstd::prelude::*;
use vstd::std_specs::hash::*;

verus! {

/// Whether every depth that `cache` holds is the depth of the transaction
/// that it is held for.
pub open spec fn cached(ledger: Ledger, cache: Map<usize, usize>) -> bool {
    forall|key: usize| #[trigger]
        cache.contains_key(key) ==> is_transaction(ledger, key as int) && cache[key]
            == ledger::depth(ledger, key as int)
}

impl Graph {
    /// The depth of the transaction `id`: one more than the smaller of the
    /// depths of the two vertices that it refers to, where the root has
    /// depth 0. Depths that were computed on the way are kept in `cache`, and
    /// those that `cache` holds are not computed again.
    pub fn depth(&self, id: NonRootId, cache: &mut HashMap<usize, usize>) -> (depth: usize)
        requires
            self.wf(),
            complete(self@),
            acyclic(self@),
            id@ <= self@.len() + 1,
            cached(self@, old(cache)@),
        ensures
            depth == ledger::depth(self@, id@),
            1 <= depth <= self@.len(),
            cached(self@, final(cache)@),
            final(cache)@.contains_key(id@ as usize),
            forall|key: usize| old(cache)@.contains_key(key) ==> final(cache)@.contains_key(key),
        decreases ranking(self@)[id@ - 2],
    {
        broadcast use group_hash_axioms;

        let key = id.value();
        proof {
            self.lemma_wf();
            use_type_invariant(id);
            assert(is_ranking(self@, ranking(self@)));
            lemma_ranked_depth(self@, ranking(self@), id@);
        }
        if let Some(known) = cache.get(&key) {
            return *known;
        }
        let transaction = self.index(id);
        let ghost left = transaction@.left;
        let ghost right = transaction@.right;
        proof {
            assert(refers(self@, id@, left) && refers(self@, id@, right));
            lemma_ranked_depth(self@, ranking(self@), left);
            lemma_ranked_depth(self@, ranking(self@), right);
            lemma_depth_of_transaction(self@, id@);
            lemma_depth_of_root(self@);
        }
        let left_depth = match transaction.left() {
            Id::Transaction(left) => {
                proof {
                    use_type_invariant(left);
                }
                self.depth(left, cache) + 1
            },
            Id::Root => 1,
        };
        let right_depth = match transaction.right() {
            Id::Transaction(right) => {
                proof {
                    use_type_invariant(right);
                }
                self.depth(right, cache) + 1
            },
            Id::Root => 1,
        };
        let depth = if left_depth <= right_depth {
            left_depth
        } else {
            right_depth
        };
        cache.insert(key, depth);
        depth
    }
}

} // verus!
