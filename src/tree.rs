use vstd::prelude::*;

verus! {

broadcast use vstd::std_specs::vec::group_vec_axioms, vstd::seq::group_seq_axioms;

/// A node of a labeled tree: its own label and its children, in order.
pub struct Tree {
    pub value: String,
    pub children: Vec<Tree>,
}

/// Number of nodes in a sequence of sibling subtrees.
pub open spec fn forest_size(cs: Seq<Tree>) -> nat
    decreases cs,
{
    if cs.len() == 0 {
        0
    } else {
        1 + forest_size(cs[0].children@) + forest_size(cs.drop_first())
    }
}

/// Number of nodes in a tree, the root included.
pub open spec fn tree_size(t: Tree) -> nat {
    1 + forest_size(t.children@)
}

pub proof fn lemma_forest_size_concat(a: Seq<Tree>, b: Seq<Tree>)
    ensures
        forest_size(a + b) == forest_size(a) + forest_size(b),
    decreases a.len(),
{
    if a.len() == 0 {
        assert(a + b =~= b);
    } else {
        assert((a + b).drop_first() =~= a.drop_first() + b);
        assert((a + b)[0] == a[0]);
        lemma_forest_size_concat(a.drop_first(), b);
    }
}

/// Counting the subtrees one more at a time: the `i`-th adds its own nodes,
/// and no prefix holds more nodes than the whole sequence.
pub proof fn lemma_forest_size_prefix(cs: Seq<Tree>, i: int)
    requires
        0 <= i < cs.len(),
    ensures
        forest_size(cs.take(i + 1)) == forest_size(cs.take(i)) + tree_size(cs[i]),
        forest_size(cs.take(i + 1)) <= forest_size(cs),
{
    let single = seq![cs[i]];
    assert(cs.take(i + 1) =~= cs.take(i) + single);
    lemma_forest_size_concat(cs.take(i), single);
    assert(single.drop_first() =~= Seq::<Tree>::empty());
    assert(forest_size(single.drop_first()) == 0);
    assert(single[0] == cs[i]);
    assert(forest_size(single) == tree_size(cs[i]));
    assert(cs =~= cs.take(i + 1) + cs.skip(i + 1));
    lemma_forest_size_concat(cs.take(i + 1), cs.skip(i + 1));
}

impl Tree {
    /// A node with the given label and children.
    pub fn new(value: String, children: Vec<Tree>) -> (r: Tree)
        ensures
            r.value@ == value@,
            r.children@ == children@,
    {
        Tree { value, children }
    }

    /// The number of nodes in this tree, or `None` where it does not fit in `usize`.
    pub fn node_count(&self) -> (r: Option<usize>)
        ensures
            r == (if tree_size(*self) <= usize::MAX {
                Some(tree_size(*self) as usize)
            } else {
                None::<usize>
            }),
        decreases self,
    {
        let ghost cs = self.children@;
        let n = self.children.len();
        let mut total: usize = 1;
        let mut i: usize = 0;
        proof {
            assert(cs.take(0) =~= Seq::<Tree>::empty());
        }
        while i < n
            invariant
                n == cs.len(),
                cs == self.children@,
                0 <= i <= n,
                total == 1 + forest_size(cs.take(i as int)),
            decreases n - i,
        {
            proof {
                lemma_forest_size_prefix(cs, i as int);
            }
            match self.children[i].node_count() {
                None => {
                    return None;
                },
                Some(c) => {
                    if total > usize::MAX - c {
                        return None;
                    }
                    total = total + c;
                },
            }
            i += 1;
        }
        proof {
            assert(cs.take(n as int) =~= cs);
        }
        Some(total)
    }
}

} // verus!
