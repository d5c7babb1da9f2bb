use vstd::prelude::*;
use crate::text::{decimal, escape, push_decimal, push_escaped};
use crate::tree::{Tree, forest_size, tree_size, lemma_forest_size_prefix};

verus! {

broadcast use vstd::std_specs::vec::group_vec_axioms, vstd::seq::group_seq_axioms;

/// One statement of the document body.
pub enum Stmt {
    /// A node and its label.
    Label { id: nat, text: Seq<char> },
    /// An edge from a parent to a child.
    Edge { from: nat, to: nat },
}

/// The opening line of a document.
pub open spec fn header() -> Seq<char> {
    "digraph G {\n"@
}

/// The closing line of a document.
pub open spec fn footer() -> Seq<char> {
    "}\n"@
}

/// The text of one statement: a tab, the statement, a newline.
pub open spec fn render(st: Stmt) -> Seq<char> {
    match st {
        Stmt::Label { id, text } => "\t"@ + decimal(id) + " [label=\""@ + escape(text) + "\"]\n"@,
        Stmt::Edge { from, to } => "\t"@ + decimal(from) + " -> "@ + decimal(to) + "\n"@,
    }
}

/// The text of a sequence of statements, one after the other.
pub open spec fn render_all(sts: Seq<Stmt>) -> Seq<char>
    decreases sts.len(),
{
    if sts.len() == 0 {
        Seq::empty()
    } else {
        render_all(sts.drop_last()) + render(sts.last())
    }
}

/// The statements for the subtrees `cs` under the node `parent`, when the
/// last id handed out so far is `last`: each child takes the next id, gets
/// its edge and label, and then its own subtree is emitted before its next
/// sibling is reached.
pub open spec fn forest_stmts(cs: Seq<Tree>, parent: nat, last: nat) -> Seq<Stmt>
    decreases cs,
{
    if cs.len() == 0 {
        Seq::empty()
    } else {
        let id = last + 1;
        seq![Stmt::Edge { from: parent, to: id }, Stmt::Label { id, text: cs[0].value@ }]
            + forest_stmts(cs[0].children@, id, id)
            + forest_stmts(cs.drop_first(), parent, last + tree_size(cs[0]))
    }
}

/// The statements for the node `t` with id `id`, its children numbered
/// from `last + 1` on.
pub open spec fn node_stmts(t: Tree, id: nat, last: nat) -> Seq<Stmt> {
    seq![Stmt::Label { id, text: t.value@ }] + forest_stmts(t.children@, id, last)
}

/// The body of the document for the tree `t`, whose root has id 0.
pub open spec fn tree_stmts(t: Tree) -> Seq<Stmt> {
    node_stmts(t, 0, 0)
}

/// The whole document for the tree `t`.
pub open spec fn dot_text(t: Tree) -> Seq<char> {
    header() + render_all(tree_stmts(t)) + footer()
}

/// A single statement renders as itself.
proof fn lemma_render_one(st: Stmt)
    ensures
        render_all(seq![st]) == render(st),
{
    let one = seq![st];
    assert(one.drop_last() =~= Seq::<Stmt>::empty());
    assert(render_all(one.drop_last()) == Seq::<char>::empty());
    assert(one.last() == st);
    assert(render_all(one) =~= render(st));
}

pub proof fn lemma_render_all_concat(a: Seq<Stmt>, b: Seq<Stmt>)
    ensures
        render_all(a + b) == render_all(a) + render_all(b),
    decreases b.len(),
{
    if b.len() == 0 {
        assert(a + b =~= a);
        assert(render_all(a) + render_all(b) =~= render_all(a));
    } else {
        assert((a + b).drop_last() =~= a + b.drop_last());
        assert((a + b).last() == b.last());
        lemma_render_all_concat(a, b.drop_last());
        assert(render_all(a + b) =~= render_all(a) + render_all(b));
    }
}

pub proof fn lemma_forest_stmts_concat(a: Seq<Tree>, b: Seq<Tree>, parent: nat, last: nat)
    ensures
        forest_stmts(a + b, parent, last) == forest_stmts(a, parent, last) + forest_stmts(
            b,
            parent,
            last + forest_size(a),
        ),
    decreases a.len(),
{
    if a.len() == 0 {
        assert(a + b =~= b);
        assert(forest_stmts(a, parent, last) + forest_stmts(b, parent, last) =~= forest_stmts(
            b,
            parent,
            last,
        ));
    } else {
        assert((a + b).drop_first() =~= a.drop_first() + b);
        assert((a + b)[0] == a[0]);
        lemma_forest_stmts_concat(a.drop_first(), b, parent, last + tree_size(a[0]));
        assert(forest_stmts(a + b, parent, last) =~= forest_stmts(a, parent, last) + forest_stmts(
            b,
            parent,
            last + forest_size(a),
        ));
    }
}

/// The statements of the first `i + 1` subtrees are those of the first `i`,
/// then the edge into the next child and that child's whole block.
pub proof fn lemma_forest_stmts_step(cs: Seq<Tree>, parent: nat, last: nat, i: int)
    requires
        0 <= i < cs.len(),
    ensures
        forest_stmts(cs.take(i + 1), parent, last) == forest_stmts(cs.take(i), parent, last)
            + node_stmts_after_edge(cs[i], parent, last + forest_size(cs.take(i))),
{
    let single = seq![cs[i]];
    let k = last + forest_size(cs.take(i));
    assert(cs.take(i + 1) =~= cs.take(i) + single);
    lemma_forest_stmts_concat(cs.take(i), single, parent, last);
    assert(single.drop_first() =~= Seq::<Tree>::empty());
    assert(single[0] == cs[i]);
    assert(forest_stmts(single.drop_first(), parent, k + tree_size(cs[i])) == Seq::<Stmt>::empty());
    assert(forest_stmts(single, parent, k) =~= node_stmts_after_edge(cs[i], parent, k));
}

/// The edge into a child that takes id `last + 1`, then the child's own statements.
pub open spec fn node_stmts_after_edge(t: Tree, parent: nat, last: nat) -> Seq<Stmt> {
    seq![Stmt::Edge { from: parent, to: last + 1 }] + node_stmts(t, last + 1, last + 1)
}

impl Tree {
    /// Appends the statements for this node, with id `root_id`, and for its
    /// subtree; `child_id` holds the last id handed out and is advanced past
    /// every node of the subtree. Returns `root_id`.
    pub fn to_dot_impl(&self, dot: &mut String, root_id: usize, child_id: &mut usize) -> (r: usize)
        requires
            *old(child_id) + forest_size(self.children@) <= usize::MAX,
        ensures
            r == root_id,
            *final(child_id) == *old(child_id) + forest_size(self.children@),
            final(dot)@ == old(dot)@ + render_all(
                node_stmts(*self, root_id as nat, *old(child_id) as nat),
            ),
        decreases self,
    {
        let ghost start = dot@;
        let ghost last = *child_id as nat;
        let ghost cs = self.children@;
        let ghost label = seq![Stmt::Label { id: root_id as nat, text: self.value@ }];
        dot.append("\t");
        push_decimal(dot, root_id);
        dot.append(" [label=\"");
        push_escaped(dot, self.value.as_str());
        dot.append("\"]\n");
        proof {
            lemma_render_one(label[0]);
            assert(label =~= seq![label[0]]);
            assert(dot@ =~= start + render_all(label));
            assert(cs.take(0) =~= Seq::<Tree>::empty());
        }
        let n = self.children.len();
        let mut i: usize = 0;
        while i < n
            invariant
                n == cs.len(),
                cs == self.children@,
                0 <= i <= n,
                last + forest_size(cs) <= usize::MAX,
                *child_id == last + forest_size(cs.take(i as int)),
                dot@ == start + render_all(label) + render_all(
                    forest_stmts(cs.take(i as int), root_id as nat, last),
                ),
            decreases n - i,
        {
            let child = &self.children[i];
            proof {
                lemma_forest_size_prefix(cs, i as int);
            }
            let ghost before = dot@;
            let ghost k = *child_id as nat;
            *child_id += 1;
            dot.append("\t");
            push_decimal(dot, root_id);
            dot.append(" -> ");
            push_decimal(dot, *child_id);
            dot.append("\n");
            let ghost edge = seq![Stmt::Edge { from: root_id as nat, to: k + 1 }];
            proof {
                lemma_render_one(edge[0]);
                assert(edge =~= seq![edge[0]]);
                assert(dot@ =~= before + render_all(edge));
            }
            child.to_dot_impl(dot, *child_id, child_id);
            proof {
                lemma_forest_stmts_step(cs, root_id as nat, last, i as int);
                lemma_render_all_concat(edge, node_stmts(cs[i as int], k + 1, k + 1));
                lemma_render_all_concat(
                    forest_stmts(cs.take(i as int), root_id as nat, last),
                    node_stmts_after_edge(cs[i as int], root_id as nat, k),
                );
                assert(dot@ =~= start + render_all(label) + render_all(
                    forest_stmts(cs.take(i + 1), root_id as nat, last),
                ));
            }
            i += 1;
        }
        proof {
            assert(cs.take(n as int) =~= cs);
            lemma_render_all_concat(label, forest_stmts(cs, root_id as nat, last));
        }
        root_id
    }

    /// The whole document for this tree: a header line, the statements of
    /// every node in depth-first pre-order with the root numbered 0, and a
    /// closing line.
    pub fn to_dot(&self) -> (r: String)
        requires
            tree_size(*self) <= usize::MAX,
        ensures
            r@ == dot_text(*self),
    {
        let mut dot = String::new();
        dot.append("digraph G {\n");
        let mut next: usize = 0;
        self.to_dot_impl(&mut dot, 0, &mut next);
        dot.append("}\n");
        dot
    }
}

} // verus!
