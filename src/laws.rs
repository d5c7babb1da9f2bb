use vstd::prelude::*;
use crate::dot::{Stmt, forest_stmts, node_stmts, render, tree_stmts};
use crate::text::{decimal, escape, lemma_escape_round_trip, read_quoted};
use crate::tree::{Tree, forest_size, tree_size, lemma_forest_size_concat};

verus! {

broadcast use vstd::std_specs::vec::group_vec_axioms, vstd::seq::group_seq_axioms;

/// The ids of the label statements, in the order they appear.
pub open spec fn label_ids(sts: Seq<Stmt>) -> Seq<nat>
    decreases sts.len(),
{
    if sts.len() == 0 {
        Seq::empty()
    } else {
        let before = label_ids(sts.drop_last());
        match sts.last() {
            Stmt::Label { id, .. } => before.push(id),
            Stmt::Edge { .. } => before,
        }
    }
}

/// The number of edge statements.
pub open spec fn edge_count(sts: Seq<Stmt>) -> nat
    decreases sts.len(),
{
    if sts.len() == 0 {
        0
    } else {
        edge_count(sts.drop_last()) + match sts.last() {
            Stmt::Label { .. } => 0nat,
            Stmt::Edge { .. } => 1nat,
        }
    }
}

/// `n` consecutive ids starting at `lo`.
pub open spec fn id_range(lo: nat, n: nat) -> Seq<nat> {
    Seq::new(n, |k: int| (lo + k) as nat)
}

/// Every edge statement leads from a smaller id to a larger one.
pub open spec fn edges_rise(sts: Seq<Stmt>) -> bool {
    forall|k: int|
        0 <= k < sts.len() ==> match #[trigger] sts[k] {
            Stmt::Edge { from, to } => from < to,
            Stmt::Label { .. } => true,
        }
}

/// The id that the `i`-th of the subtrees `cs` takes at its root, when the
/// last id handed out before them is `last`.
pub open spec fn child_id(cs: Seq<Tree>, last: nat, i: int) -> nat {
    last + 1 + forest_size(cs.take(i))
}

proof fn lemma_label_ids_concat(a: Seq<Stmt>, b: Seq<Stmt>)
    ensures
        label_ids(a + b) == label_ids(a) + label_ids(b),
        edge_count(a + b) == edge_count(a) + edge_count(b),
    decreases b.len(),
{
    if b.len() == 0 {
        assert(a + b =~= a);
        assert(label_ids(a) + label_ids(b) =~= label_ids(a));
    } else {
        assert((a + b).drop_last() =~= a + b.drop_last());
        assert((a + b).last() == b.last());
        lemma_label_ids_concat(a, b.drop_last());
        assert(label_ids(a + b) =~= label_ids(a) + label_ids(b));
    }
}

/// Label ids and edge count of one statement, and of two in a row.
proof fn lemma_pair_counts(x: Stmt, y: Stmt)
    ensures
        label_ids(seq![x, y]) == label_ids(seq![x]) + label_ids(seq![y]),
        edge_count(seq![x, y]) == edge_count(seq![x]) + edge_count(seq![y]),
        label_ids(seq![x]) == (match x {
            Stmt::Label { id, .. } => seq![id],
            Stmt::Edge { .. } => Seq::<nat>::empty(),
        }),
        edge_count(seq![x]) == (match x {
            Stmt::Label { .. } => 0nat,
            Stmt::Edge { .. } => 1nat,
        }),
{
    assert(seq![x, y] =~= seq![x] + seq![y]);
    lemma_label_ids_concat(seq![x], seq![y]);
    assert(seq![x].drop_last() =~= Seq::<Stmt>::empty());
    assert(label_ids(Seq::<Stmt>::empty()) == Seq::<nat>::empty());
    assert(edge_count(Seq::<Stmt>::empty()) == 0);
    assert(label_ids(seq![x]) =~= (match x {
        Stmt::Label { id, .. } => seq![id],
        Stmt::Edge { .. } => Seq::<nat>::empty(),
    }));
}

/// The subtrees `cs`, emitted after id `last`, label exactly the ids
/// `last + 1 ..= last + forest_size(cs)` in increasing order, carry one edge
/// per node, and every edge rises when the parent's id is at most `last`.
pub proof fn lemma_forest_ids(cs: Seq<Tree>, parent: nat, last: nat)
    ensures
        label_ids(forest_stmts(cs, parent, last)) == id_range(last + 1, forest_size(cs)),
        edge_count(forest_stmts(cs, parent, last)) == forest_size(cs),
        parent <= last ==> edges_rise(forest_stmts(cs, parent, last)),
    decreases cs,
{
    let sts = forest_stmts(cs, parent, last);
    if cs.len() == 0 {
        assert(label_ids(sts) =~= id_range(last + 1, 0));
    } else {
        let id = last + 1;
        let head = seq![Stmt::Edge { from: parent, to: id }, Stmt::Label { id, text: cs[0].value@ }];
        let inner = forest_stmts(cs[0].children@, id, id);
        let rest = forest_stmts(cs.drop_first(), parent, last + tree_size(cs[0]));
        lemma_forest_ids(cs[0].children@, id, id);
        lemma_forest_ids(cs.drop_first(), parent, last + tree_size(cs[0]));
        lemma_pair_counts(head[0], head[1]);
        lemma_pair_counts(head[1], head[0]);
        assert(head =~= seq![head[0], head[1]]);
        lemma_label_ids_concat(head, inner);
        lemma_label_ids_concat(head + inner, rest);
        assert(sts == head + inner + rest);
        assert(label_ids(sts) =~= id_range(last + 1, forest_size(cs)));
        if parent <= last {
            assert forall|k: int| 0 <= k < sts.len() implies match #[trigger] sts[k] {
                Stmt::Edge { from, to } => from < to,
                Stmt::Label { .. } => true,
            } by {
                if k >= head.len() + inner.len() {
                    assert(sts[k] == rest[k - head.len() - inner.len()]);
                } else if k >= head.len() {
                    assert(sts[k] == inner[k - head.len()]);
                }
            }
        }
    }
}

/// The statements of a node with id `id` label `id` first and then, in
/// increasing order, one id after another for the rest of its subtree.
pub proof fn lemma_node_ids(t: Tree, id: nat)
    ensures
        label_ids(node_stmts(t, id, id)) == id_range(id, tree_size(t)),
        edge_count(node_stmts(t, id, id)) == tree_size(t) - 1,
        edges_rise(node_stmts(t, id, id)),
{
    let first = Stmt::Label { id, text: t.value@ };
    let rest = forest_stmts(t.children@, id, id);
    lemma_forest_ids(t.children@, id, id);
    lemma_pair_counts(first, first);
    lemma_label_ids_concat(seq![first], rest);
    assert(label_ids(node_stmts(t, id, id)) =~= id_range(id, tree_size(t)));
    let sts = node_stmts(t, id, id);
    assert forall|k: int| 0 <= k < sts.len() implies match #[trigger] sts[k] {
        Stmt::Edge { from, to } => from < to,
        Stmt::Label { .. } => true,
    } by {
        if k >= 1 {
            assert(sts[k] == rest[k - 1]);
        }
    }
}

/// A tree of `n` nodes gets the ids `0 .. n`, each on exactly one label
/// statement, in increasing order.
pub proof fn lemma_ids_unique(t: Tree)
    ensures
        label_ids(tree_stmts(t)) == id_range(0, tree_size(t)),
        label_ids(tree_stmts(t)).len() == tree_size(t),
        forall|a: int, b: int|
            0 <= a < b < tree_size(t) ==> label_ids(tree_stmts(t))[a] < label_ids(
                tree_stmts(t),
            )[b],
{
    lemma_node_ids(t, 0);
}

/// A tree of `n` nodes has `n - 1` edge statements.
pub proof fn lemma_edge_count(t: Tree)
    ensures
        edge_count(tree_stmts(t)) == tree_size(t) - 1,
{
    lemma_node_ids(t, 0);
}

/// Ids grow from a node down to its descendants: every edge leads to a
/// larger id, and every node emitted within the subtree of the node with id
/// `id` has a larger id than `id`.
pub proof fn lemma_descendants_larger(t: Tree, id: nat)
    ensures
        edges_rise(node_stmts(t, id, id)),
        label_ids(node_stmts(t, id, id))[0] == id,
        forall|k: int|
            1 <= k < label_ids(node_stmts(t, id, id)).len() ==> label_ids(
                node_stmts(t, id, id),
            )[k] > id,
{
    lemma_node_ids(t, id);
}

/// Of two siblings, every id within the subtree of the earlier one is
/// smaller than every id within the subtree of the later one.
pub proof fn lemma_sibling_order(cs: Seq<Tree>, last: nat, i: int, j: int)
    requires
        0 <= i < j < cs.len(),
    ensures
        forall|x: int, y: int|
            0 <= x < label_ids(node_stmts(cs[i], child_id(cs, last, i), child_id(cs, last, i))).len()
                && 0 <= y < label_ids(
                node_stmts(cs[j], child_id(cs, last, j), child_id(cs, last, j)),
            ).len() ==> label_ids(
                node_stmts(cs[i], child_id(cs, last, i), child_id(cs, last, i)),
            )[x] < label_ids(node_stmts(cs[j], child_id(cs, last, j), child_id(cs, last, j)))[y],
{
    let a = child_id(cs, last, i);
    let b = child_id(cs, last, j);
    lemma_node_ids(cs[i], a);
    lemma_node_ids(cs[j], b);
    let pre = cs.take(i);
    let mid = cs.subrange(i, j);
    assert(cs.take(j) =~= pre + mid);
    lemma_forest_size_concat(pre, mid);
    assert(mid =~= seq![cs[i]] + mid.drop_first());
    lemma_forest_size_concat(seq![cs[i]], mid.drop_first());
    assert(seq![cs[i]][0] == cs[i]);
    assert(seq![cs[i]].drop_first() =~= Seq::<Tree>::empty());
    assert(forest_size(Seq::<Tree>::empty()) == 0);
    assert(b >= a + tree_size(cs[i]));
}

/// A label statement can be read back: after its opening `[label="`, the
/// quoted text unescapes to the label itself, and `]` and the newline follow.
pub proof fn lemma_label_round_trip(id: nat, text: Seq<char>)
    ensures
        ({
            let line = render(Stmt::Label { id, text });
            let opening = "\t"@ + decimal(id) + " [label=\""@;
            &&& line.take(opening.len() as int) == opening
            &&& read_quoted(line.skip(opening.len() as int)) == Some((text, "]\n"@))
        }),
{
    let line = render(Stmt::Label { id, text });
    let opening = "\t"@ + decimal(id) + " [label=\""@;
    reveal_strlit("\"]\n");
    reveal_strlit("]\n");
    assert("\"]\n"@ =~= seq!['"'] + "]\n"@);
    assert(line =~= opening + (escape(text) + seq!['"'] + "]\n"@));
    assert(line.take(opening.len() as int) =~= opening);
    assert(line.skip(opening.len() as int) =~= escape(text) + seq!['"'] + "]\n"@);
    lemma_escape_round_trip(text, "]\n"@);
}

} // verus!
