use dot_tree::text::{push_decimal, push_escaped};
use dot_tree::Tree;

fn leaf(label: &str) -> Tree {
    Tree::new(label.to_string(), vec![])
}

fn node(label: &str, children: Vec<Tree>) -> Tree {
    Tree::new(label.to_string(), children)
}

fn worked_example() -> Tree {
    node(
        "+",
        vec![
            node("1", vec![node("5", vec![leaf("x"), leaf("y")])]),
            leaf("2"),
            leaf("3"),
        ],
    )
}

fn label_ids(doc: &str) -> Vec<usize> {
    doc.lines()
        .filter(|l| l.contains(" [label=\""))
        .map(|l| l.trim_start_matches('\t').split(' ').next().unwrap().parse().unwrap())
        .collect()
}

fn edges(doc: &str) -> Vec<(usize, usize)> {
    doc.lines()
        .filter(|l| l.contains(" -> "))
        .map(|l| {
            let mut parts = l.trim_start_matches('\t').split(" -> ");
            let a = parts.next().unwrap().parse().unwrap();
            let b = parts.next().unwrap().parse().unwrap();
            (a, b)
        })
        .collect()
}

#[test]
fn single_node_document() {
    let t = leaf("+");
    assert_eq!(t.to_dot(), "digraph G {\n\t0 [label=\"+\"]\n}\n");
}

#[test]
fn worked_example_document() {
    let expected = "digraph G {\n\
        \t0 [label=\"+\"]\n\
        \t0 -> 1\n\
        \t1 [label=\"1\"]\n\
        \t1 -> 2\n\
        \t2 [label=\"5\"]\n\
        \t2 -> 3\n\
        \t3 [label=\"x\"]\n\
        \t2 -> 4\n\
        \t4 [label=\"y\"]\n\
        \t0 -> 5\n\
        \t5 [label=\"2\"]\n\
        \t0 -> 6\n\
        \t6 [label=\"3\"]\n\
        }\n";
    assert_eq!(worked_example().to_dot(), expected);
}

#[test]
fn worked_example_edges_in_order() {
    let doc = worked_example().to_dot();
    assert_eq!(edges(&doc), vec![(0, 1), (1, 2), (2, 3), (2, 4), (0, 5), (0, 6)]);
}

#[test]
fn ids_are_zero_to_n_once_each() {
    let t = worked_example();
    let doc = t.to_dot();
    assert_eq!(t.node_count(), Some(7));
    assert_eq!(label_ids(&doc), (0..7).collect::<Vec<usize>>());
}

#[test]
fn edge_count_is_one_less_than_node_count() {
    let doc = worked_example().to_dot();
    assert_eq!(edges(&doc).len(), 6);
    assert_eq!(leaf("a").to_dot().matches(" -> ").count(), 0);
}

#[test]
fn descendants_have_larger_ids() {
    let doc = worked_example().to_dot();
    for (from, to) in edges(&doc) {
        assert!(from < to);
    }
}

#[test]
fn earlier_sibling_subtree_has_smaller_ids() {
    let t = node(
        "r",
        vec![node("a", vec![leaf("a1"), leaf("a2")]), node("b", vec![leaf("b1")])],
    );
    let doc = t.to_dot();
    assert_eq!(edges(&doc), vec![(0, 1), (1, 2), (1, 3), (0, 4), (4, 5)]);
    assert!(doc.contains("\t2 [label=\"a1\"]\n"));
    assert!(doc.contains("\t3 [label=\"a2\"]\n"));
    assert!(doc.contains("\t5 [label=\"b1\"]\n"));
}

#[test]
fn quotes_backslashes_and_newlines_are_escaped() {
    let t = leaf("say \"hi\" \\ bye\nnow");
    assert_eq!(
        t.to_dot(),
        "digraph G {\n\t0 [label=\"say \\\"hi\\\" \\\\ bye\\nnow\"]\n}\n"
    );
}

#[test]
fn escaped_label_reads_back() {
    let original = "a\"b\\c\nd";
    let mut out = String::new();
    push_escaped(&mut out, original);
    let mut back = String::new();
    let mut chars = out.chars();
    while let Some(c) = chars.next() {
        if c == '\\' {
            match chars.next().unwrap() {
                'n' => back.push('\n'),
                other => back.push(other),
            }
        } else {
            assert_ne!(c, '"');
            back.push(c);
        }
    }
    assert_eq!(back, original);
}

#[test]
fn empty_label() {
    assert_eq!(leaf("").to_dot(), "digraph G {\n\t0 [label=\"\"]\n}\n");
}

#[test]
fn unicode_label_kept() {
    assert_eq!(leaf("λ→ü").to_dot(), "digraph G {\n\t0 [label=\"λ→ü\"]\n}\n");
}

#[test]
fn ids_of_two_digits() {
    let children: Vec<Tree> = (0..12).map(|k| leaf(&format!("c{}", k))).collect();
    let doc = node("r", children).to_dot();
    assert!(doc.contains("\t0 -> 11\n\t11 [label=\"c10\"]\n\t0 -> 12\n\t12 [label=\"c11\"]\n}\n"));
}

#[test]
fn decimal_rendering() {
    let mut s = String::from("x");
    push_decimal(&mut s, 0);
    assert_eq!(s, "x0");
    let mut s = String::new();
    push_decimal(&mut s, 1234);
    assert_eq!(s, "1234");
    let mut s = String::new();
    push_decimal(&mut s, 10);
    assert_eq!(s, "10");
    let mut s = String::new();
    push_decimal(&mut s, usize::MAX);
    assert_eq!(s, usize::MAX.to_string());
}

#[test]
fn emit_from_a_given_counter() {
    let t = node("p", vec![leaf("a"), node("b", vec![leaf("c")])]);
    let mut dot = String::from(">");
    let mut counter: usize = 9;
    let r = t.to_dot_impl(&mut dot, 4, &mut counter);
    assert_eq!(r, 4);
    assert_eq!(counter, 12);
    assert_eq!(
        dot,
        ">\t4 [label=\"p\"]\n\t4 -> 10\n\t10 [label=\"a\"]\n\t4 -> 11\n\t11 [label=\"b\"]\n\t11 -> 12\n\t12 [label=\"c\"]\n"
    );
}

#[test]
fn node_count_of_leaf_and_deep_chain() {
    assert_eq!(leaf("a").node_count(), Some(1));
    let mut t = leaf("bottom");
    for k in 0..50 {
        t = node(&k.to_string(), vec![t]);
    }
    assert_eq!(t.node_count(), Some(51));
    let doc = t.to_dot();
    assert_eq!(edges(&doc).len(), 50);
    assert!(doc.ends_with("\t49 -> 50\n\t50 [label=\"bottom\"]\n}\n"));
}
