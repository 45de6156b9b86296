use arena_tree::arena::Arena;
use arena_tree::model::Node;
use arena_tree::traverse::NodeEdge;
use arena_tree::wire::{WireError, WireNode, WireTree};

/// An arena holding the given labels, one node each, with no links.
fn nodes(labels: &[&'static str]) -> (Arena<&'static str>, Vec<Node>) {
    let mut arena = Arena::new();
    let mut ns = Vec::new();
    for l in labels {
        ns.push(Node::new(&mut arena, *l));
    }
    (arena, ns)
}

fn labels_of(arena: &Arena<&'static str>, ns: Vec<Node>) -> Vec<&'static str> {
    ns.into_iter().map(|n| *n.data(arena)).collect()
}

fn children_of(arena: &Arena<&'static str>, n: Node) -> Vec<&'static str> {
    let mut out = Vec::new();
    let mut it = n.children(arena);
    while let Some(c) = it.next() {
        out.push(c);
    }
    labels_of(arena, out)
}

/// a [b [d], c]
fn small_tree() -> (Arena<&'static str>, Vec<Node>) {
    let (mut arena, ns) = nodes(&["a", "b", "c", "d"]);
    ns[0].append(&mut arena, ns[1]);
    ns[0].append(&mut arena, ns[2]);
    ns[1].append(&mut arena, ns[3]);
    (arena, ns)
}

#[test]
fn new_node_has_no_relatives() {
    let (arena, ns) = nodes(&["x"]);
    let x = ns[0];
    assert_eq!(arena.len(), 1);
    assert_eq!(x.parent(&arena), None);
    assert_eq!(x.first_child(&arena), None);
    assert_eq!(x.last_child(&arena), None);
    assert_eq!(x.previous_sibling(&arena), None);
    assert_eq!(x.next_sibling(&arena), None);
    assert_eq!(*x.data(&arena), "x");
}

#[test]
fn append_puts_child_last() {
    let (arena, ns) = small_tree();
    assert_eq!(children_of(&arena, ns[0]), ["b", "c"]);
    assert_eq!(ns[0].first_child(&arena), Some(ns[1]));
    assert_eq!(ns[0].last_child(&arena), Some(ns[2]));
    assert_eq!(ns[1].next_sibling(&arena), Some(ns[2]));
    assert_eq!(ns[2].previous_sibling(&arena), Some(ns[1]));
    assert_eq!(ns[3].parent(&arena), Some(ns[1]));
}

#[test]
fn append_of_existing_child_moves_it_last() {
    let (mut arena, ns) = small_tree();
    ns[0].append(&mut arena, ns[1]);
    assert_eq!(children_of(&arena, ns[0]), ["c", "b"]);
    // its own children stay with it
    assert_eq!(children_of(&arena, ns[1]), ["d"]);
}

#[test]
fn prepend_puts_child_first() {
    let (mut arena, ns) = small_tree();
    ns[0].prepend(&mut arena, ns[3]);
    assert_eq!(children_of(&arena, ns[0]), ["d", "b", "c"]);
    assert_eq!(children_of(&arena, ns[1]), Vec::<&str>::new());
    assert_eq!(ns[1].first_child(&arena), None);
    assert_eq!(ns[1].last_child(&arena), None);
}

#[test]
fn insert_after_and_before() {
    let (mut arena, ns) = nodes(&["p", "a", "x", "y"]);
    ns[0].append(&mut arena, ns[1]);
    ns[1].insert_after(&mut arena, ns[2]);
    ns[1].insert_before(&mut arena, ns[3]);
    assert_eq!(children_of(&arena, ns[0]), ["y", "a", "x"]);
    assert_eq!(ns[2].parent(&arena), Some(ns[0]));
    assert_eq!(ns[0].last_child(&arena), Some(ns[2]));
    assert_eq!(ns[0].first_child(&arena), Some(ns[3]));
}

#[test]
fn insert_after_a_root_links_roots() {
    let (mut arena, ns) = nodes(&["r", "s"]);
    ns[0].insert_after(&mut arena, ns[1]);
    assert_eq!(ns[0].next_sibling(&arena), Some(ns[1]));
    assert_eq!(ns[1].previous_sibling(&arena), Some(ns[0]));
    assert_eq!(ns[1].parent(&arena), None);
    ns[1].detach(&mut arena);
    assert_eq!(ns[0].next_sibling(&arena), None);
    assert_eq!(ns[1].previous_sibling(&arena), None);
}

#[test]
fn detach_keeps_children_and_joins_neighbours() {
    let (mut arena, ns) = nodes(&["p", "a", "b", "c", "k"]);
    ns[0].extend(&mut arena, vec![ns[1], ns[2], ns[3]]);
    ns[2].append(&mut arena, ns[4]);
    ns[2].detach(&mut arena);
    assert_eq!(children_of(&arena, ns[0]), ["a", "c"]);
    assert_eq!(ns[1].next_sibling(&arena), Some(ns[3]));
    assert_eq!(ns[3].previous_sibling(&arena), Some(ns[1]));
    assert_eq!(ns[2].parent(&arena), None);
    assert_eq!(children_of(&arena, ns[2]), ["k"]);
    // detaching again changes nothing
    ns[2].detach(&mut arena);
    assert_eq!(children_of(&arena, ns[0]), ["a", "c"]);
    assert_eq!(children_of(&arena, ns[2]), ["k"]);
}

#[test]
fn detach_first_and_last_child() {
    let (mut arena, ns) = nodes(&["p", "a", "b", "c"]);
    ns[0].extend(&mut arena, vec![ns[1], ns[2], ns[3]]);
    ns[1].detach(&mut arena);
    assert_eq!(ns[0].first_child(&arena), Some(ns[2]));
    ns[3].detach(&mut arena);
    assert_eq!(ns[0].last_child(&arena), Some(ns[2]));
    ns[2].detach(&mut arena);
    assert_eq!(ns[0].first_child(&arena), None);
    assert_eq!(ns[0].last_child(&arena), None);
}

#[test]
fn detach_undoes_append() {
    let (mut arena, ns) = small_tree();
    let (mut other, ms) = small_tree();
    ns[2].append(&mut arena, ns[3]);
    ns[3].detach(&mut arena);
    ms[3].detach(&mut other);
    for i in 0..4 {
        assert_eq!(ns[i].parent(&arena).map(|n| n.index), ms[i].parent(&other).map(|n| n.index));
        assert_eq!(children_of(&arena, ns[i]), children_of(&other, ms[i]));
    }
}

#[test]
fn extend_appends_in_order() {
    let (mut arena, ns) = nodes(&["p", "a", "b", "c"]);
    ns[0].append(&mut arena, ns[2]);
    ns[0].extend(&mut arena, vec![ns[1], ns[3], ns[2]]);
    assert_eq!(children_of(&arena, ns[0]), ["a", "c", "b"]);
}

#[test]
fn axis_iterators() {
    let (mut arena, ns) = nodes(&["p", "a", "b", "c", "k"]);
    ns[0].extend(&mut arena, vec![ns[1], ns[2], ns[3]]);
    ns[2].append(&mut arena, ns[4]);

    let mut out = Vec::new();
    let mut it = ns[4].ancestors(&arena);
    while let Some(n) = it.next() {
        out.push(n);
    }
    assert_eq!(labels_of(&arena, out), ["k", "b", "p"]);

    let mut out = Vec::new();
    let mut it = ns[2].preceding_siblings(&arena);
    while let Some(n) = it.next() {
        out.push(n);
    }
    assert_eq!(labels_of(&arena, out), ["b", "a"]);

    let mut out = Vec::new();
    let mut it = ns[2].following_siblings(&arena);
    while let Some(n) = it.next() {
        out.push(n);
    }
    assert_eq!(labels_of(&arena, out), ["b", "c"]);

    let mut out = Vec::new();
    let mut it = ns[0].reverse_children(&arena);
    while let Some(n) = it.next() {
        out.push(n);
    }
    assert_eq!(labels_of(&arena, out), ["c", "b", "a"]);
    assert!(it.next().is_none());
}

#[test]
fn traverse_yields_start_and_end_edges_in_tree_order() {
    let (arena, ns) = small_tree();
    let mut out = Vec::new();
    let mut it = ns[0].traverse(&arena);
    while let Some(e) = it.next() {
        out.push(e);
    }
    let (a, b, c, d) = (ns[0], ns[1], ns[2], ns[3]);
    assert_eq!(
        out,
        [
            NodeEdge::Start(a),
            NodeEdge::Start(b),
            NodeEdge::Start(d),
            NodeEdge::End(d),
            NodeEdge::End(b),
            NodeEdge::Start(c),
            NodeEdge::End(c),
            NodeEdge::End(a),
        ]
    );
}

#[test]
fn traverse_of_inner_node_stays_in_its_subtree() {
    let (arena, ns) = small_tree();
    let mut out = Vec::new();
    let mut it = ns[1].traverse(&arena);
    while let Some(e) = it.next() {
        out.push(e);
    }
    assert_eq!(
        out,
        [NodeEdge::Start(ns[1]), NodeEdge::Start(ns[3]), NodeEdge::End(ns[3]), NodeEdge::End(ns[1])]
    );
}

#[test]
fn reverse_traverse_is_traverse_backwards() {
    let (arena, ns) = small_tree();
    let mut forward = Vec::new();
    let mut it = ns[0].traverse(&arena);
    while let Some(e) = it.next() {
        forward.push(e);
    }
    let mut backward = Vec::new();
    let mut it = ns[0].reverse_traverse(&arena);
    while let Some(e) = it.next() {
        backward.push(e);
    }
    forward.reverse();
    assert_eq!(backward, forward);
    assert_eq!(backward[0], NodeEdge::End(ns[0]));
}

#[test]
fn descendants_in_tree_order() {
    let (arena, ns) = small_tree();
    let mut out = Vec::new();
    let mut it = ns[0].descendants(&arena);
    while let Some(n) = it.next() {
        out.push(n);
    }
    assert_eq!(labels_of(&arena, out), ["a", "b", "d", "c"]);
}

#[test]
fn same_node_compares_handles() {
    let (_arena, ns) = small_tree();
    assert!(ns[1].same_node(ns[1]));
    assert!(!ns[1].same_node(ns[2]));
}

#[test]
fn data_access() {
    let (mut arena, ns) = small_tree();
    assert_eq!(ns[2].try_data(&arena), Some(&"c"));
    assert_eq!(Node { index: 7 }.try_data(&arena), None);
    *ns[2].data_mut(&mut arena) = "z";
    assert_eq!(*ns[2].data(&arena), "z");
    assert_eq!(children_of(&arena, ns[0]), ["b", "z"]);
}

#[test]
fn debug_tree_text() {
    let (arena, ns) = small_tree();
    let labels: Vec<String> = ["a", "b", "c", "d"].iter().map(|s| s.to_string()).collect();
    assert_eq!(ns[0].debug_tree(&arena, &labels), "a [b [d], c]");
    assert_eq!(ns[2].debug_tree(&arena, &labels), "c");
}

#[test]
fn to_wire_lays_out_tree_order() {
    let (arena, ns) = small_tree();
    let wire = ns[0].to_wire(&arena);
    let got: Vec<(u32, Option<u32>, Option<u32>, Option<u32>, Option<u32>, Option<u32>, &str)> = wire
        .nodes
        .iter()
        .map(|w| {
            (w.id, w.parent, w.previous_sibling, w.next_sibling, w.first_child, w.last_child, *w.data)
        })
        .collect();
    assert_eq!(
        got,
        [
            (0, None, None, None, Some(1), Some(3), "a"),
            (1, Some(0), None, Some(3), Some(2), Some(2), "b"),
            (2, Some(1), None, None, None, None, "d"),
            (3, Some(0), Some(1), None, None, None, "c"),
        ]
    );
}

fn wire_node(parent: Option<u32>, prev: Option<u32>, next: Option<u32>, first: Option<u32>, last: Option<u32>, data: &'static str) -> WireNode<&'static str> {
    WireNode {
        id: 0,
        parent,
        previous_sibling: prev,
        next_sibling: next,
        first_child: first,
        last_child: last,
        data,
    }
}

#[test]
fn from_wire_rejects_empty() {
    let r = Arena::<&str>::from_wire(WireTree { nodes: Vec::new() });
    assert_eq!(r.err(), Some(WireError::Empty));
}

#[test]
fn from_wire_reports_first_out_of_bounds_link() {
    let wire = WireTree {
        nodes: vec![
            wire_node(None, None, None, Some(1), Some(7), "a"),
            wire_node(Some(9), None, None, None, None, "b"),
        ],
    };
    assert_eq!(Arena::from_wire(wire).err(), Some(WireError::OutOfBounds(7)));
}

#[test]
fn from_wire_keeps_contradicting_links() {
    // the root names a child that does not name it as parent
    let wire = WireTree {
        nodes: vec![
            wire_node(None, None, None, Some(1), Some(1), "a"),
            wire_node(None, None, None, None, None, "b"),
        ],
    };
    let (arena, root) = Arena::from_wire(wire).unwrap();
    assert_eq!(root.index, 0);
    assert!(!arena.is_tree());
    assert_eq!(root.first_child(&arena), Some(Node { index: 1 }));
    assert_eq!(root.last_child(&arena), Some(Node { index: 1 }));
    assert_eq!(Node { index: 1 }.parent(&arena), None);
    assert_eq!(*Node { index: 1 }.data(&arena), "b");
}

#[test]
fn from_wire_keeps_cycles() {
    // each node is the other's parent, and each the other's only child
    let wire = WireTree {
        nodes: vec![
            wire_node(Some(1), None, None, Some(1), Some(1), "a"),
            wire_node(Some(0), None, None, Some(0), Some(0), "b"),
        ],
    };
    let (arena, root) = Arena::from_wire(wire).unwrap();
    assert!(!arena.is_tree());
    assert_eq!(root.parent(&arena), Some(Node { index: 1 }));
    assert_eq!(Node { index: 1 }.first_child(&arena), Some(root));
}

#[test]
fn from_wire_keeps_a_node_that_is_its_own_child() {
    let wire = WireTree { nodes: vec![wire_node(None, None, None, Some(0), Some(0), "a")] };
    let (arena, root) = Arena::from_wire(wire).unwrap();
    assert!(!arena.is_tree());
    assert_eq!(root.first_child(&arena), Some(root));
    assert_eq!(root.last_child(&arena), Some(root));
    assert_eq!(root.next_sibling(&arena), None);
}

#[test]
fn from_wire_of_a_tree_is_a_tree() {
    let wire = WireTree {
        nodes: vec![
            wire_node(None, None, None, Some(1), Some(1), "a"),
            wire_node(Some(0), None, None, None, None, "b"),
        ],
    };
    let (arena, _) = Arena::from_wire(wire).unwrap();
    assert!(arena.is_tree());
}

#[test]
fn wire_roundtrip_keeps_structure() {
    let (mut arena, ns) = nodes(&["r", "a", "b", "c", "d", "e"]);
    ns[0].extend(&mut arena, vec![ns[1], ns[2]]);
    ns[1].extend(&mut arena, vec![ns[3], ns[4]]);
    ns[2].append(&mut arena, ns[5]);
    let wire = ns[0].to_wire(&arena);
    let owned = WireTree {
        nodes: wire
            .nodes
            .iter()
            .map(|w| WireNode {
                id: w.id,
                parent: w.parent,
                previous_sibling: w.previous_sibling,
                next_sibling: w.next_sibling,
                first_child: w.first_child,
                last_child: w.last_child,
                data: *w.data,
            })
            .collect(),
    };
    let (back, root) = Arena::from_wire(owned).unwrap();
    assert_eq!(root.index, 0);
    let mut out = Vec::new();
    let mut it = root.descendants(&back);
    while let Some(n) = it.next() {
        out.push(n);
    }
    assert_eq!(labels_of(&back, out), ["r", "a", "c", "d", "b", "e"]);
    let labels: Vec<String> = (0..back.len()).map(|i| Node { index: i }.data(&back).to_string()).collect();
    assert_eq!(root.debug_tree(&back, &labels), "r [a [c, d], b [e]]");
}

/// Every link of every node, for comparing whole arenas.
fn all_links(arena: &Arena<&'static str>) -> Vec<[Option<Node>; 5]> {
    (0..arena.len())
        .map(|i| {
            let n = Node { index: i };
            [
                n.parent(arena),
                n.previous_sibling(arena),
                n.next_sibling(arena),
                n.first_child(arena),
                n.last_child(arena),
            ]
        })
        .collect()
}

fn descendants_of(arena: &Arena<&'static str>, n: Node) -> Vec<&'static str> {
    let mut out = Vec::new();
    let mut it = n.descendants(arena);
    while let Some(d) = it.next() {
        out.push(d);
    }
    labels_of(arena, out)
}

#[test]
fn append_of_last_child_changes_nothing() {
    let (mut arena, ns) = small_tree();
    let before = all_links(&arena);
    ns[0].append(&mut arena, ns[2]);
    assert_eq!(all_links(&arena), before);
}

#[test]
fn detach_of_lone_root_changes_nothing() {
    let (mut arena, ns) = small_tree();
    let before = all_links(&arena);
    ns[0].detach(&mut arena);
    assert_eq!(all_links(&arena), before);
}

#[test]
fn detach_keeps_descendants() {
    let (mut arena, ns) = small_tree();
    assert_eq!(descendants_of(&arena, ns[1]), ["b", "d"]);
    ns[1].detach(&mut arena);
    assert_eq!(descendants_of(&arena, ns[1]), ["b", "d"]);
    assert_eq!(descendants_of(&arena, ns[0]), ["a", "c"]);
}

#[test]
fn insert_after_moves_subtree_and_spares_others() {
    // a [b [d], c], e [f]
    let (mut arena, mut ns) = small_tree();
    ns.push(Node::new(&mut arena, "e"));
    ns.push(Node::new(&mut arena, "f"));
    ns[4].append(&mut arena, ns[5]);
    let before = all_links(&arena);
    ns[2].insert_after(&mut arena, ns[1]);
    assert_eq!(descendants_of(&arena, ns[1]), ["b", "d"]);
    assert_eq!(children_of(&arena, ns[0]), ["c", "b"]);
    let after = all_links(&arena);
    for i in [3usize, 4, 5] {
        assert_eq!(after[i], before[i]);
    }
}

#[test]
fn extend_moves_listed_children_to_the_end() {
    let (mut arena, ns) = nodes(&["p", "a", "b", "c"]);
    ns[0].extend(&mut arena, vec![ns[1], ns[2], ns[3]]);
    ns[0].extend(&mut arena, vec![ns[3], ns[1]]);
    assert_eq!(children_of(&arena, ns[0]), ["b", "c", "a"]);
    assert_eq!(ns[1].parent(&arena), Some(ns[0]));
    assert_eq!(ns[3].parent(&arena), Some(ns[0]));
}

#[test]
fn descendants_are_node_then_each_childs_descendants() {
    let (arena, ns) = small_tree();
    let mut expected = vec!["a"];
    expected.extend(descendants_of(&arena, ns[1]));
    expected.extend(descendants_of(&arena, ns[2]));
    assert_eq!(descendants_of(&arena, ns[0]), expected);
}

#[test]
fn reverse_traverse_covers_every_descendant() {
    let (arena, ns) = small_tree();
    let mut edges = Vec::new();
    let mut it = ns[0].reverse_traverse(&arena);
    while let Some(e) = it.next() {
        edges.push(e);
    }
    for n in &ns {
        assert!(edges.contains(&NodeEdge::Start(*n)));
        assert!(edges.contains(&NodeEdge::End(*n)));
    }
    assert_eq!(edges.len(), 2 * ns.len());
}

#[test]
fn is_tree_holds_of_built_arenas() {
    let (arena, _) = small_tree();
    assert!(arena.is_tree());
}
