use vstd::prelude::*;
use crate::model::{ArenaView, Links, Node, lemma_index_of, lemma_index_of_contains, lemma_ends_with_step, lemma_distinct_bounded};
use crate::arena::Arena;
use crate::forest::forms_forest;

verus! {

broadcast use crate::arena::lemma_wf_links;

/// One node of a tree laid out flat: its links are positions in the list of
/// nodes of a [`WireTree`].
pub struct WireNode<D> {
    pub id: u32,
    pub parent: Option<u32>,
    pub previous_sibling: Option<u32>,
    pub next_sibling: Option<u32>,
    pub first_child: Option<u32>,
    pub last_child: Option<u32>,
    pub data: D,
}

/// A tree laid out flat, without reference cycles: the form in which a tree
/// is serialized. Its first node is the root.
pub struct WireTree<D> {
    pub nodes: Vec<WireNode<D>>,
}

/// The position in `order` of an optional node.
pub open spec fn wire_ref(order: Seq<Node>, o: Option<Node>) -> Option<u32> {
    match o {
        Some(n) => Some(order.index_of(n) as u32),
        None => None,
    }
}

impl<T> ArenaView<T> {
    /// `w` lays out the node `order[i]` of this arena, the nodes being listed in `order`.
    pub open spec fn lays_out<'a>(self, order: Seq<Node>, i: int, w: WireNode<&'a T>) -> bool {
        &&& w.id == i
        &&& self.lays_out_links(order, i, w)
        &&& *w.data == self.data[order[i].id()]
    }

    /// The links of `w` are the positions in `order` of the links of node `order[i]`.
    pub open spec fn lays_out_links<D>(self, order: Seq<Node>, i: int, w: WireNode<D>) -> bool {
        let n = order[i];
        &&& w.parent == wire_ref(order, self.parent[n.id()])
        &&& w.previous_sibling == wire_ref(order, self.previous_sibling(n))
        &&& w.next_sibling == wire_ref(order, self.next_sibling(n))
        &&& w.first_child == wire_ref(order, self.first_child(n))
        &&& w.last_child == wire_ref(order, self.last_child(n))
    }

    /// The relatives of every node of the subtree of a root without
    /// siblings lie in that subtree.
    pub proof fn lemma_links_in_subtree(self, root: Node, y: Node)
        requires
            self.valid(),
            self.has(root),
            self.parent[root.id()] is None,
            self.siblings[root.id()] == seq![root],
            self.has(y),
            self.in_subtree(y, root),
        ensures
            self.parent[y.id()] matches Some(p) ==> self.in_subtree(p, root),
            self.previous_sibling(y) matches Some(p) ==> self.in_subtree(p, root),
            self.next_sibling(y) matches Some(p) ==> self.in_subtree(p, root),
            self.first_child(y) matches Some(p) ==> self.in_subtree(p, root),
            self.last_child(y) matches Some(p) ==> self.in_subtree(p, root),
            y == root ==> self.previous_sibling(y) is None && self.next_sibling(y) is None,
    {
        self.lemma_node_facts(y.id());
        self.lemma_node_facts(root.id());
        self.lemma_links_in_range(y);
        let ar = self.ancestors[root.id()];
        assert(self.ancestors_ok(root.id()));
        assert(ar == seq![root]);
        if y == root {
            self.lemma_position(root, 0);
        } else {
            let p = self.parent[y.id()];
            if p is None {
                assert(self.ancestors_ok(y.id()));
                let ay = self.ancestors[y.id()];
                assert(ay == seq![y]);
                assert(ay.subrange(0, 1)[0] == y);
            }
        }
        if let Some(p) = self.parent[y.id()] {
            self.lemma_node_facts(p.id());
            assert(self.ancestors_ok(y.id()));
            if y != root {
                lemma_ends_with_step(self.ancestors[y.id()], self.ancestors[p.id()], ar, y);
            }
            // a sibling shares the parent and so lies under it
            let s = self.siblings[y.id()];
            assert(self.siblings_ok(y.id()));
            lemma_index_of_contains(s, y);
            let k = self.position(y);
            if k > 0 {
                self.lemma_child_under(p, s[k - 1], root);
            }
            if k + 1 < s.len() {
                self.lemma_child_under(p, s[k + 1], root);
            }
        }
        let ch = self.children[y.id()];
        if ch.len() > 0 {
            assert(self.children_ok(y.id()));
            self.lemma_child_under(y, ch[0], root);
            self.lemma_child_under(y, ch[ch.len() - 1], root);
        }
    }

    /// A member of the sibling list of a child of `p`, with `p` under `root`,
    /// lies under `root`.
    proof fn lemma_child_under(self, p: Node, c: Node, root: Node)
        requires
            self.valid(),
            self.has(p),
            self.has(root),
            c.id() < self.len(),
            self.parent[c.id()] == Some(p),
            self.in_subtree(p, root),
            self.parent[root.id()] is None,
        ensures
            self.in_subtree(c, root),
    {
        self.lemma_node_facts(c.id());
        self.lemma_node_facts(root.id());
        assert(self.ancestors_ok(c.id()));
        if c == root {
            assert(false);
        }
        lemma_ends_with_step(self.ancestors[c.id()], self.ancestors[p.id()], self.ancestors[root.id()], c);
    }
}

/// The position recorded for an optional node.
fn lookup(ids: &Vec<Option<u32>>, o: Option<Node>) -> (r: Option<u32>)
    requires
        o matches Some(n) ==> n.id() < ids@.len(),
    ensures
        r == match o {
            Some(n) => ids@[n.id()],
            None => None,
        },
{
    match o {
        Some(n) => ids[n.index],
        None => None,
    }
}

impl Node {
    /// Lay out this node and its descendants flat, in tree order: node `i`
    /// of the result is the `i`-th descendant, and every link is the
    /// position of the linked node.
    pub fn to_wire<'a, T>(self, arena: &'a Arena<T>) -> (r: WireTree<&'a T>)
        requires
            arena.wf(),
            arena@.has(self),
            arena@.parent[self.id()] is None,
            arena@.siblings[self.id()] == seq![self],
            arena@.len() <= u32::MAX,
        ensures
            r.nodes@.len() == arena@.descendants(self).len(),
            forall|i: int|
                0 <= i < r.nodes@.len() ==> arena@.lays_out(
                    arena@.descendants(self),
                    i,
                    #[trigger] r.nodes@[i],
                ),
    {
        let ghost v = arena@;
        let ghost order = v.descendants(self);
        proof {
            arena.lemma_valid();
            v.law_descendants(self);
            assert forall|j: int| 0 <= j < order.len() implies v.has(#[trigger] order[j]) by {
                assert(order.contains(order[j]));
            }
            lemma_distinct_bounded(order, v.len());
        }
        // the nodes in tree order
        let mut ordered: Vec<Node> = Vec::new();
        let mut it = self.descendants(arena);
        loop
            invariant
                it.inv(),
                ordered@ + it.rest() == order,
            ensures
                ordered@ == order,
            decreases it.rest().len(),
        {
            let ghost before = it.rest();
            match it.next() {
                Some(n) => {
                    ordered.push(n);
                    assert(ordered@ + it.rest() =~= order);
                },
                None => {
                    assert(ordered@ =~= order);
                    break;
                },
            }
        }
        assert(ordered@ == order);
        // the position of each node in that order
        let n = arena.len();
        let mut ids: Vec<Option<u32>> = Vec::new();
        let mut k: usize = 0;
        while k < n
            invariant
                k <= n,
                n == v.len(),
                ids@.len() == k,
                forall|j: int| 0 <= j < k ==> ids@[j] is None,
            decreases n - k,
        {
            ids.push(None);
            k = k + 1;
        }
        let mut idx: usize = 0;
        while idx < ordered.len()
            invariant
                ordered@ == order,
                order.no_duplicates(),
                forall|j: int| 0 <= j < order.len() ==> v.has(#[trigger] order[j]),
                order.len() <= v.len(),
                v.len() <= u32::MAX,
                ids@.len() == v.len(),
                idx <= ordered.len(),
                forall|j: int|
                    0 <= j < v.len() ==> #[trigger] ids@[j] == if order.take(idx as int).contains(
                        Node { index: j as usize },
                    ) {
                        Some(order.index_of(Node { index: j as usize }) as u32)
                    } else {
                        None
                    },
            decreases ordered.len() - idx,
        {
            let node = ordered[idx];
            proof {
                lemma_index_of(order, idx as int);
                assert forall|j: int| 0 <= j < v.len() implies (#[trigger] order.take(idx + 1).contains(
                    Node { index: j as usize },
                ) <==> (order.take(idx as int).contains(Node { index: j as usize }) || j
                    == node.id())) by {
                    let nj = Node { index: j as usize };
                    if order.take(idx + 1).contains(nj) {
                        let q = order.take(idx + 1).index_of(nj);
                        lemma_index_of_contains(order.take(idx + 1), nj);
                        if q < idx {
                            assert(order.take(idx as int)[q] == nj);
                        }
                    }
                    if order.take(idx as int).contains(nj) {
                        let q = order.take(idx as int).index_of(nj);
                        lemma_index_of_contains(order.take(idx as int), nj);
                        assert(order.take(idx + 1)[q] == nj);
                    }
                    if j == node.id() {
                        assert(order.take(idx + 1)[idx as int] == nj);
                    }
                }
                assert(!order.take(idx as int).contains(node)) by {
                    if order.take(idx as int).contains(node) {
                        let q = order.take(idx as int).index_of(node);
                        lemma_index_of_contains(order.take(idx as int), node);
                        assert(order[q] == order[idx as int]);
                    }
                }
            }
            ids.set(node.index, Some(idx as u32));
            idx = idx + 1;
        }
        proof {
            assert(order.take(order.len() as int) =~= order);
        }
        // the flat nodes
        let mut nodes: Vec<WireNode<&'a T>> = Vec::new();
        let mut i: usize = 0;
        while i < ordered.len()
            invariant
                arena.wf(),
                v == arena@,
                v.valid(),
                ordered@ == order,
                order == v.descendants(self),
                order.no_duplicates(),
                forall|j: int| 0 <= j < order.len() ==> v.has(#[trigger] order[j]),
                forall|y: Node|
                    #![trigger order.contains(y)]
                    order.contains(y) <==> (v.has(y) && v.in_subtree(y, self)),
                v.has(self),
                v.parent[self.id()] is None,
                v.siblings[self.id()] == seq![self],
                ids@.len() == v.len(),
                v.len() <= u32::MAX,
                forall|j: int|
                    0 <= j < v.len() ==> #[trigger] ids@[j] == if order.contains(
                        Node { index: j as usize },
                    ) {
                        Some(order.index_of(Node { index: j as usize }) as u32)
                    } else {
                        None
                    },
                order.len() <= v.len(),
                i <= ordered.len(),
                nodes@.len() == i,
                forall|j: int| 0 <= j < i ==> v.lays_out(order, j, #[trigger] nodes@[j]),
            decreases ordered.len() - i,
        {
            let node = ordered[i];
            proof {
                lemma_index_of(order, i as int);
                assert(order.contains(node));
                v.lemma_links_in_subtree(self, node);
                v.lemma_links_in_range(node);
                if let Some(p) = v.parent[node.id()] {
                    assert(order.contains(p));
                }
                if let Some(p) = v.previous_sibling(node) {
                    assert(order.contains(p));
                }
                if let Some(p) = v.next_sibling(node) {
                    assert(order.contains(p));
                }
                if let Some(p) = v.first_child(node) {
                    assert(order.contains(p));
                }
                if let Some(p) = v.last_child(node) {
                    assert(order.contains(p));
                }
            }
            let wire = WireNode {
                id: i as u32,
                parent: lookup(&ids, node.parent(arena)),
                previous_sibling: lookup(&ids, node.previous_sibling(arena)),
                next_sibling: lookup(&ids, node.next_sibling(arena)),
                first_child: lookup(&ids, node.first_child(arena)),
                last_child: lookup(&ids, node.last_child(arena)),
                data: node.data(arena),
            };
            nodes.push(wire);
            i = i + 1;
        }
        WireTree { nodes }
    }
}


/// Why a flat tree could not be turned back into a tree.
#[derive(Debug, Clone, Copy, PartialEq, Eq, Structural)]
pub enum WireError {
    /// The flat tree has no node.
    Empty,
    /// A link names this position, and there is no node there.
    OutOfBounds(u32),
}

/// The node that a flat link names.
pub open spec fn wire_target(o: Option<u32>) -> Option<Node> {
    match o {
        Some(x) => Some(Node { index: x as usize }),
        None => None,
    }
}

/// The links of a flat node, in the order they are read: parent, previous
/// sibling, next sibling, first child, last child.
pub open spec fn wire_links<D>(w: WireNode<D>) -> Seq<Option<u32>> {
    seq![w.parent, w.previous_sibling, w.next_sibling, w.first_child, w.last_child]
}

/// The links of all flat nodes, node after node.
pub open spec fn all_links<D>(ws: Seq<WireNode<D>>) -> Seq<Option<u32>>
    decreases ws.len(),
{
    if ws.len() == 0 {
        Seq::empty()
    } else {
        wire_links(ws[0]) + all_links(ws.drop_first())
    }
}

/// The first link of `links` that names no position below `n`.
pub open spec fn first_out_of_bounds(links: Seq<Option<u32>>, n: nat) -> Option<u32>
    decreases links.len(),
{
    if links.len() == 0 {
        None
    } else {
        match links[0] {
            Some(x) => if x >= n {
                Some(x)
            } else {
                first_out_of_bounds(links.drop_first(), n)
            },
            None => first_out_of_bounds(links.drop_first(), n),
        }
    }
}

/// The links of flat nodes, read as nodes.
pub open spec fn wire_shape<D>(ws: Seq<WireNode<D>>) -> Seq<Links> {
    ws.map_values(
        |w: WireNode<D>|
            Links {
                parent: wire_target(w.parent),
                previous_sibling: wire_target(w.previous_sibling),
                next_sibling: wire_target(w.next_sibling),
                first_child: wire_target(w.first_child),
                last_child: wire_target(w.last_child),
            },
    )
}

/// The data of flat nodes.
pub open spec fn wire_data<D>(ws: Seq<WireNode<D>>) -> Seq<D> {
    ws.map_values(|w: WireNode<D>| w.data)
}

/// Node `i` of a flat tree, read back, has the data of flat node `i`, and
/// each of its links names the node at the position that the flat link holds.
pub proof fn law_wire_fields<D>(ws: Seq<WireNode<D>>)
    ensures
        wire_data(ws).len() == ws.len(),
        wire_shape(ws).len() == ws.len(),
        forall|i: int| #![trigger ws[i]] 0 <= i < ws.len() ==> wire_data(ws)[i] == ws[i].data,
        forall|i: int|
            #![trigger ws[i]]
            0 <= i < ws.len() ==> {
                &&& (ws[i].parent matches Some(j) ==> wire_shape(ws)[i].parent == Some(
                    Node { index: j as usize },
                ))
                &&& (ws[i].parent is None ==> wire_shape(ws)[i].parent is None)
                &&& (ws[i].previous_sibling matches Some(j) ==> wire_shape(ws)[i].previous_sibling == Some(
                    Node { index: j as usize },
                ))
                &&& (ws[i].previous_sibling is None ==> wire_shape(ws)[i].previous_sibling is None)
                &&& (ws[i].next_sibling matches Some(j) ==> wire_shape(ws)[i].next_sibling == Some(
                    Node { index: j as usize },
                ))
                &&& (ws[i].next_sibling is None ==> wire_shape(ws)[i].next_sibling is None)
                &&& (ws[i].first_child matches Some(j) ==> wire_shape(ws)[i].first_child == Some(
                    Node { index: j as usize },
                ))
                &&& (ws[i].first_child is None ==> wire_shape(ws)[i].first_child is None)
                &&& (ws[i].last_child matches Some(j) ==> wire_shape(ws)[i].last_child == Some(
                    Node { index: j as usize },
                ))
                &&& (ws[i].last_child is None ==> wire_shape(ws)[i].last_child is None)
            },
{
}

/// The first out-of-bounds link of a list that starts with links in bounds
/// is that of the rest.
pub proof fn lemma_first_oob_skip(a: Seq<Option<u32>>, b: Seq<Option<u32>>, n: nat)
    requires
        forall|k: int| 0 <= k < a.len() ==> (#[trigger] a[k] matches Some(x) ==> x < n),
    ensures
        first_out_of_bounds(a + b, n) == first_out_of_bounds(b, n),
    decreases a.len(),
{
    if a.len() > 0 {
        assert((a + b).drop_first() =~= a.drop_first() + b);
        assert((a + b)[0] == a[0]);
        lemma_first_oob_skip(a.drop_first(), b, n);
    } else {
        assert(a + b =~= b);
    }
}

/// The first out-of-bounds link of a list that starts with a link out of bounds.
proof fn lemma_first_oob_here(a: Seq<Option<u32>>, b: Seq<Option<u32>>, n: nat, k: int)
    requires
        0 <= k < a.len(),
        forall|j: int| 0 <= j < k ==> (#[trigger] a[j] matches Some(x) ==> x < n),
        a[k] matches Some(x) && x >= n,
    ensures
        first_out_of_bounds(a + b, n) == a[k],
    decreases k,
{
    assert((a + b)[0] == a[0]);
    if k > 0 {
        assert((a + b).drop_first() =~= a.drop_first() + b);
        lemma_first_oob_here(a.drop_first(), b, n, k - 1);
    }
}

/// The node a flat link names, or `Err` with the link when there is no node there.
fn resolve(o: Option<u32>, n: usize) -> (r: Result<Option<Node>, WireError>)
    ensures
        match o {
            Some(x) => if x >= n {
                r == Err::<Option<Node>, WireError>(WireError::OutOfBounds(x))
            } else {
                r == Ok::<Option<Node>, WireError>(wire_target(o))
            },
            None => r == Ok::<Option<Node>, WireError>(None),
        },
{
    match o {
        Some(x) => {
            if x as usize >= n {
                Err(WireError::OutOfBounds(x))
            } else {
                Ok(Some(Node { index: x as usize }))
            }
        },
        None => Ok(None),
    }
}

impl<T> Arena<T> {
    /// Turn a flat tree back into a tree: node `i` of the result is node `i`
    /// of `wire`, with its links and data; the first node is the root.
    /// The `id` of the flat nodes is not read, and the links are taken as
    /// they are: the result is well formed exactly when they form a forest
    /// (see [`Arena::is_tree`]).
    pub fn from_wire(wire: WireTree<T>) -> (r: Result<(Arena<T>, Node), WireError>)
        ensures
            (r == Err::<(Arena<T>, Node), WireError>(WireError::Empty)) <==> wire.nodes@.len() == 0,
            wire.nodes@.len() > 0 ==> (first_out_of_bounds(all_links(wire.nodes@), wire.nodes@.len())
                matches Some(x) ==> r == Err::<(Arena<T>, Node), WireError>(
                WireError::OutOfBounds(x),
            )),
            r matches Err(WireError::OutOfBounds(x)) ==> wire.nodes@.len() > 0
                && first_out_of_bounds(all_links(wire.nodes@), wire.nodes@.len()) == Some(x),
            r is Ok <==> (wire.nodes@.len() > 0 && first_out_of_bounds(
                all_links(wire.nodes@),
                wire.nodes@.len(),
            ) is None),
            r matches Ok((a, root)) ==> {
                &&& root == Node { index: 0 }
                &&& a.links() == wire_shape(wire.nodes@)
                &&& a@.data == wire_data(wire.nodes@)
                &&& a.wf() <==> forms_forest(wire_shape(wire.nodes@))
                &&& a@.len() == wire.nodes@.len()
                &&& a.links().len() == wire.nodes@.len()
                &&& forall|i: int|
                    #![trigger wire.nodes@[i]]
                    0 <= i < wire.nodes@.len() ==> a@.data[i] == wire.nodes@[i].data
                &&& forall|i: int|
                    #![trigger wire.nodes@[i]]
                    0 <= i < wire.nodes@.len() ==> {
                    let w = wire.nodes@[i];
                    &&& (w.parent matches Some(j) ==> a.links()[i].parent == Some(
                        Node { index: j as usize },
                    ))
                    &&& (w.parent is None ==> a.links()[i].parent is None)
                    &&& (w.previous_sibling matches Some(j) ==> a.links()[i].previous_sibling == Some(
                        Node { index: j as usize },
                    ))
                    &&& (w.previous_sibling is None ==> a.links()[i].previous_sibling is None)
                    &&& (w.next_sibling matches Some(j) ==> a.links()[i].next_sibling == Some(
                        Node { index: j as usize },
                    ))
                    &&& (w.next_sibling is None ==> a.links()[i].next_sibling is None)
                    &&& (w.first_child matches Some(j) ==> a.links()[i].first_child == Some(
                        Node { index: j as usize },
                    ))
                    &&& (w.first_child is None ==> a.links()[i].first_child is None)
                    &&& (w.last_child matches Some(j) ==> a.links()[i].last_child == Some(
                        Node { index: j as usize },
                    ))
                    &&& (w.last_child is None ==> a.links()[i].last_child is None)
                }
            },
    {
        let ghost ws = wire.nodes@;
        let n = wire.nodes.len();
        if n == 0 {
            return Err(WireError::Empty);
        }
        // read every link, in order, as a node
        let mut links: Vec<Links> = Vec::new();
        let mut i: usize = 0;
        proof {
            assert(ws.skip(0) =~= ws);
        }
        while i < n
            invariant
                n == ws.len(),
                ws == wire.nodes@,
                i <= n,
                links@ == wire_shape(ws).take(i as int),
                first_out_of_bounds(all_links(ws), n as nat) == first_out_of_bounds(
                    all_links(ws.skip(i as int)),
                    n as nat,
                ),
            decreases n - i,
        {
            let w = &wire.nodes[i];
            let ghost wl = wire_links(*w);
            proof {
                assert(ws.skip(i as int).drop_first() =~= ws.skip(i + 1));
                assert(all_links(ws.skip(i as int)) == wl + all_links(ws.skip(i + 1)));
            }
            let parent = resolve(w.parent, n);
            if let Err(e) = parent {
                proof { lemma_first_oob_here(wl, all_links(ws.skip(i + 1)), n as nat, 0); }
                return Err(e);
            }
            let previous_sibling = resolve(w.previous_sibling, n);
            if let Err(e) = previous_sibling {
                proof { lemma_first_oob_here(wl, all_links(ws.skip(i + 1)), n as nat, 1); }
                return Err(e);
            }
            let next_sibling = resolve(w.next_sibling, n);
            if let Err(e) = next_sibling {
                proof { lemma_first_oob_here(wl, all_links(ws.skip(i + 1)), n as nat, 2); }
                return Err(e);
            }
            let first_child = resolve(w.first_child, n);
            if let Err(e) = first_child {
                proof { lemma_first_oob_here(wl, all_links(ws.skip(i + 1)), n as nat, 3); }
                return Err(e);
            }
            let last_child = resolve(w.last_child, n);
            if let Err(e) = last_child {
                proof { lemma_first_oob_here(wl, all_links(ws.skip(i + 1)), n as nat, 4); }
                return Err(e);
            }
            proof {
                lemma_first_oob_skip(wl, all_links(ws.skip(i + 1)), n as nat);
            }
            links.push(
                Links {
                    parent: parent.unwrap(),
                    previous_sibling: previous_sibling.unwrap(),
                    next_sibling: next_sibling.unwrap(),
                    first_child: first_child.unwrap(),
                    last_child: last_child.unwrap(),
                },
            );
            proof {
                assert(links@ =~= wire_shape(ws).take(i + 1));
            }
            i = i + 1;
        }
        proof {
            assert(links@ =~= wire_shape(ws));
            assert(ws.skip(n as int) =~= Seq::<WireNode<T>>::empty());
        }
        // move the data out, in order
        let ghost ds = wire_data(ws);
        let mut nodes = wire.nodes;
        let mut rev: Vec<T> = Vec::new();
        while nodes.len() > 0
            invariant
                ds == wire_data(ws),
                ds.len() == ws.len(),
                nodes.len() <= ws.len(),
                nodes@ == ws.take(nodes.len() as int),
                rev@ == ds.skip(nodes.len() as int).reverse(),
            decreases nodes.len(),
        {
            let ghost k = nodes.len() as int;
            let w = nodes.pop().unwrap();
            proof {
                assert(w == ws[k - 1]);
                let a = ds.skip(k - 1);
                let b = ds.skip(k);
                assert(a.len() == b.len() + 1);
                assert forall|j: int| 0 <= j < a.len() implies #[trigger] a.reverse()[j] == b.reverse().push(
                    w.data,
                )[j] by {
                    if j < b.len() {
                        assert(a.reverse()[j] == a[a.len() - 1 - j]);
                        assert(b.reverse()[j] == b[b.len() - 1 - j]);
                        assert(a[a.len() - 1 - j] == ds[k - 1 + a.len() - 1 - j]);
                        assert(b[b.len() - 1 - j] == ds[k + b.len() - 1 - j]);
                        assert(b.reverse().push(w.data)[j] == b.reverse()[j]);
                    } else {
                        assert(a.reverse()[j] == a[0]);
                        assert(a[0] == ds[k - 1]);
                        assert(0 <= k - 1 < ws.len());
                        assert(ds[k - 1] == ws[k - 1].data);
                        assert(b.reverse().push(w.data)[j] == w.data);
                    }
                }
                assert(a.reverse() =~= b.reverse().push(w.data));
            }
            rev.push(w.data);
            proof {
                assert(nodes@ =~= ws.take(k - 1));
            }
        }
        let mut data: Vec<T> = Vec::new();
        while rev.len() > 0
            invariant
                ds == wire_data(ws),
                ds.len() == ws.len(),
                data.len() + rev.len() == ds.len(),
                data@ == ds.take(data.len() as int),
                rev@ == ds.skip(data.len() as int).reverse(),
            decreases rev.len(),
        {
            let ghost j = data.len() as int;
            let d = rev.pop().unwrap();
            proof {
                let a = ds.skip(j);
                let b = ds.skip(j + 1);
                assert(a.len() == b.len() + 1);
                assert(a.reverse()[a.len() - 1] == a[0]);
                assert(d == ds[j]);
                assert forall|x: int| 0 <= x < b.len() implies #[trigger] b.reverse()[x] == a.reverse()[x] by {
                    assert(a.reverse()[x] == a[a.len() - 1 - x]);
                    assert(b.reverse()[x] == b[b.len() - 1 - x]);
                }
                assert(rev@ =~= ds.skip(j + 1).reverse());
            }
            data.push(d);
            proof {
                assert(data@ =~= ds.take(j + 1));
            }
        }
        proof {
            assert(data@ =~= ds);
        }
        let a = Arena::from_parts(links, data);
        Ok((a, Node { index: 0 }))
    }
}

} // verus!
