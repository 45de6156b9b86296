use vstd::prelude::*;
use crate::model::{ArenaView, Node, first_of, ends_with, lemma_ends_with_step, lemma_index_of_contains};
use crate::arena::Arena;

verus! {

broadcast use crate::arena::lemma_wf_links;

/// An edge of the node graph returned by a traversal.
#[derive(Debug, Clone, Copy, PartialEq, Eq, Structural)]
pub enum NodeEdge<T> {
    /// Indicates the start of a node that has children.
    /// Yielded by `Traverse::next` before the node's descendants.
    /// In HTML or XML, this corresponds to an opening tag like `<div>`.
    Start(T),
    /// Indicates the end of a node that has children.
    /// Yielded by `Traverse::next` after the node's descendants.
    /// In HTML or XML, this corresponds to a closing tag like `</div>`.
    End(T),
}

/// The edge met first when a node is visited: `Start` in tree order, `End`
/// in reverse order.
pub open spec fn opening(rev: bool, n: Node) -> NodeEdge<Node> {
    if rev {
        NodeEdge::End(n)
    } else {
        NodeEdge::Start(n)
    }
}

/// The edge met last when a node is visited.
pub open spec fn closing(rev: bool, n: Node) -> NodeEdge<Node> {
    if rev {
        NodeEdge::Start(n)
    } else {
        NodeEdge::End(n)
    }
}

impl<T> ArenaView<T> {
    /// The children of `x` in the order of the walk: as they are, or reversed.
    pub open spec fn kids(self, rev: bool, x: Node) -> Seq<Node> {
        if rev {
            self.children[x.id()].reverse()
        } else {
            self.children[x.id()]
        }
    }

    /// The child of `x` that the walk visits first.
    pub open spec fn first_kid(self, rev: bool, x: Node) -> Option<Node> {
        if rev {
            self.last_child(x)
        } else {
            self.first_child(x)
        }
    }

    /// The sibling of `x` that the walk visits after `x`.
    pub open spec fn next_kid(self, rev: bool, x: Node) -> Option<Node> {
        if rev {
            self.previous_sibling(x)
        } else {
            self.next_sibling(x)
        }
    }

    /// The edges of the subtree of `x`: the opening edge of `x`, the edges of
    /// the subtrees of its children in walk order, the closing edge of `x`.
    /// `fuel` bounds the depth.
    pub open spec fn edges(self, rev: bool, x: Node, fuel: nat) -> Seq<NodeEdge<Node>>
        decreases fuel, 0nat,
    {
        if fuel == 0 {
            Seq::empty()
        } else {
            seq![opening(rev, x)] + self.edges_of(rev, self.kids(rev, x), (fuel - 1) as nat)
                + seq![closing(rev, x)]
        }
    }

    /// The edges of the subtrees of the nodes of `cs`, one after the other.
    pub open spec fn edges_of(self, rev: bool, cs: Seq<Node>, fuel: nat) -> Seq<NodeEdge<Node>>
        decreases fuel, cs.len(),
    {
        if cs.len() == 0 {
            Seq::empty()
        } else {
            self.edges(rev, cs[0], fuel) + self.edges_of(rev, cs.drop_first(), fuel)
        }
    }

    /// Depth enough to reach every descendant of `x`.
    pub open spec fn fuel(self, x: Node) -> nat {
        (self.len() + 1 - self.ancestors[x.id()].len()) as nat
    }

    /// The start and end edges of `x` and its descendants, in tree order.
    pub open spec fn traversal(self, x: Node) -> Seq<NodeEdge<Node>> {
        self.edges(false, x, self.fuel(x))
    }

    /// The start and end edges of `x` and its descendants, in reverse tree order.
    pub open spec fn reverse_traversal(self, x: Node) -> Seq<NodeEdge<Node>> {
        self.edges(true, x, self.fuel(x))
    }

    /// The edge that a walk over the subtree of `root` yields after `e`.
    pub open spec fn step(self, rev: bool, root: Node, e: NodeEdge<Node>) -> Option<NodeEdge<Node>> {
        let (is_open, n) = match e {
            NodeEdge::Start(n) => (!rev, n),
            NodeEdge::End(n) => (rev, n),
        };
        if is_open {
            match self.first_kid(rev, n) {
                Some(c) => Some(opening(rev, c)),
                None => Some(closing(rev, n)),
            }
        } else if n == root {
            None
        } else {
            match self.next_kid(rev, n) {
                Some(s) => Some(opening(rev, s)),
                None => match self.parent[n.id()] {
                    Some(p) => Some(closing(rev, p)),
                    None => None,
                },
            }
        }
    }

    /// A child of a node in the subtree of `root` is in that subtree and is not `root`.
    pub proof fn lemma_child_in_subtree(self, x: Node, c: Node, root: Node)
        requires
            self.valid(),
            self.has(x),
            self.has(c),
            self.has(root),
            self.parent[c.id()] == Some(x),
            self.in_subtree(x, root),
        ensures
            c != root,
            self.in_subtree(c, root),
            self.fuel(c) + 1 == self.fuel(x),
    {
        self.lemma_node_facts(c.id());
        self.lemma_node_facts(root.id());
        assert(self.ancestors_ok(c.id()));
        self.lemma_depth_bound(c.id());
        if c != root {
            lemma_ends_with_step(
                self.ancestors[c.id()],
                self.ancestors[x.id()],
                self.ancestors[root.id()],
                c,
            );
        }
    }

    /// The children in walk order: each is a child of `x`, one level deeper,
    /// and is followed in the walk by the next one.
    pub proof fn lemma_kids(self, rev: bool, x: Node, j: int)
        requires
            self.valid(),
            self.has(x),
            0 <= j < self.kids(rev, x).len(),
        ensures
            self.kids(rev, x).len() == self.children[x.id()].len(),
            self.has(self.kids(rev, x)[j]),
            self.parent[self.kids(rev, x)[j].id()] == Some(x),
            self.next_kid(rev, self.kids(rev, x)[j]) == (if j + 1 < self.kids(rev, x).len() {
                Some(self.kids(rev, x)[j + 1])
            } else {
                None
            }),
            self.first_kid(rev, x) == first_of(self.kids(rev, x)),
    {
        let ch = self.children[x.id()];
        let k = self.kids(rev, x);
        let len = ch.len() as int;
        assert(self.children_ok(x.id()));
        let jj = if rev {
            len - 1 - j
        } else {
            j
        };
        assert(k[j] == ch[jj]);
        let y = ch[jj];
        assert(y.id() < self.len());
        assert(self.siblings_ok(y.id()));
        assert(self.siblings[y.id()] == ch);
        self.lemma_position(y, jj);
        if rev {
            if j + 1 < len {
                assert(k[j + 1] == ch[jj - 1]);
            }
            assert(ch[len - 1] == k[0]);
        }
    }

    /// Within the walk of the subtree of `x`, each edge is followed by the
    /// edge that `step` gives; the walk opens and closes `x`.
    pub proof fn lemma_edges_step(self, rev: bool, root: Node, x: Node)
        requires
            self.valid(),
            self.has(x),
            self.has(root),
            self.in_subtree(x, root),
        ensures
            ({
                let t = self.edges(rev, x, self.fuel(x));
                &&& t.len() >= 2
                &&& t[0] == opening(rev, x)
                &&& t[t.len() - 1] == closing(rev, x)
                &&& forall|i: int|
                    0 <= i < t.len() - 1 ==> self.step(rev, root, #[trigger] t[i]) == Some(t[i + 1])
            }),
        decreases self.fuel(x) as int, 0int,
    {
        self.lemma_depth_bound(x.id());
        let k = self.kids(rev, x);
        let f = (self.fuel(x) - 1) as nat;
        let t = self.edges(rev, x, self.fuel(x));
        self.lemma_edges_of_step(rev, root, x, 0);
        assert(k.skip(0) =~= k);
        let l = self.edges_of(rev, k, f);
        assert(t == seq![opening(rev, x)] + l + seq![closing(rev, x)]);
        if k.len() > 0 {
            self.lemma_kids(rev, x, 0);
            let last = k[k.len() - 1];
            self.lemma_kids(rev, x, k.len() - 1);
            self.lemma_child_in_subtree(x, last, root);
        } else {
            self.lemma_kids_empty(rev, x);
        }
        assert forall|i: int| 0 <= i < t.len() - 1 implies self.step(rev, root, #[trigger] t[i])
            == Some(t[i + 1]) by {
            if i == 0 {
            } else if i < l.len() {
                assert(t[i] == l[i - 1]);
                assert(t[i + 1] == l[i]);
            } else {
                assert(t[i] == l[l.len() - 1]);
            }
        }
    }

    /// A node without children has no first child in either order.
    pub proof fn lemma_kids_empty(self, rev: bool, x: Node)
        requires
            self.kids(rev, x).len() == 0,
        ensures
            self.first_kid(rev, x) is None,
    {
        if rev {
            assert(self.children[x.id()].len() == 0);
        }
    }

    /// Within the walk of the subtrees of the children of `x` from the
    /// `j`-th on, each edge is followed by the edge that `step` gives.
    pub proof fn lemma_edges_of_step(self, rev: bool, root: Node, x: Node, j: int)
        requires
            self.valid(),
            self.has(x),
            self.has(root),
            self.in_subtree(x, root),
            0 <= j <= self.kids(rev, x).len(),
            self.fuel(x) >= 1,
        ensures
            ({
                let cs = self.kids(rev, x).skip(j);
                let l = self.edges_of(rev, cs, (self.fuel(x) - 1) as nat);
                &&& cs.len() == 0 ==> l.len() == 0
                &&& cs.len() > 0 ==> l.len() >= 2 && l[0] == opening(rev, cs[0]) && l[l.len()
                    - 1] == closing(rev, cs[cs.len() - 1])
                &&& forall|i: int|
                    0 <= i < l.len() - 1 ==> self.step(rev, root, #[trigger] l[i]) == Some(l[i + 1])
            }),
        decreases self.fuel(x) - 1, self.kids(rev, x).len() - j,
    {
        let k = self.kids(rev, x);
        let cs = k.skip(j);
        let f = (self.fuel(x) - 1) as nat;
        let l = self.edges_of(rev, cs, f);
        if cs.len() > 0 {
            let c = k[j];
            assert(cs[0] == c);
            self.lemma_kids(rev, x, j);
            self.lemma_child_in_subtree(x, c, root);
            assert(self.fuel(c) == f);
            self.lemma_edges_step(rev, root, c);
            self.lemma_edges_of_step(rev, root, x, j + 1);
            assert(cs.drop_first() =~= k.skip(j + 1));
            let tc = self.edges(rev, c, f);
            let rest = self.edges_of(rev, k.skip(j + 1), f);
            assert(l == tc + rest);
            if j + 1 < k.len() {
                assert(k.skip(j + 1)[0] == k[j + 1]);
                assert(cs[cs.len() - 1] == k.skip(j + 1)[k.skip(j + 1).len() - 1]);
            } else {
                assert(rest.len() == 0);
                assert(l =~= tc);
            }
            assert forall|i: int| 0 <= i < l.len() - 1 implies self.step(rev, root, #[trigger] l[i])
                == Some(l[i + 1]) by {
                if i < tc.len() - 1 {
                    assert(l[i] == tc[i] && l[i + 1] == tc[i + 1]);
                } else if i == tc.len() - 1 {
                    assert(l[i] == tc[i]);
                    assert(l[i + 1] == rest[0]);
                } else {
                    assert(l[i] == rest[i - tc.len()]);
                    assert(l[i + 1] == rest[i - tc.len() + 1]);
                }
            }
        }
    }
}


/// The nodes of the `Start` edges of `s`, in order.
pub open spec fn starts(s: Seq<NodeEdge<Node>>) -> Seq<Node>
    decreases s.len(),
{
    if s.len() == 0 {
        Seq::empty()
    } else {
        let rest = starts(s.drop_first());
        match s[0] {
            NodeEdge::Start(n) => seq![n] + rest,
            NodeEdge::End(_) => rest,
        }
    }
}

/// The rest of a sequence after its first element; empty stays empty.
pub open spec fn advance<A>(s: Seq<A>) -> Seq<A> {
    if s.len() > 0 {
        s.drop_first()
    } else {
        s
    }
}

/// The first element of a sequence of edges, if any.
pub open spec fn first_edge(s: Seq<NodeEdge<Node>>) -> Option<NodeEdge<Node>> {
    if s.len() > 0 {
        Some(s[0])
    } else {
        None
    }
}

impl<T> ArenaView<T> {
    /// The node `x` and its descendants, in tree order.
    pub open spec fn descendants(self, x: Node) -> Seq<Node> {
        starts(self.traversal(x))
    }

    /// The state of a walk over the subtree of `root`: `rest` is what is
    /// left of the walk and `next` its first edge.
    pub open spec fn walk_state(
        self,
        rev: bool,
        root: Node,
        next: Option<NodeEdge<Node>>,
        rest: Seq<NodeEdge<Node>>,
    ) -> bool {
        let full = self.edges(rev, root, self.fuel(root));
        &&& self.valid()
        &&& self.has(root)
        &&& rest.len() <= full.len()
        &&& rest == full.skip(full.len() - rest.len())
        &&& next == first_edge(rest)
    }

    /// The nodes of the edges of a walk are nodes of the arena.
    pub proof fn lemma_edges_in_range(self, rev: bool, x: Node, fuel: nat)
        requires
            self.valid(),
            self.has(x),
        ensures
            forall|i: int|
                0 <= i < self.edges(rev, x, fuel).len() ==> self.has(
                    #[trigger] edge_node(self.edges(rev, x, fuel)[i]),
                ),
        decreases fuel, 0int,
    {
        if fuel > 0 {
            self.lemma_edges_of_in_range(rev, x, 0, (fuel - 1) as nat);
            let k = self.kids(rev, x);
            assert(k.skip(0) =~= k);
            let l = self.edges_of(rev, k, (fuel - 1) as nat);
            let t = self.edges(rev, x, fuel);
            assert forall|i: int| 0 <= i < t.len() implies self.has(#[trigger] edge_node(t[i])) by {
                if 0 < i < t.len() - 1 {
                    assert(t[i] == l[i - 1]);
                }
            }
        }
    }

    pub proof fn lemma_edges_of_in_range(self, rev: bool, x: Node, j: int, fuel: nat)
        requires
            self.valid(),
            self.has(x),
            0 <= j <= self.kids(rev, x).len(),
        ensures
            forall|i: int|
                0 <= i < self.edges_of(rev, self.kids(rev, x).skip(j), fuel).len() ==> self.has(
                    #[trigger] edge_node(self.edges_of(rev, self.kids(rev, x).skip(j), fuel)[i]),
                ),
        decreases fuel, self.kids(rev, x).len() - j,
    {
        let k = self.kids(rev, x);
        let cs = k.skip(j);
        if cs.len() > 0 {
            self.lemma_kids(rev, x, j);
            self.lemma_edges_in_range(rev, k[j], fuel);
            self.lemma_edges_of_in_range(rev, x, j + 1, fuel);
            assert(cs.drop_first() =~= k.skip(j + 1));
            assert(cs[0] == k[j]);
            let l = self.edges_of(rev, cs, fuel);
            let tc = self.edges(rev, k[j], fuel);
            let rest = self.edges_of(rev, k.skip(j + 1), fuel);
            assert(l == tc + rest);
            assert forall|i: int| 0 <= i < l.len() implies self.has(#[trigger] edge_node(l[i])) by {
                if i < tc.len() {
                    assert(l[i] == tc[i]);
                } else {
                    assert(l[i] == rest[i - tc.len()]);
                }
            }
        }
    }

    /// One step of a walk: the next edge is the one `step` gives, or none
    /// after the last.
    pub proof fn lemma_walk_advance(self, rev: bool, root: Node, rest: Seq<NodeEdge<Node>>)
        requires
            self.walk_state(rev, root, first_edge(rest), rest),
            rest.len() > 0,
        ensures
            self.has(edge_node(rest[0])),
            self.step(rev, root, rest[0]) == first_edge(rest.drop_first()),
            self.walk_state(rev, root, first_edge(rest.drop_first()), rest.drop_first()),
    {
        let full = self.edges(rev, root, self.fuel(root));
        let i = full.len() - rest.len();
        self.lemma_node_facts(root.id());
        assert(self.in_subtree(root, root)) by {
            let a = self.ancestors[root.id()];
            assert(a.subrange(0, a.len() as int) =~= a);
        }
        self.lemma_edges_step(rev, root, root);
        self.lemma_edges_in_range(rev, root, self.fuel(root));
        assert(rest[0] == full[i]);
        assert(self.has(edge_node(full[i])));
        assert(rest.drop_first() =~= full.skip(i + 1));
        if i < full.len() - 1 {
            assert(rest.drop_first()[0] == full[i + 1]);
        }
    }
}

/// The node of an edge.
pub open spec fn edge_node(e: NodeEdge<Node>) -> Node {
    match e {
        NodeEdge::Start(n) => n,
        NodeEdge::End(n) => n,
    }
}

/// An iterator of the start and end edges of a given node and its
/// descendants, in tree order.
pub struct Traverse<'a, T> {
    arena: &'a Arena<T>,
    root: Node,
    next: Option<NodeEdge<Node>>,
    rest: Ghost<Seq<NodeEdge<Node>>>,
}

/// An iterator of the start and end edges of a given node and its
/// descendants, in reverse tree order.
pub struct ReverseTraverse<'a, T> {
    arena: &'a Arena<T>,
    root: Node,
    next: Option<NodeEdge<Node>>,
    rest: Ghost<Seq<NodeEdge<Node>>>,
}

impl<'a, T> Traverse<'a, T> {
    /// The iterator is consistent with the arena it walks.
    pub closed spec fn inv(&self) -> bool {
        &&& self.arena.wf()
        &&& self.arena@.walk_state(false, self.root, self.next, self.rest@)
    }

    /// The edges the iterator has yet to yield.
    pub closed spec fn rest(&self) -> Seq<NodeEdge<Node>> {
        self.rest@
    }

    /// Yield the next edge.
    pub fn next(&mut self) -> (r: Option<NodeEdge<Node>>)
        requires
            old(self).inv(),
        ensures
            final(self).inv(),
            r == first_edge(old(self).rest()),
            final(self).rest() == advance(old(self).rest()),
    {
        match self.next {
            Some(item) => {
                proof {
                    self.arena.lemma_valid();
                    self.arena@.lemma_walk_advance(false, self.root, self.rest@);
                }
                self.next = step_edge(self.arena, false, self.root, item);
                proof {
                    self.rest@ = self.rest@.drop_first();
                }
                Some(item)
            },
            None => None,
        }
    }
}

impl<'a, T> ReverseTraverse<'a, T> {
    /// The iterator is consistent with the arena it walks.
    pub closed spec fn inv(&self) -> bool {
        &&& self.arena.wf()
        &&& self.arena@.walk_state(true, self.root, self.next, self.rest@)
    }

    /// The edges the iterator has yet to yield.
    pub closed spec fn rest(&self) -> Seq<NodeEdge<Node>> {
        self.rest@
    }

    /// Yield the next edge.
    pub fn next(&mut self) -> (r: Option<NodeEdge<Node>>)
        requires
            old(self).inv(),
        ensures
            final(self).inv(),
            r == first_edge(old(self).rest()),
            final(self).rest() == advance(old(self).rest()),
    {
        match self.next {
            Some(item) => {
                proof {
                    self.arena.lemma_valid();
                    self.arena@.lemma_walk_advance(true, self.root, self.rest@);
                }
                self.next = step_edge(self.arena, true, self.root, item);
                proof {
                    self.rest@ = self.rest@.drop_first();
                }
                Some(item)
            },
            None => None,
        }
    }
}

/// The edge after `item` in a walk over the subtree of `root`: in tree
/// order, a start edge leads to the first child or to the end of the same
/// node, and an end edge to the next sibling or to the end of the parent;
/// the walk stops at the end of `root`. In reverse order the roles of first
/// and last, next and previous, start and end are swapped.
fn step_edge<T>(arena: &Arena<T>, rev: bool, root: Node, item: NodeEdge<Node>) -> (r: Option<
    NodeEdge<Node>,
>)
    requires
        arena.wf(),
        arena@.has(edge_node(item)),
    ensures
        r == arena@.step(rev, root, item),
{
    let (is_open, node) = match item {
        NodeEdge::Start(node) => (!rev, node),
        NodeEdge::End(node) => (rev, node),
    };
    if is_open {
        let child = if rev {
            node.last_child(arena)
        } else {
            node.first_child(arena)
        };
        match child {
            Some(child) => Some(open_edge(rev, child)),
            None => Some(close_edge(rev, node)),
        }
    } else if node.same_node(root) {
        None
    } else {
        let sibling = if rev {
            node.previous_sibling(arena)
        } else {
            node.next_sibling(arena)
        };
        match sibling {
            Some(sibling) => Some(open_edge(rev, sibling)),
            None => match node.parent(arena) {
                Some(parent) => Some(close_edge(rev, parent)),
                // A consistent tree never gets here: a node other than the
                // root that is the last of its siblings has a parent.
                None => None,
            },
        }
    }
}

fn open_edge(rev: bool, n: Node) -> (e: NodeEdge<Node>)
    ensures
        e == opening(rev, n),
{
    if rev {
        NodeEdge::End(n)
    } else {
        NodeEdge::Start(n)
    }
}

fn close_edge(rev: bool, n: Node) -> (e: NodeEdge<Node>)
    ensures
        e == closing(rev, n),
{
    if rev {
        NodeEdge::Start(n)
    } else {
        NodeEdge::End(n)
    }
}

impl Node {
    /// Return an iterator of `NodeEdge` enums for each node and its
    /// descendants, in tree order.
    ///
    /// `NodeEdge` enums represent the `Start` or `End` of each node.
    pub fn traverse<'a, T>(self, arena: &'a Arena<T>) -> (r: Traverse<'a, T>)
        requires
            arena.wf(),
            arena@.has(self),
        ensures
            r.inv(),
            r.rest() == arena@.traversal(self),
    {
        proof {
            let full = arena@.traversal(self);
            arena.lemma_valid();
            arena@.lemma_node_facts(self.id());
            let a = arena@.ancestors[self.id()];
            assert(a.subrange(0, a.len() as int) =~= a);
            arena@.lemma_edges_step(false, self, self);
            assert(full.skip(0) =~= full);
        }
        Traverse { arena, root: self, next: Some(NodeEdge::Start(self)), rest: Ghost(arena@.traversal(self)) }
    }

    /// Return an iterator of `NodeEdge` enums for each node and its
    /// descendants, in *reverse* order.
    pub fn reverse_traverse<'a, T>(self, arena: &'a Arena<T>) -> (r: ReverseTraverse<'a, T>)
        requires
            arena.wf(),
            arena@.has(self),
        ensures
            r.inv(),
            r.rest() == arena@.reverse_traversal(self),
    {
        proof {
            let full = arena@.reverse_traversal(self);
            arena.lemma_valid();
            arena@.lemma_node_facts(self.id());
            let a = arena@.ancestors[self.id()];
            assert(a.subrange(0, a.len() as int) =~= a);
            arena@.lemma_edges_step(true, self, self);
            assert(full.skip(0) =~= full);
        }
        ReverseTraverse {
            arena,
            root: self,
            next: Some(NodeEdge::End(self)),
            rest: Ghost(arena@.reverse_traversal(self)),
        }
    }
}


/// An iterator of a given node and its descendants, in tree order.
pub struct Descendants<'a, T>(Traverse<'a, T>);

impl<'a, T> Descendants<'a, T> {
    /// The iterator is consistent with the arena it walks.
    pub closed spec fn inv(&self) -> bool {
        self.0.inv()
    }

    /// The nodes the iterator has yet to yield.
    pub closed spec fn rest(&self) -> Seq<Node> {
        starts(self.0.rest())
    }

    /// Yield the next node: skip end edges up to the next start edge.
    pub fn next(&mut self) -> (r: Option<Node>)
        requires
            old(self).inv(),
        ensures
            final(self).inv(),
            r == first_of(old(self).rest()),
            final(self).rest() == advance(old(self).rest()),
    {
        loop
            invariant
                self.inv(),
                starts(self.0.rest()) == starts(old(self).0.rest()),
            decreases self.0.rest().len(),
        {
            let ghost before = self.0.rest();
            match self.0.next() {
                Some(NodeEdge::Start(node)) => {
                    assert(starts(before) == seq![node] + starts(before.drop_first()));
                    assert(starts(before)[0] == node);
                    assert(starts(before).drop_first() =~= starts(before.drop_first()));
                    return Some(node);
                },
                Some(NodeEdge::End(_)) => {},
                None => {
                    return None;
                },
            }
        }
    }
}

impl Node {
    /// Return an iterator of this node and its descendants, in tree order.
    ///
    /// Parent nodes appear before the descendants.
    /// Call `.next().unwrap()` once on the iterator to skip the node itself.
    pub fn descendants<'a, T>(self, arena: &'a Arena<T>) -> (r: Descendants<'a, T>)
        requires
            arena.wf(),
            arena@.has(self),
        ensures
            r.inv(),
            r.rest() == arena@.descendants(self),
    {
        Descendants(self.traverse(arena))
    }
}


/// The start nodes of two walks one after the other are those of the first
/// walk followed by those of the second.
pub proof fn lemma_starts_add(a: Seq<NodeEdge<Node>>, b: Seq<NodeEdge<Node>>)
    ensures
        starts(a + b) == starts(a) + starts(b),
    decreases a.len(),
{
    if a.len() == 0 {
        assert(a + b =~= b);
    } else {
        assert((a + b).drop_first() =~= a.drop_first() + b);
        lemma_starts_add(a.drop_first(), b);
    }
}

impl<T> ArenaView<T> {
    /// The child of `x` on the way from `x` down to `y`.
    pub open spec fn toward(self, y: Node, x: Node) -> Node {
        let ay = self.ancestors[y.id()];
        ay[ay.len() - self.ancestors[x.id()].len() - 1]
    }

    /// A node strictly under `x` lies under exactly one child of `x`: the one
    /// toward it.
    pub proof fn lemma_toward(self, y: Node, x: Node)
        requires
            self.valid(),
            self.has(x),
            self.has(y),
            self.in_subtree(y, x),
            y != x,
        ensures
            self.has(self.toward(y, x)),
            self.parent[self.toward(y, x).id()] == Some(x),
            self.in_subtree(y, self.toward(y, x)),
    {
        let ay = self.ancestors[y.id()];
        let ax = self.ancestors[x.id()];
        self.lemma_node_facts(y.id());
        self.lemma_node_facts(x.id());
        if ay.len() == ax.len() {
            assert(ay.subrange(0, ay.len() as int) =~= ay);
            assert(ay[0] == ax[0]);
        }
        let j = ay.len() - ax.len() - 1;
        let t = ay[j];
        self.lemma_ancestors_suffix(y.id(), j);
        let at = self.ancestors[t.id()];
        assert(at == ay.skip(j));
        self.lemma_node_facts(t.id());
        assert(self.ancestors_ok(t.id()));
        assert(at.len() == ax.len() + 1);
        match self.parent[t.id()] {
            Some(q) => {
                self.lemma_node_facts(q.id());
                assert(self.ancestors[q.id()] =~= at.drop_first());
                assert(ay.subrange(ay.len() - ax.len(), ay.len() as int) =~= at.drop_first());
                assert(self.ancestors[q.id()] == ax);
                assert(self.ancestors[q.id()][0] == q);
                assert(q == x);
            },
            None => {
                assert(at.len() == 1);
                assert(ax.len() >= 1);
            },
        }
        assert(ay.subrange(ay.len() - at.len(), ay.len() as int) =~= ay.skip(j));
    }

    /// For a child `c` of `x`: `y` lies under `c` exactly when `y` lies
    /// strictly under `x` and `c` is the child toward it.
    pub proof fn lemma_under_child(self, y: Node, x: Node, c: Node)
        requires
            self.valid(),
            self.has(x),
            self.has(y),
            self.has(c),
            self.parent[c.id()] == Some(x),
        ensures
            self.in_subtree(y, c) <==> (self.in_subtree(y, x) && y != x && self.toward(y, x)
                == c),
    {
        let ay = self.ancestors[y.id()];
        let ax = self.ancestors[x.id()];
        let ac = self.ancestors[c.id()];
        self.lemma_node_facts(c.id());
        self.lemma_node_facts(x.id());
        self.lemma_node_facts(y.id());
        assert(self.ancestors_ok(c.id()));
        assert(ac == seq![c] + ax);
        if self.in_subtree(y, c) {
            let cut = ay.len() - ac.len();
            assert(ay.subrange(ay.len() - ax.len(), ay.len() as int) =~= ay.subrange(
                cut,
                ay.len() as int,
            ).drop_first());
            assert(ac.drop_first() =~= ax);
            assert(ay[cut] == ay.subrange(cut, ay.len() as int)[0]);
            if y == x {
                assert(ay.len() == ax.len());
            }
        }
        if self.in_subtree(y, x) && y != x && self.toward(y, x) == c {
            self.lemma_toward(y, x);
        }
    }

    /// The start nodes of the walk of the children of `x` from the `j`-th on
    /// are, without repeats, the nodes strictly under `x` whose way down
    /// passes through a child at position `j` or later.
    pub proof fn lemma_starts_of(self, x: Node, j: int)
        requires
            self.valid(),
            self.has(x),
            0 <= j <= self.children[x.id()].len(),
            self.fuel(x) >= 1,
        ensures
            ({
                let d = starts(
                    self.edges_of(false, self.children[x.id()].skip(j), (self.fuel(x) - 1) as nat),
                );
                &&& d.no_duplicates()
                &&& forall|y: Node|
                    #![trigger d.contains(y)]
                    d.contains(y) <==> (self.has(y) && self.in_subtree(y, x) && y != x
                        && self.position(self.toward(y, x)) >= j)
            }),
        decreases self.fuel(x) - 1, self.children[x.id()].len() - j,
    {
        let ch = self.children[x.id()];
        let cs = ch.skip(j);
        let f = (self.fuel(x) - 1) as nat;
        let d = starts(self.edges_of(false, cs, f));
        assert(self.children_ok(x.id()));
        if cs.len() == 0 {
            assert forall|y: Node|
                !(self.has(y) && self.in_subtree(y, x) && y != x && self.position(self.toward(y, x))
                    >= j) by {
                if self.has(y) && self.in_subtree(y, x) && y != x {
                    let t = self.toward(y, x);
                    self.lemma_toward(y, x);
                    self.lemma_node_facts(t.id());
                    assert(self.siblings[t.id()] == ch);
                    lemma_index_of_contains(ch, t);
                }
            }
        } else {
            let c = ch[j];
            assert(cs[0] == c);
            assert(cs.drop_first() =~= ch.skip(j + 1));
            self.lemma_kids(false, x, j);
            self.lemma_node_facts(c.id());
            self.lemma_node_facts(x.id());
            assert(self.ancestors_ok(c.id()));
            self.lemma_depth_bound(c.id());
            assert(self.fuel(c) == f);
            self.lemma_starts(c);
            self.lemma_starts_of(x, j + 1);
            let dc = starts(self.edges(false, c, f));
            let dr = starts(self.edges_of(false, ch.skip(j + 1), f));
            lemma_starts_add(self.edges(false, c, f), self.edges_of(false, ch.skip(j + 1), f));
            assert(d == dc + dr);
            assert(self.siblings[c.id()] == ch);
            self.lemma_position(c, j);
            assert forall|y: Node| #![trigger d.contains(y)] d.contains(y) <==> (self.has(y)
                && self.in_subtree(y, x) && y != x && self.position(self.toward(y, x)) >= j) by {
                if self.has(y) {
                    self.lemma_under_child(y, x, c);
                    if self.in_subtree(y, x) && y != x {
                        let t = self.toward(y, x);
                        self.lemma_toward(y, x);
                        self.lemma_node_facts(t.id());
                        assert(self.siblings[t.id()] == ch);
                        lemma_index_of_contains(ch, t);
                        if self.position(t) == j {
                            assert(t == c);
                        }
                    }
                }
                if d.contains(y) {
                    let k = d.index_of(y);
                    lemma_index_of_contains(d, y);
                    if k < dc.len() {
                        assert(dc.contains(dc[k]));
                    } else {
                        assert(dr.contains(dr[k - dc.len()]));
                    }
                }
                if dc.contains(y) {
                    let k = dc.index_of(y);
                    lemma_index_of_contains(dc, y);
                    assert(d[k] == y);
                }
                if dr.contains(y) {
                    let k = dr.index_of(y);
                    lemma_index_of_contains(dr, y);
                    assert(d[k + dc.len()] == y);
                }
            }
            assert(d.no_duplicates()) by {
                assert forall|a: int, b: int|
                    0 <= a < d.len() && 0 <= b < d.len() && a != b implies d[a] != d[b] by {
                    if a < dc.len() && b >= dc.len() {
                        assert(dc.contains(d[a]));
                        assert(dr.contains(d[b]));
                        self.lemma_under_child(d[a], x, c);
                    } else if b < dc.len() && a >= dc.len() {
                        assert(dc.contains(d[b]));
                        assert(dr.contains(d[a]));
                        self.lemma_under_child(d[b], x, c);
                    } else if a < dc.len() {
                        assert(d[a] == dc[a] && d[b] == dc[b]);
                    } else {
                        assert(d[a] == dr[a - dc.len()] && d[b] == dr[b - dc.len()]);
                    }
                }
            }
        }
    }

    /// The nodes of the tree-order walk of `x` are, without repeats, the nodes
    /// of the subtree of `x`.
    pub proof fn lemma_starts(self, x: Node)
        requires
            self.valid(),
            self.has(x),
        ensures
            ({
                let d = starts(self.edges(false, x, self.fuel(x)));
                &&& d.no_duplicates()
                &&& d.len() > 0
                &&& d[0] == x
                &&& forall|y: Node|
                    #![trigger d.contains(y)]
                    d.contains(y) <==> (self.has(y) && self.in_subtree(y, x))
            }),
        decreases self.fuel(x), 0int,
    {
        self.lemma_depth_bound(x.id());
        self.lemma_node_facts(x.id());
        let ch = self.children[x.id()];
        let f = (self.fuel(x) - 1) as nat;
        self.lemma_starts_of(x, 0);
        assert(ch.skip(0) =~= ch);
        let l = self.edges_of(false, ch, f);
        let d0 = starts(l);
        let t = self.edges(false, x, self.fuel(x));
        assert(t == seq![NodeEdge::Start(x)] + l + seq![NodeEdge::End(x)]);
        lemma_starts_add(seq![NodeEdge::Start(x)] + l, seq![NodeEdge::End(x)]);
        lemma_starts_add(seq![NodeEdge::Start(x)], l);
        let se = seq![NodeEdge::End(x)];
        assert(starts(se) == starts(se.drop_first()));
        assert(se.drop_first() =~= Seq::<NodeEdge<Node>>::empty());
        let ss = seq![NodeEdge::<Node>::Start(x)];
        assert(starts(ss) == seq![x] + starts(ss.drop_first()));
        assert(ss.drop_first() =~= Seq::<NodeEdge<Node>>::empty());
        let d = starts(t);
        assert(d =~= seq![x] + d0);
        let ax = self.ancestors[x.id()];
        assert(ends_with(ax, ax)) by {
            assert(ax.subrange(0, ax.len() as int) =~= ax);
        }
        assert forall|y: Node| #![trigger d.contains(y)] d.contains(y) <==> (self.has(y)
            && self.in_subtree(y, x)) by {
            if self.has(y) && self.in_subtree(y, x) && y != x {
                let tt = self.toward(y, x);
                self.lemma_toward(y, x);
                self.lemma_node_facts(tt.id());
                lemma_index_of_contains(self.siblings[tt.id()], tt);
                assert(d0.contains(y));
                let k = d0.index_of(y);
                lemma_index_of_contains(d0, y);
                assert(d[k + 1] == y);
            }
            if d.contains(y) {
                let k = d.index_of(y);
                lemma_index_of_contains(d, y);
                if k > 0 {
                    assert(d0.contains(d0[k - 1]));
                }
            }
            if y == x {
                assert(d[0] == x);
            }
        }
        assert(d.no_duplicates()) by {
            assert forall|a: int, b: int|
                0 <= a < d.len() && 0 <= b < d.len() && a != b implies d[a] != d[b] by {
                if a == 0 {
                    assert(d0.contains(d[b]));
                } else if b == 0 {
                    assert(d0.contains(d[a]));
                } else {
                    assert(d[a] == d0[a - 1] && d[b] == d0[b - 1]);
                }
            }
        }
    }
}

} // verus!
