use vstd::prelude::*;
use crate::model::{ArenaView, Links, Node, lemma_index_of_contains};
use crate::forest::{forms_forest, shape_of, lemma_sound, lemma_complete, lemma_unique, is_forest};

verus! {

/// The storage of a tree: every node lives here and is named by a [`Node`].
/// Node `i` has the links `slots[i]` and holds `data[i]`.
pub struct Arena<T> {
    slots: Vec<Links>,
    data: Vec<T>,
}

impl<T> View for Arena<T> {
    type V = ArenaView<T>;

    /// The state that the stored links describe.
    closed spec fn view(&self) -> ArenaView<T> {
        shape_of(self.slots@, self.data@)
    }
}

/// The links of a node with no parent, sibling or child.
pub open spec fn unlinked() -> Links {
    Links {
        parent: None,
        previous_sibling: None,
        next_sibling: None,
        first_child: None,
        last_child: None,
    }
}

/// A well-formed arena has one link record per node, and they agree with its state.
pub broadcast proof fn lemma_wf_links<T>(a: &Arena<T>)
    requires
        a.wf(),
    ensures
        #[trigger] a.links().len() == a@.len(),
        a@.agrees(a.links()),
{
    assert forall|i: int| 0 <= i < a@.len() implies #[trigger] a@.agrees_at(a.links(), i) by {
        assert(a.links_ok(i));
    }
}

impl<T> Arena<T> {
    /// The links stored for node `i` are those of the abstract state.
    closed spec fn links_ok(&self, i: int) -> bool {
        let s = self.slots@[i];
        let v = self@;
        let n = Node { index: i as usize };
        &&& s.previous_sibling == v.previous_sibling(n)
        &&& s.next_sibling == v.next_sibling(n)
        &&& s.first_child == v.first_child(n)
        &&& s.last_child == v.last_child(n)
    }

    /// The arena holds a valid forest and its links agree with it.
    pub closed spec fn wf(&self) -> bool {
        &&& self.slots@.len() == self.data@.len()
        &&& self@.valid()
        &&& forall|i: int| 0 <= i < self@.len() ==> #[trigger] self.links_ok(i)
    }

    /// The links stored for each node, as they are, whether or not they
    /// form a forest.
    pub closed spec fn links(&self) -> Seq<Links> {
        self.slots@
    }

    /// The arena is well formed exactly when it has one link record per node
    /// and the links form a forest.
    pub proof fn lemma_wf_iff(&self)
        ensures
            self.wf() <==> (self.links().len() == self@.len() && forms_forest(self.links())),
    {
        if self.wf() {
            lemma_wf_links(self);
            lemma_complete(self@, self.links());
        }
        if self.links().len() == self@.len() && forms_forest(self.links()) {
            lemma_sound(self.slots@, self.data@);
            assert forall|i: int| 0 <= i < self@.len() implies #[trigger] self.links_ok(i) by {
                assert(self@.agrees_at(self.slots@, i));
            }
        }
    }

    /// The state of an arena is the one its links describe.
    pub proof fn lemma_view_of_links(&self)
        ensures
            self@ == shape_of(self.links(), self@.data),
    {
    }

    /// Whether the links of the arena form a forest, which the walks and the
    /// editing operations need.
    pub fn is_tree(&self) -> (r: bool)
        ensures
            r == self.wf(),
            r == (self.links().len() == self@.len() && forms_forest(self.links())),
    {
        proof {
            self.lemma_wf_iff();
        }
        self.slots.len() == self.data.len() && is_forest(&self.slots)
    }

    /// A well-formed arena holds a valid state.
    pub proof fn lemma_valid(&self)
        requires
            self.wf(),
        ensures
            self@.valid(),
    {
    }

    /// An empty arena.
    pub fn new() -> (a: Self)
        ensures
            a.wf(),
            a@.len() == 0,
            a.links().len() == 0,
    {
        let a = Arena { slots: Vec::new(), data: Vec::new() };
        proof {
            assert(a@.children =~= Seq::<Seq<Node>>::empty());
            assert(a@.siblings =~= Seq::<Seq<Node>>::empty());
            assert(a@.ancestors =~= Seq::<Seq<Node>>::empty());
        }
        a
    }

    /// The arena whose nodes have the links `links` and hold `data`.
    pub(crate) fn from_parts(links: Vec<Links>, data: Vec<T>) -> (a: Self)
        requires
            data@.len() == links@.len(),
        ensures
            a.links() == links@,
            a@.data == data@,
            a.wf() <==> forms_forest(links@),
            a@ == shape_of(links@, data@),
    {
        let a = Arena { slots: links, data };
        proof {
            a.lemma_wf_iff();
        }
        a
    }

    /// The number of nodes.
    pub fn len(&self) -> (n: usize)
        ensures
            n == self@.len(),
    {
        self.data.len()
    }

    /// An arena whose links agree with a valid state that holds its data is
    /// well formed and has that state.
    proof fn settle(&self, w: ArenaView<T>)
        requires
            w.valid(),
            w.data == self.data@,
            w.agrees(self.slots@),
        ensures
            self.wf(),
            self@ == w,
    {
        lemma_unique(w, self.slots@);
        assert forall|i: int| 0 <= i < self@.len() implies #[trigger] self.links_ok(i) by {
            assert(w.agrees_at(self.slots@, i));
        }
    }

    /// Well-formedness does not depend on what the nodes hold.
    proof fn lemma_wf_any_data(&self)
        ensures
            forall|b: Arena<T>|
                #![trigger b.wf()]
                b.slots == self.slots && b.data@.len() == self.data@.len() ==> b.wf() == self.wf(),
    {
        assert forall|b: Arena<T>|
            b.slots == self.slots && b.data@.len() == self.data@.len() implies b.wf() == self.wf() by {
            b.lemma_wf_iff();
            self.lemma_wf_iff();
        }
    }
}

impl Node {
    /// Create a new node holding `data`, with no parent, sibling or child.
    pub fn new<T>(arena: &mut Arena<T>, data: T) -> (n: Node)
        requires
            old(arena).links().len() == old(arena)@.len(),
            old(arena)@.len() + 1 < usize::MAX,
        ensures
            n.index == old(arena)@.len(),
            final(arena).links() == old(arena).links().push(unlinked()),
            final(arena)@.data == old(arena)@.data.push(data),
            old(arena).wf() ==> final(arena).wf() && final(arena)@ == old(arena)@.pushed(data),
    {
        let n = Node { index: arena.slots.len() };
        arena.slots.push(
            Links {
                parent: None,
                previous_sibling: None,
                next_sibling: None,
                first_child: None,
                last_child: None,
            },
        );
        arena.data.push(data);
        proof {
            if old(arena).wf() {
                let v = old(arena)@;
                let w = v.pushed(data);
                lemma_wf_links(old(arena));
                v.lemma_pushed(data);
                assert forall|i: int| 0 <= i < w.len() implies #[trigger] w.agrees_at(arena.slots@, i) by {
                    if i < v.len() {
                        assert(v.agrees_at(old(arena).slots@, i));
                    }
                }
                lemma_unique(w, arena.slots@);
                assert(arena@ == w);
                arena.lemma_wf_iff();
                lemma_complete(w, arena.slots@);
            }
        }
        n
    }
}


impl Node {
    /// Return the parent of this node, unless it is the root of its tree.
    pub fn parent<T>(self, arena: &Arena<T>) -> (r: Option<Node>)
        requires
            self.id() < arena.links().len(),
        ensures
            r == arena.links()[self.id()].parent,
            r == arena@.parent[self.id()],
    {
        arena.slots[self.index].parent
    }

    /// Return the first child of this node, unless it has no child.
    pub fn first_child<T>(self, arena: &Arena<T>) -> (r: Option<Node>)
        requires
            self.id() < arena.links().len(),
        ensures
            r == arena.links()[self.id()].first_child,
            arena.wf() ==> r == arena@.first_child(self),
    {
        proof {
            if arena.wf() {
                assert(arena.links_ok(self.id()));
            }
        }
        arena.slots[self.index].first_child
    }

    /// Return the last child of this node, unless it has no child.
    pub fn last_child<T>(self, arena: &Arena<T>) -> (r: Option<Node>)
        requires
            self.id() < arena.links().len(),
        ensures
            r == arena.links()[self.id()].last_child,
            arena.wf() ==> r == arena@.last_child(self),
    {
        proof {
            if arena.wf() {
                assert(arena.links_ok(self.id()));
            }
        }
        arena.slots[self.index].last_child
    }

    /// Return the previous sibling of this node, unless it is a first child.
    pub fn previous_sibling<T>(self, arena: &Arena<T>) -> (r: Option<Node>)
        requires
            self.id() < arena.links().len(),
        ensures
            r == arena.links()[self.id()].previous_sibling,
            arena.wf() ==> r == arena@.previous_sibling(self),
    {
        proof {
            if arena.wf() {
                assert(arena.links_ok(self.id()));
            }
        }
        arena.slots[self.index].previous_sibling
    }

    /// Return the next sibling of this node, unless it is a last child.
    pub fn next_sibling<T>(self, arena: &Arena<T>) -> (r: Option<Node>)
        requires
            self.id() < arena.links().len(),
        ensures
            r == arena.links()[self.id()].next_sibling,
            arena.wf() ==> r == arena@.next_sibling(self),
    {
        proof {
            if arena.wf() {
                assert(arena.links_ok(self.id()));
            }
        }
        arena.slots[self.index].next_sibling
    }

    /// Returns whether two handles name the same node.
    pub fn same_node(self, other: Node) -> (r: bool)
        ensures
            r == (self == other),
    {
        self.index == other.index
    }

    /// Detach a node from its parent and siblings. Children are not affected.
    pub fn detach<T>(self, arena: &mut Arena<T>)
        requires
            old(arena).wf(),
            old(arena)@.has(self),
        ensures
            final(arena).wf(),
            final(arena)@ == old(arena)@.detached(self),
    {
        let ghost v = arena@;
        proof {
            assert(arena.links_ok(self.id()));
            v.lemma_detached_valid(self);
            v.lemma_detached_links(self);
            v.lemma_node_facts(self.id());
            v.lemma_links_in_range(self);
        }
        let i = self.index;
        let parent = arena.slots[i].parent;
        let previous_sibling = arena.slots[i].previous_sibling;
        let next_sibling = arena.slots[i].next_sibling;
        arena.slots[i].parent = None;
        arena.slots[i].previous_sibling = None;
        arena.slots[i].next_sibling = None;
        if let Some(next_sibling) = next_sibling {
            arena.slots[next_sibling.index].previous_sibling = previous_sibling;
        } else if let Some(parent) = parent {
            arena.slots[parent.index].last_child = previous_sibling;
        }
        if let Some(previous_sibling) = previous_sibling {
            arena.slots[previous_sibling.index].next_sibling = next_sibling;
        } else if let Some(parent) = parent {
            arena.slots[parent.index].first_child = next_sibling;
        }
        proof {
            let w = v.detached(self);
            assert forall|x: int| 0 <= x < w.len() implies #[trigger] w.agrees_at(arena.slots@, x) by {
                assert(old(arena).links_ok(x));
                let nx = Node { index: x as usize };
                assert(w.has(nx));
                if next_sibling == Some(nx) || previous_sibling == Some(nx) {
                    assert(v.parent[self.id()] != Some(nx)) by {
                        v.lemma_node_facts(x);
                        assert(v.siblings_ok(self.id()));
                        assert(v.siblings_ok(x));
                    }
                }
                let sx = arena.slots@[x];
                assert(sx.previous_sibling == w.previous_sibling(nx));
                assert(sx.next_sibling == w.next_sibling(nx));
                assert(sx.first_child == w.first_child(nx));
                assert(sx.last_child == w.last_child(nx));
            }
            arena.settle(w);
        }
    }
}


impl<T> Arena<T> {
    /// Link the lone node `c` into `list` at position `m` under `par`, between
    /// `prev` and `next`.
    #[verifier::rlimit(40)]
    fn splice(
        &mut self,
        c: Node,
        par: Option<Node>,
        prev: Option<Node>,
        next: Option<Node>,
        Ghost(list): Ghost<Seq<Node>>,
        Ghost(m): Ghost<int>,
    )
        requires
            old(self).wf(),
            old(self)@.can_splice(c, par, list, m),
            prev == (if m > 0 {
                Some(list[m - 1])
            } else {
                None
            }),
            next == (if m < list.len() {
                Some(list[m])
            } else {
                None
            }),
        ensures
            final(self).wf(),
            final(self)@ == old(self)@.spliced(c, par, list.insert(m, c)),
    {
        let ghost v = self@;
        proof {
            v.lemma_spliced_valid(c, par, list, m);
            v.lemma_spliced_links(c, par, list, m);
            if list.len() > 0 {
                v.lemma_sibling_list_members(par, list, 0);
            }
            if m > 0 {
                v.lemma_sibling_list_members(par, list, m - 1);
            }
            if m < list.len() {
                v.lemma_sibling_list_members(par, list, m);
            }
        }
        self.slots[c.index].parent = par;
        self.slots[c.index].previous_sibling = prev;
        self.slots[c.index].next_sibling = next;
        if let Some(prev) = prev {
            self.slots[prev.index].next_sibling = Some(c);
        } else if let Some(par) = par {
            self.slots[par.index].first_child = Some(c);
        }
        if let Some(next) = next {
            self.slots[next.index].previous_sibling = Some(c);
        } else if let Some(par) = par {
            self.slots[par.index].last_child = Some(c);
        }
        proof {
            let w = v.spliced(c, par, list.insert(m, c));
            assert forall|x: int| 0 <= x < w.len() implies #[trigger] w.agrees_at(self.slots@, x) by {
                assert(old(self).links_ok(x));
                let nx = Node { index: x as usize };
                assert(w.has(nx));
                if par == Some(nx) {
                    assert(nx != c) by {
                        let ac = v.ancestors[c.id()];
                        assert(ac.subrange(0, ac.len() as int) =~= ac);
                    }
                    if m > 0 {
                        assert(list[m - 1] != nx) by {
                            v.lemma_node_facts(x);
                        }
                    }
                    if m < list.len() {
                        assert(list[m] != nx) by {
                            v.lemma_node_facts(x);
                        }
                    }
                }
                if m > 0 && m < list.len() {
                    assert(list[m - 1] != list[m]);
                }
            }
            self.settle(w);
        }
    }
}

impl Node {
    /// Append a new child to this node, after existing children.
    pub fn append<T>(self, arena: &mut Arena<T>, new_child: Node)
        requires
            old(arena).wf(),
            old(arena)@.has(self),
            old(arena)@.has(new_child),
            !old(arena)@.in_subtree(self, new_child),
        ensures
            final(arena).wf(),
            final(arena)@ == old(arena)@.appended(self, new_child),
    {
        let ghost v = arena@;
        new_child.detach(arena);
        let ghost w = arena@;
        let ghost list = w.children[self.id()];
        proof {
            w.lemma_links_in_range(self);
            assert(w.children_ok(self.id()));
            assert(!list.contains(new_child)) by {
                v.lemma_detached_lone(new_child);
                if list.contains(new_child) {
                    let j = list.index_of(new_child);
                    lemma_index_of_contains(list, new_child);
                }
            }
            v.lemma_ready(Some(self), new_child, list, list.len() as int);
            assert(list.insert(list.len() as int, new_child) =~= list.push(new_child));
            assert(arena.links_ok(self.id()));
        }
        let last_child = arena.slots[self.index].last_child;
        arena.splice(new_child, Some(self), last_child, None, Ghost(list), Ghost(list.len() as int));
    }

    /// Prepend a new child to this node, before existing children.
    pub fn prepend<T>(self, arena: &mut Arena<T>, new_child: Node)
        requires
            old(arena).wf(),
            old(arena)@.has(self),
            old(arena)@.has(new_child),
            !old(arena)@.in_subtree(self, new_child),
        ensures
            final(arena).wf(),
            final(arena)@ == old(arena)@.prepended(self, new_child),
    {
        let ghost v = arena@;
        new_child.detach(arena);
        let ghost w = arena@;
        let ghost list = w.children[self.id()];
        proof {
            w.lemma_links_in_range(self);
            assert(w.children_ok(self.id()));
            assert(!list.contains(new_child)) by {
                v.lemma_detached_lone(new_child);
                if list.contains(new_child) {
                    let j = list.index_of(new_child);
                    lemma_index_of_contains(list, new_child);
                }
            }
            v.lemma_ready(Some(self), new_child, list, 0);
            assert(list.insert(0, new_child) =~= seq![new_child] + list);
            assert(arena.links_ok(self.id()));
        }
        let first_child = arena.slots[self.index].first_child;
        arena.splice(new_child, Some(self), None, first_child, Ghost(list), Ghost(0));
    }

    /// Insert a new sibling after this node.
    pub fn insert_after<T>(self, arena: &mut Arena<T>, new_sibling: Node)
        requires
            old(arena).wf(),
            old(arena)@.has(self),
            old(arena)@.has(new_sibling),
            !old(arena)@.in_subtree(self, new_sibling),
        ensures
            final(arena).wf(),
            final(arena)@ == old(arena)@.inserted_after(self, new_sibling),
    {
        let ghost v = arena@;
        new_sibling.detach(arena);
        let ghost w = arena@;
        let ghost list = w.siblings[self.id()];
        let ghost k = w.position(self);
        proof {
            v.lemma_detached_lone(new_sibling);
            v.lemma_sibling_target(self, new_sibling);
            assert(arena.links_ok(self.id()));
        }
        let parent = arena.slots[self.index].parent;
        let next_sibling = arena.slots[self.index].next_sibling;
        arena.splice(new_sibling, parent, Some(self), next_sibling, Ghost(list), Ghost(k + 1));
    }

    /// Insert a new sibling before this node.
    pub fn insert_before<T>(self, arena: &mut Arena<T>, new_sibling: Node)
        requires
            old(arena).wf(),
            old(arena)@.has(self),
            old(arena)@.has(new_sibling),
            !old(arena)@.in_subtree(self, new_sibling),
        ensures
            final(arena).wf(),
            final(arena)@ == old(arena)@.inserted_before(self, new_sibling),
    {
        let ghost v = arena@;
        new_sibling.detach(arena);
        let ghost w = arena@;
        let ghost list = w.siblings[self.id()];
        let ghost k = w.position(self);
        proof {
            v.lemma_detached_lone(new_sibling);
            v.lemma_sibling_target(self, new_sibling);
            assert(arena.links_ok(self.id()));
        }
        let parent = arena.slots[self.index].parent;
        let previous_sibling = arena.slots[self.index].previous_sibling;
        arena.splice(new_sibling, parent, previous_sibling, Some(self), Ghost(list), Ghost(k));
    }
}


impl Node {
    /// Append multiple new children to this node, after existing children.
    pub fn extend<T>(self, arena: &mut Arena<T>, new_children: Vec<Node>)
        requires
            old(arena).wf(),
            old(arena)@.has(self),
            forall|i: int|
                0 <= i < new_children.len() ==> old(arena)@.has(#[trigger] new_children[i])
                    && !old(arena)@.in_subtree(self, new_children[i]),
        ensures
            final(arena).wf(),
            final(arena)@ == old(arena)@.appended_all(self, new_children@),
    {
        let ghost v = arena@;
        let mut i: usize = 0;
        while i < new_children.len()
            invariant
                0 <= i <= new_children.len(),
                arena.wf(),
                v.valid(),
                v.has(self),
                arena@ == v.appended_all(self, new_children@.take(i as int)),
                arena@.len() == v.len(),
                arena@.ancestors[self.id()] == v.ancestors[self.id()],
                forall|j: int|
                    0 <= j < new_children.len() ==> v.has(#[trigger] new_children[j])
                        && !v.in_subtree(self, new_children[j]),
            decreases new_children.len() - i,
        {
            let child = new_children[i];
            proof {
                v.lemma_in_subtree_contains(self, child);
                arena@.lemma_in_subtree_contains(self, child);
                arena@.lemma_appended_keeps(self, child);
                assert(new_children@.take(i + 1).drop_last() =~= new_children@.take(i as int));
            }
            self.append(arena, child);
            i = i + 1;
        }
        proof {
            assert(new_children@.take(i as int) =~= new_children@);
        }
    }

    /// Return the data held by this node.
    pub fn data<T>(self, arena: &Arena<T>) -> (r: &T)
        requires
            arena@.has(self),
        ensures
            *r == arena@.data[self.id()],
    {
        &arena.data[self.index]
    }

    /// Return the data held by this node, or `None` when the handle names no
    /// node of `arena`. The data are borrowed through the arena, so the
    /// borrow checker rules out a conflicting borrow of them: unlike data kept
    /// in a cell, there is no case in which they are already borrowed.
    pub fn try_data<T>(self, arena: &Arena<T>) -> (r: Option<&T>)
        ensures
            arena@.has(self) ==> r == Some(&arena@.data[self.id()]),
            !arena@.has(self) ==> r is None,
    {
        if self.index < arena.data.len() {
            Some(&arena.data[self.index])
        } else {
            None
        }
    }

    /// Return the data held by this node, for writing.
    pub fn data_mut<T>(self, arena: &mut Arena<T>) -> (r: &mut T)
        requires
            old(arena)@.has(self),
        ensures
            *r == old(arena)@.data[self.id()],
            final(arena).links() == old(arena).links(),
            final(arena)@.data == old(arena)@.data.update(self.id(), *final(r)),
            final(arena).wf() == old(arena).wf(),
            final(arena)@.parent == old(arena)@.parent,
            final(arena)@.children == old(arena)@.children,
            final(arena)@.siblings == old(arena)@.siblings,
            final(arena)@.ancestors == old(arena)@.ancestors,
    {
        proof {
            arena.lemma_wf_any_data();
        }
        &mut arena.data[self.index]
    }
}

} // verus!
