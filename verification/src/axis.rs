use vstd::prelude::*;
use crate::model::{ArenaView, Node, first_of, lemma_index_of_contains};
use crate::arena::Arena;
use crate::traverse::advance;

verus! {

broadcast use crate::arena::lemma_wf_links;

impl<T> ArenaView<T> {
    /// `n` and the siblings after it, in order.
    pub open spec fn following(self, n: Node) -> Seq<Node> {
        self.siblings[n.id()].skip(self.position(n))
    }

    /// `n` and the siblings before it, nearest first.
    pub open spec fn preceding(self, n: Node) -> Seq<Node> {
        self.siblings[n.id()].take(self.position(n) + 1).reverse()
    }

    /// What a sibling walk that stands at `next` has yet to yield.
    pub open spec fn following_from(self, next: Option<Node>) -> Seq<Node> {
        match next {
            Some(n) => self.following(n),
            None => Seq::empty(),
        }
    }

    pub open spec fn preceding_from(self, next: Option<Node>) -> Seq<Node> {
        match next {
            Some(n) => self.preceding(n),
            None => Seq::empty(),
        }
    }

    pub open spec fn ancestors_from(self, next: Option<Node>) -> Seq<Node> {
        match next {
            Some(n) => self.ancestors[n.id()],
            None => Seq::empty(),
        }
    }

    /// Moving to the next sibling drops the first of the following siblings.
    pub proof fn lemma_following_advance(self, n: Node)
        requires
            self.valid(),
            self.has(n),
        ensures
            self.following(n).len() > 0,
            self.following(n)[0] == n,
            self.following(n).drop_first() == self.following_from(self.next_sibling(n)),
    {
        let s = self.siblings[n.id()];
        assert(self.siblings_ok(n.id()));
        lemma_index_of_contains(s, n);
        let k = self.position(n);
        if k + 1 < s.len() {
            let m = s[k + 1];
            assert(m.id() < self.len());
            assert(self.siblings[m.id()] == s);
            self.lemma_position(m, k + 1);
        }
        assert(self.following(n).drop_first() =~= self.following_from(self.next_sibling(n)));
    }

    /// Moving to the previous sibling drops the first of the preceding siblings.
    pub proof fn lemma_preceding_advance(self, n: Node)
        requires
            self.valid(),
            self.has(n),
        ensures
            self.preceding(n).len() > 0,
            self.preceding(n)[0] == n,
            self.preceding(n).drop_first() == self.preceding_from(self.previous_sibling(n)),
    {
        let s = self.siblings[n.id()];
        assert(self.siblings_ok(n.id()));
        lemma_index_of_contains(s, n);
        let k = self.position(n);
        if k > 0 {
            let m = s[k - 1];
            assert(m.id() < self.len());
            assert(self.siblings[m.id()] == s);
            self.lemma_position(m, k - 1);
        }
        assert(self.preceding(n).drop_first() =~= self.preceding_from(self.previous_sibling(n)));
    }

    /// Moving to the parent drops the node from its ancestors.
    pub proof fn lemma_ancestors_advance(self, n: Node)
        requires
            self.valid(),
            self.has(n),
        ensures
            self.ancestors[n.id()].len() > 0,
            self.ancestors[n.id()][0] == n,
            self.ancestors[n.id()].drop_first() == self.ancestors_from(self.parent[n.id()]),
    {
        self.lemma_node_facts(n.id());
        assert(self.ancestors_ok(n.id()));
        assert(self.ancestors[n.id()].drop_first() =~= self.ancestors_from(self.parent[n.id()]));
    }

    /// The children of `x` are the siblings that follow its first child.
    pub proof fn lemma_children_walks(self, x: Node)
        requires
            self.valid(),
            self.has(x),
        ensures
            self.following_from(self.first_child(x)) == self.children[x.id()],
            self.preceding_from(self.last_child(x)) == self.children[x.id()].reverse(),
    {
        let ch = self.children[x.id()];
        assert(self.children_ok(x.id()));
        if ch.len() > 0 {
            let f = ch[0];
            let l = ch[ch.len() - 1];
            assert(f.id() < self.len());
            assert(l.id() < self.len());
            assert(self.siblings_ok(f.id()));
            assert(self.siblings[f.id()] == ch);
            assert(self.siblings[l.id()] == ch);
            self.lemma_position(f, 0);
            self.lemma_position(l, ch.len() - 1);
            assert(ch.skip(0) =~= ch);
            assert(ch.take(ch.len() as int) =~= ch);
        } else {
            assert(ch.reverse() =~= ch);
        }
    }
}

/// An iterator of a given node and its ancestors.
pub struct Ancestors<'a, T> {
    arena: &'a Arena<T>,
    next: Option<Node>,
}

/// An iterator of a given node and the siblings before it.
pub struct PrecedingSiblings<'a, T> {
    arena: &'a Arena<T>,
    next: Option<Node>,
}

/// An iterator of a given node and the siblings after it.
pub struct FollowingSiblings<'a, T> {
    arena: &'a Arena<T>,
    next: Option<Node>,
}

/// An iterator of the children of a given node.
pub struct Children<'a, T> {
    arena: &'a Arena<T>,
    next: Option<Node>,
}

/// An iterator of the children of a given node, in reverse order.
pub struct ReverseChildren<'a, T> {
    arena: &'a Arena<T>,
    next: Option<Node>,
}

impl<'a, T> Ancestors<'a, T> {
    /// The iterator stands at a node of the arena it walks.
    pub closed spec fn inv(&self) -> bool {
        &&& self.arena.wf()
        &&& self.next matches Some(n) ==> self.arena@.has(n)
    }

    /// The nodes the iterator has yet to yield.
    pub closed spec fn rest(&self) -> Seq<Node> {
        self.arena@.ancestors_from(self.next)
    }

    /// Yield the next node and move to its parent.
    pub fn next(&mut self) -> (r: Option<Node>)
        requires
            old(self).inv(),
        ensures
            final(self).inv(),
            r == first_of(old(self).rest()),
            final(self).rest() == advance(old(self).rest()),
    {
        match self.next {
            Some(node) => {
                proof {
                    self.arena.lemma_valid();
                    self.arena@.lemma_ancestors_advance(node);
                    self.arena@.lemma_links_in_range(node);
                }
                self.next = node.parent(self.arena);
                Some(node)
            },
            None => None,
        }
    }
}

impl<'a, T> PrecedingSiblings<'a, T> {
    /// The iterator stands at a node of the arena it walks.
    pub closed spec fn inv(&self) -> bool {
        &&& self.arena.wf()
        &&& self.next matches Some(n) ==> self.arena@.has(n)
    }

    /// The nodes the iterator has yet to yield.
    pub closed spec fn rest(&self) -> Seq<Node> {
        self.arena@.preceding_from(self.next)
    }

    /// Yield the next node and move to its previous sibling.
    pub fn next(&mut self) -> (r: Option<Node>)
        requires
            old(self).inv(),
        ensures
            final(self).inv(),
            r == first_of(old(self).rest()),
            final(self).rest() == advance(old(self).rest()),
    {
        match self.next {
            Some(node) => {
                proof {
                    self.arena.lemma_valid();
                    self.arena@.lemma_preceding_advance(node);
                    self.arena@.lemma_links_in_range(node);
                }
                self.next = node.previous_sibling(self.arena);
                Some(node)
            },
            None => None,
        }
    }
}

impl<'a, T> FollowingSiblings<'a, T> {
    /// The iterator stands at a node of the arena it walks.
    pub closed spec fn inv(&self) -> bool {
        &&& self.arena.wf()
        &&& self.next matches Some(n) ==> self.arena@.has(n)
    }

    /// The nodes the iterator has yet to yield.
    pub closed spec fn rest(&self) -> Seq<Node> {
        self.arena@.following_from(self.next)
    }

    /// Yield the next node and move to its next sibling.
    pub fn next(&mut self) -> (r: Option<Node>)
        requires
            old(self).inv(),
        ensures
            final(self).inv(),
            r == first_of(old(self).rest()),
            final(self).rest() == advance(old(self).rest()),
    {
        match self.next {
            Some(node) => {
                proof {
                    self.arena.lemma_valid();
                    self.arena@.lemma_following_advance(node);
                    self.arena@.lemma_links_in_range(node);
                }
                self.next = node.next_sibling(self.arena);
                Some(node)
            },
            None => None,
        }
    }
}

impl<'a, T> Children<'a, T> {
    /// The iterator stands at a node of the arena it walks.
    pub closed spec fn inv(&self) -> bool {
        &&& self.arena.wf()
        &&& self.next matches Some(n) ==> self.arena@.has(n)
    }

    /// The nodes the iterator has yet to yield.
    pub closed spec fn rest(&self) -> Seq<Node> {
        self.arena@.following_from(self.next)
    }

    /// Yield the next child.
    pub fn next(&mut self) -> (r: Option<Node>)
        requires
            old(self).inv(),
        ensures
            final(self).inv(),
            r == first_of(old(self).rest()),
            final(self).rest() == advance(old(self).rest()),
    {
        match self.next {
            Some(node) => {
                proof {
                    self.arena.lemma_valid();
                    self.arena@.lemma_following_advance(node);
                    self.arena@.lemma_links_in_range(node);
                }
                self.next = node.next_sibling(self.arena);
                Some(node)
            },
            None => None,
        }
    }
}

impl<'a, T> ReverseChildren<'a, T> {
    /// The iterator stands at a node of the arena it walks.
    pub closed spec fn inv(&self) -> bool {
        &&& self.arena.wf()
        &&& self.next matches Some(n) ==> self.arena@.has(n)
    }

    /// The nodes the iterator has yet to yield.
    pub closed spec fn rest(&self) -> Seq<Node> {
        self.arena@.preceding_from(self.next)
    }

    /// Yield the next child, from the last one backwards.
    pub fn next(&mut self) -> (r: Option<Node>)
        requires
            old(self).inv(),
        ensures
            final(self).inv(),
            r == first_of(old(self).rest()),
            final(self).rest() == advance(old(self).rest()),
    {
        match self.next {
            Some(node) => {
                proof {
                    self.arena.lemma_valid();
                    self.arena@.lemma_preceding_advance(node);
                    self.arena@.lemma_links_in_range(node);
                }
                self.next = node.previous_sibling(self.arena);
                Some(node)
            },
            None => None,
        }
    }
}

impl Node {
    /// Return an iterator of this node and its ancestors.
    ///
    /// Call `.next().unwrap()` once on the iterator to skip the node itself.
    pub fn ancestors<'a, T>(self, arena: &'a Arena<T>) -> (r: Ancestors<'a, T>)
        requires
            arena.wf(),
            arena@.has(self),
        ensures
            r.inv(),
            r.rest() == arena@.ancestors[self.id()],
    {
        Ancestors { arena, next: Some(self) }
    }

    /// Return an iterator of this node and the siblings before it, nearest first.
    ///
    /// Call `.next().unwrap()` once on the iterator to skip the node itself.
    pub fn preceding_siblings<'a, T>(self, arena: &'a Arena<T>) -> (r: PrecedingSiblings<'a, T>)
        requires
            arena.wf(),
            arena@.has(self),
        ensures
            r.inv(),
            r.rest() == arena@.preceding(self),
    {
        PrecedingSiblings { arena, next: Some(self) }
    }

    /// Return an iterator of this node and the siblings after it.
    ///
    /// Call `.next().unwrap()` once on the iterator to skip the node itself.
    pub fn following_siblings<'a, T>(self, arena: &'a Arena<T>) -> (r: FollowingSiblings<'a, T>)
        requires
            arena.wf(),
            arena@.has(self),
        ensures
            r.inv(),
            r.rest() == arena@.following(self),
    {
        FollowingSiblings { arena, next: Some(self) }
    }

    /// Return an iterator of this node's children.
    pub fn children<'a, T>(self, arena: &'a Arena<T>) -> (r: Children<'a, T>)
        requires
            arena.wf(),
            arena@.has(self),
        ensures
            r.inv(),
            r.rest() == arena@.children[self.id()],
    {
        proof {
            arena.lemma_valid();
            arena@.lemma_children_walks(self);
            arena@.lemma_links_in_range(self);
        }
        Children { arena, next: self.first_child(arena) }
    }

    /// Return an iterator of this node's children, in reverse order.
    pub fn reverse_children<'a, T>(self, arena: &'a Arena<T>) -> (r: ReverseChildren<'a, T>)
        requires
            arena.wf(),
            arena@.has(self),
        ensures
            r.inv(),
            r.rest() == arena@.children[self.id()].reverse(),
    {
        proof {
            arena.lemma_valid();
            arena@.lemma_children_walks(self);
            arena@.lemma_links_in_range(self);
        }
        ReverseChildren { arena, next: self.last_child(arena) }
    }
}

} // verus!
