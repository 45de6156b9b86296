use vstd::prelude::*;
use crate::model::{ArenaView, Node, ends_with, lemma_index_of, lemma_index_of_contains, lemma_ends_with_step};
use crate::traverse::{NodeEdge, starts, lemma_starts_add};
use crate::forest::{forms_forest, lemma_complete, lemma_unique, lemma_nd};
use crate::roundtrip::view_links;

verus! {

/// Removing the one occurrence of `c` from a list without repeats is
/// filtering `c` out.
#[verifier::rlimit(30)]
proof fn lemma_remove_is_filter(s: Seq<Node>, c: Node)
    requires
        s.no_duplicates(),
    ensures
        s.contains(c) ==> s.remove(s.index_of(c)) == s.filter(|y: Node| y != c),
        !s.contains(c) ==> s == s.filter(|y: Node| y != c),
    decreases s.len(),
{
    let f = |y: Node| y != c;
    if s.len() == 0 {
        reveal(Seq::filter);
        assert(s.filter(f) =~= s);
    } else {
        let h = s[0];
        let t = s.drop_first();
        assert(t.no_duplicates()) by {
            assert forall|a: int, b: int|
                0 <= a < t.len() && 0 <= b < t.len() && a != b implies t[a] != t[b] by {
                assert(t[a] == s[a + 1] && t[b] == s[b + 1]);
            }
        }
        lemma_remove_is_filter(t, c);
        assert(s =~= seq![h] + t);
        t.lemma_filter_prepend(h, f);
        assert(s.filter(f) == (if f(h) {
            seq![h]
        } else {
            Seq::empty()
        }) + t.filter(f));
        if h == c {
            lemma_index_of(s, 0);
            assert(!t.contains(c)) by {
                if t.contains(c) {
                    let k = t.index_of(c);
                    lemma_index_of_contains(t, c);
                    assert(s[k + 1] == s[0]);
                }
            }
            assert(s.remove(0) =~= t);
            assert(s.filter(f) =~= t.filter(f));
        } else if s.contains(c) {
            let k = s.index_of(c);
            lemma_index_of_contains(s, c);
            assert(k > 0);
            assert(t[k - 1] == c);
            lemma_index_of(t, k - 1);
            assert(t.contains(c));
            assert(s.remove(k) =~= seq![h] + t.remove(k - 1));
            assert(s.filter(f) =~= seq![h] + t.filter(f));
        } else {
            assert(!t.contains(c)) by {
                if t.contains(c) {
                    let k = t.index_of(c);
                    lemma_index_of_contains(t, c);
                    assert(s[k + 1] == c);
                }
            }
            assert(s.filter(f) =~= seq![h] + t.filter(f));
        }
    }
}

/// Filtering with a predicate that holds of every element keeps the list.
proof fn lemma_filter_keeps(s: Seq<Node>, g: spec_fn(Node) -> bool)
    requires
        forall|i: int| 0 <= i < s.len() ==> g(#[trigger] s[i]),
    ensures
        s.filter(g) == s,
    decreases s.len(),
{
    reveal(Seq::filter);
    if s.len() > 0 {
        let t = s.drop_last();
        assert forall|i: int| 0 <= i < t.len() implies g(#[trigger] t[i]) by {
            assert(t[i] == s[i]);
        }
        lemma_filter_keeps(t, g);
        assert(t.push(s.last()) =~= s);
        t.lemma_filter_push(s.last(), g);
    } else {
        assert(s.filter(g) =~= s);
    }
}

/// Filtering twice is filtering by both predicates.
proof fn lemma_filter_filter(s: Seq<Node>, f: spec_fn(Node) -> bool, g: spec_fn(Node) -> bool)
    ensures
        s.filter(f).filter(g) == s.filter(|y: Node| f(y) && g(y)),
    decreases s.len(),
{
    let h = |y: Node| f(y) && g(y);
    reveal(Seq::filter);
    if s.len() > 0 {
        let t = s.drop_last();
        let e = s.last();
        assert(t.push(e) =~= s);
        lemma_filter_filter(t, f, g);
        t.lemma_filter_push(e, f);
        t.lemma_filter_push(e, h);
        if f(e) {
            t.filter(f).lemma_filter_push(e, g);
        }
    } else {
        assert(s.filter(f) =~= s);
        assert(s.filter(f).filter(g) =~= s);
        assert(s.filter(h) =~= s);
    }
}

impl<T> ArenaView<T> {
    /// Detaching a node that is already a lone root changes nothing.
    proof fn lemma_detach_lone_noop(self, c: Node)
        requires
            self.valid(),
            self.has(c),
            self.parent[c.id()] is None,
            self.siblings[c.id()] == seq![c],
        ensures
            self.detached(c) == self,
    {
        let w = self.detached(c);
        let s = seq![c];
        lemma_index_of(s, 0);
        assert(s.remove(0) =~= Seq::<Node>::empty());
        self.lemma_node_facts(c.id());
        assert(self.ancestors_ok(c.id()));
        assert(w.parent =~= self.parent);
        assert(w.siblings =~= self.siblings) by {
            assert forall|x: int| 0 <= x < self.len() implies w.siblings[x] == self.siblings[x] by {
                if s.contains(Node { index: x as usize }) {
                    let k = s.index_of(Node { index: x as usize });
                    lemma_index_of_contains(s, Node { index: x as usize });
                }
            }
        }
        assert(w.ancestors =~= self.ancestors) by {
            assert forall|x: int| 0 <= x < self.len() implies w.ancestors[x] == self.ancestors[x] by {
                let ax = self.ancestors[x];
                if ends_with(ax, seq![c]) {
                    assert(ax.take(ax.len() as int) =~= ax);
                }
            }
        }
    }

    /// Detaching a node just spliced in undoes the splice.
    proof fn lemma_detach_undoes_splice(self, c: Node, par: Option<Node>, list: Seq<Node>, m: int)
        requires
            self.valid(),
            self.can_splice(c, par, list, m),
        ensures
            self.spliced(c, par, list.insert(m, c)).detached(c) == self,
    {
        let nl = list.insert(m, c);
        let u = self.spliced(c, par, nl);
        let w = u.detached(c);
        self.lemma_spliced_valid(c, par, list, m);
        list.insert_ensures(m, c);
        self.lemma_node_facts(c.id());
        assert(self.ancestors_ok(c.id()));
        assert(nl[m] == c);
        assert(nl.contains(c));
        assert(u.siblings[c.id()] == nl);
        assert(u.siblings_ok(c.id()));
        lemma_index_of(nl, m);
        assert(nl.remove(m) =~= list);
        if list.len() > 0 {
            self.lemma_sibling_list_members(par, list, 0);
        }
        assert(w.parent =~= self.parent);
        assert(w.children =~= self.children);
        assert(w.siblings =~= self.siblings) by {
            assert forall|x: int| 0 <= x < self.len() implies w.siblings[x] == self.siblings[x] by {
                let nx = Node { index: x as usize };
                if x != c.id() && nl.contains(nx) {
                    let k = nl.index_of(nx);
                    lemma_index_of_contains(nl, nx);
                    let kk = if k < m {
                        k
                    } else {
                        k - 1
                    };
                    assert(list[kk] == nx);
                    self.lemma_sibling_list_members(par, list, kk);
                }
            }
        }
        let tail = match par {
            Some(p) => self.ancestors[p.id()],
            None => Seq::<Node>::empty(),
        };
        let ac = seq![c];
        assert(u.ancestors[c.id()] =~= ac + tail) by {
            assert(ends_with(ac, ac)) by {
                assert(ac.subrange(0, 1) =~= ac);
            }
        }
        assert(w.ancestors =~= self.ancestors) by {
            assert forall|x: int| 0 <= x < self.len() implies w.ancestors[x] == self.ancestors[x] by {
                let ax = self.ancestors[x];
                let nx = Node { index: x as usize };
                self.lemma_node_facts(x);
                if ends_with(ax, ac) {
                    let ux = ax + tail;
                    assert(u.ancestors[x] == ux);
                    assert(ux.subrange(ux.len() - (ac + tail).len(), ux.len() as int) =~= ac + tail);
                    assert(ux.take(ux.len() - (ac + tail).len() + 1) =~= ax) by {
                        assert(ax.subrange(ax.len() - 1, ax.len() as int) =~= ac);
                    }
                } else {
                    assert(u.ancestors[x] == ax);
                    if ends_with(ax, ac + tail) {
                        assert(ax.subrange(ax.len() - (ac + tail).len(), ax.len() as int)[0] == c);
                        let j = ax.len() - (ac + tail).len();
                        assert(ax[j] == c);
                        assert(ax.contains(c));
                        self.lemma_in_subtree_contains(nx, c);
                        assert(self.ancestors[c.id()] == ac);
                    }
                }
            }
        }
    }

    /// Two valid states with the same data and the same links are the same.
    proof fn lemma_same_links(self, b: ArenaView<T>)
        requires
            self.valid(),
            b.valid(),
            self.data == b.data,
            forall|i: int| 0 <= i < self.len() ==> #[trigger] self.agrees_at(view_links(b), i),
        ensures
            self == b,
    {
        let ls = view_links(b);
        assert forall|i: int| 0 <= i < b.len() implies #[trigger] b.agrees_at(ls, i) by {}
        lemma_unique(self, ls);
        lemma_unique(b, ls);
    }

    /// The parent of a node does not lie under it.
    proof fn lemma_parent_not_under(self, c: Node)
        requires
            self.valid(),
            self.has(c),
            self.parent[c.id()] is Some,
        ensures
            !self.in_subtree(self.parent[c.id()]->0, c),
    {
        self.lemma_node_facts(c.id());
    }

    /// Appending to a node its last child again changes nothing.
    pub proof fn law_append_last_child_again(self, p: Node, c: Node)
        requires
            self.valid(),
            self.has(p),
            self.last_child(p) == Some(c),
        ensures
            self.appended(p, c) == self,
    {
        let ch = self.children[p.id()];
        assert(self.children_ok(p.id()));
        assert(self.has(c));
        assert(self.parent[c.id()] == Some(p));
        self.lemma_parent_not_under(c);
        let w = self.detached(c);
        let list = w.children[p.id()];
        let m = list.len() as int;
        self.lemma_detached_valid(c);
        self.lemma_detached_lone(c);
        self.lemma_detached_links(c);
        assert(!list.contains(c)) by {
            assert(w.children_ok(p.id()));
            if list.contains(c) {
                let j = list.index_of(c);
                lemma_index_of_contains(list, c);
            }
        }
        self.lemma_ready(Some(p), c, list, m);
        w.lemma_spliced_valid(c, Some(p), list, m);
        w.lemma_spliced_links(c, Some(p), list, m);
        assert(list.insert(m, c) =~= list.push(c));
        let u = self.appended(p, c);
        // `c` stands last among the children of `p`
        self.lemma_node_facts(c.id());
        lemma_complete(self, view_links(self));
        let ls = view_links(self);
        assert(self.next_sibling(c) is None) by {
            assert(ls[c.id()].next_sibling == self.next_sibling(c));
            assert(crate::forest::consistent_at(ls, p.id()));
        }
        assert(w.last_child(p) == self.previous_sibling(c));
        if m > 0 {
            assert(list[m - 1] == list.last());
        }
        if let Some(q) = self.previous_sibling(c) {
            self.lemma_links_in_range(c);
            assert(crate::forest::consistent_at(ls, c.id()));
            assert(ls[q.id()].next_sibling == Some(c));
        } else {
            assert(crate::forest::consistent_at(ls, c.id()));
            assert(self.first_child(p) == Some(c));
        }
        assert forall|i: int| 0 <= i < u.len() implies #[trigger] u.agrees_at(view_links(self), i) by {
            let n = Node { index: i as usize };
            assert(self.has(n));
            assert(u.previous_sibling(n) == self.previous_sibling(n));
            assert(u.next_sibling(n) == self.next_sibling(n));
            assert(u.first_child(n) == self.first_child(n));
            assert(u.last_child(n) == self.last_child(n));
        }
        u.lemma_same_links(self);
    }

    /// Detaching a root without siblings changes nothing.
    pub proof fn law_detach_lone_root(self, c: Node)
        requires
            self.valid(),
            self.has(c),
            self.parent[c.id()] is None,
            self.previous_sibling(c) is None,
            self.next_sibling(c) is None,
        ensures
            self.detached(c) == self,
    {
        let s = self.siblings[c.id()];
        assert(self.siblings_ok(c.id()));
        lemma_index_of_contains(s, c);
        assert(s =~= seq![c]);
        self.lemma_detach_lone_noop(c);
    }

    /// A walk with more depth than the subtree needs is the same walk.
    pub(crate) proof fn lemma_edges_fuel(self, rev: bool, x: Node, f: nat)
        requires
            self.valid(),
            self.has(x),
            f >= self.fuel(x),
        ensures
            self.edges(rev, x, f) == self.edges(rev, x, self.fuel(x)),
        decreases self.fuel(x), self.kids(rev, x).len() + 1,
    {
        self.lemma_depth_bound(x.id());
        self.lemma_edges_of_fuel(rev, x, 0, (f - 1) as nat);
        assert(self.kids(rev, x).skip(0) =~= self.kids(rev, x));
    }

    proof fn lemma_edges_of_fuel(self, rev: bool, x: Node, j: int, f: nat)
        requires
            self.valid(),
            self.has(x),
            self.fuel(x) >= 1,
            f >= self.fuel(x) - 1,
            0 <= j <= self.kids(rev, x).len(),
        ensures
            self.edges_of(rev, self.kids(rev, x).skip(j), f) == self.edges_of(
                rev,
                self.kids(rev, x).skip(j),
                (self.fuel(x) - 1) as nat,
            ),
        decreases self.fuel(x), self.kids(rev, x).len() - j,
    {
        let k = self.kids(rev, x);
        let cs = k.skip(j);
        if cs.len() > 0 {
            let c = k[j];
            assert(cs[0] == c);
            assert(cs.drop_first() =~= k.skip(j + 1));
            self.lemma_kids(rev, x, j);
            self.lemma_node_facts(c.id());
            self.lemma_depth_bound(c.id());
            assert(self.fuel(c) == self.fuel(x) - 1);
            self.lemma_edges_fuel(rev, c, f);
            self.lemma_edges_of_fuel(rev, x, j + 1, f);
        }
    }

    /// The walk of the subtree of `x` reads only the children of the nodes
    /// of that subtree.
    proof fn lemma_edges_frame(self, b: ArenaView<T>, rev: bool, x: Node, f: nat)
        requires
            self.valid(),
            self.has(x),
            forall|y: Node|
                self.has(y) && self.in_subtree(y, x) ==> #[trigger] b.children[y.id()]
                    == self.children[y.id()],
        ensures
            b.edges(rev, x, f) == self.edges(rev, x, f),
        decreases f, 0int,
    {
        if f > 0 {
            let ax = self.ancestors[x.id()];
            assert(ax.subrange(0, ax.len() as int) =~= ax);
            assert(b.children[x.id()] == self.children[x.id()]);
            self.lemma_edges_of_frame(b, rev, x, 0, (f - 1) as nat);
            assert(self.kids(rev, x).skip(0) =~= self.kids(rev, x));
        }
    }

    proof fn lemma_edges_of_frame(self, b: ArenaView<T>, rev: bool, x: Node, j: int, f: nat)
        requires
            self.valid(),
            self.has(x),
            0 <= j <= self.kids(rev, x).len(),
            forall|y: Node|
                self.has(y) && self.in_subtree(y, x) ==> #[trigger] b.children[y.id()]
                    == self.children[y.id()],
        ensures
            b.edges_of(rev, self.kids(rev, x).skip(j), f) == self.edges_of(
                rev,
                self.kids(rev, x).skip(j),
                f,
            ),
        decreases f, self.kids(rev, x).len() - j,
    {
        let k = self.kids(rev, x);
        let cs = k.skip(j);
        if cs.len() > 0 {
            let c = k[j];
            assert(cs[0] == c);
            assert(cs.drop_first() =~= k.skip(j + 1));
            self.lemma_kids(rev, x, j);
            assert forall|y: Node| self.has(y) && self.in_subtree(y, c) implies #[trigger] b.children[
                y.id()
            ] == self.children[y.id()] by {
                self.lemma_under_child(y, x, c);
            }
            self.lemma_edges_frame(b, rev, c, f);
            self.lemma_edges_of_frame(b, rev, x, j + 1, f);
        }
    }

    /// Two valid states that give the nodes of the subtree of `x` the same
    /// children walk that subtree alike.
    proof fn lemma_same_walks(self, b: ArenaView<T>, x: Node)
        requires
            self.valid(),
            b.valid(),
            self.has(x),
            b.len() == self.len(),
            forall|y: Node|
                self.has(y) && self.in_subtree(y, x) ==> #[trigger] b.children[y.id()]
                    == self.children[y.id()],
        ensures
            b.traversal(x) == self.traversal(x),
            b.reverse_traversal(x) == self.reverse_traversal(x),
            b.descendants(x) == self.descendants(x),
    {
        let f = if self.fuel(x) >= b.fuel(x) {
            self.fuel(x)
        } else {
            b.fuel(x)
        };
        self.lemma_edges_fuel(false, x, f);
        self.lemma_edges_fuel(true, x, f);
        b.lemma_edges_fuel(false, x, f);
        b.lemma_edges_fuel(true, x, f);
        self.lemma_edges_frame(b, false, x, f);
        self.lemma_edges_frame(b, true, x, f);
    }

    /// Detaching a node leaves its subtree as it was: the walks over it, and
    /// so its descendants, are unchanged.
    pub proof fn law_detach_keeps_subtree(self, c: Node)
        requires
            self.valid(),
            self.has(c),
        ensures
            self.detached(c).traversal(c) == self.traversal(c),
            self.detached(c).reverse_traversal(c) == self.reverse_traversal(c),
            self.detached(c).descendants(c) == self.descendants(c),
    {
        self.lemma_detached_valid(c);
        if let Some(p) = self.parent[c.id()] {
            self.lemma_parent_not_under(c);
            self.lemma_node_facts(c.id());
            assert forall|y: Node| self.has(y) && self.in_subtree(y, c) implies #[trigger] self.detached(
                c,
            ).children[y.id()] == self.children[y.id()] by {
                lemma_nd(y);
                lemma_nd(p);
                assert(!self.in_subtree(p, c));
                assert(y != p);
                assert(y.id() != p.id());
            }
        }
        self.lemma_same_walks(self.detached(c), c);
    }

    /// Inserting `s` after `a` moves `s` with its subtree, keeps every node's
    /// data, and changes the links of no node other than `s`, `a`, the
    /// former parent and neighbours of `s`, the parent of `a` and its former
    /// next sibling.
    pub proof fn law_insert_after_keeps(self, a: Node, s: Node)
        requires
            self.valid(),
            self.has(a),
            self.has(s),
            !self.in_subtree(a, s),
        ensures
            self.inserted_after(a, s).data == self.data,
            self.inserted_after(a, s).traversal(s) == self.traversal(s),
            self.inserted_after(a, s).descendants(s) == self.descendants(s),
            forall|n: Node|
                self.has(n) && n != s && n != a && Some(n) != self.parent[s.id()] && Some(n)
                    != self.previous_sibling(s) && Some(n) != self.next_sibling(s) && Some(n)
                    != self.parent[a.id()] && Some(n) != self.next_sibling(a) ==> #[trigger] view_links(self.inserted_after(a, s))[n.id()]
                    == view_links(self)[n.id()],
    {
        let w = self.detached(s);
        let list = w.siblings[a.id()];
        let k = w.position(a);
        let u = self.inserted_after(a, s);
        self.lemma_insert_target(a, s);
        w.lemma_spliced_valid(s, w.parent[a.id()], list, k + 1);
        w.lemma_spliced_links(s, w.parent[a.id()], list, k + 1);
        self.lemma_detached_links(s);
        if self.parent[s.id()] is Some {
            self.lemma_parent_not_under(s);
        }
        assert forall|y: Node| self.has(y) && self.in_subtree(y, s) implies #[trigger] u.children[
            y.id()
        ] == self.children[y.id()] by {
            lemma_nd(y);
            if let Some(q) = self.parent[s.id()] {
                lemma_nd(q);
            }
            if let Some(q) = self.parent[a.id()] {
                lemma_nd(q);
                self.lemma_node_facts(a.id());
            }
            self.lemma_node_facts(s.id());
            if self.parent[a.id()] == Some(y) {
                self.lemma_node_facts(a.id());
                self.lemma_node_facts(s.id());
                assert(self.ancestors_ok(a.id()));
                lemma_ends_with_step(self.ancestors[a.id()], self.ancestors[y.id()], self.ancestors[s.id()], a);
            }
        }
        self.lemma_same_walks(u, s);
        assert forall|n: Node|
            self.has(n) && n != s && n != a && Some(n) != self.parent[s.id()] && Some(n)
                != self.previous_sibling(s) && Some(n) != self.next_sibling(s) && Some(n)
                != self.parent[a.id()] && Some(n) != self.next_sibling(a) implies #[trigger] view_links(u)[n.id()]
                == view_links(self)[n.id()] by {
            lemma_nd(n);
            if k + 1 < list.len() {
                assert(Some(list[k + 1]) == w.next_sibling(a));
            }
            assert(u.previous_sibling(n) == self.previous_sibling(n));
            assert(u.next_sibling(n) == self.next_sibling(n));
            assert(u.first_child(n) == self.first_child(n));
            assert(u.last_child(n) == self.last_child(n));
        }
    }

    /// Appending the nodes of `cs` one by one to `p` leaves `p` the children
    /// it had that are not in `cs`, in their order, followed by the nodes of
    /// `cs` in order, each with `p` as parent; the data stay as they were.
    pub proof fn law_extend_children(self, p: Node, cs: Seq<Node>)
        requires
            self.valid(),
            self.has(p),
            cs.no_duplicates(),
            forall|i: int|
                0 <= i < cs.len() ==> self.has(#[trigger] cs[i]) && !self.in_subtree(p, cs[i]),
        ensures
            self.appended_all(p, cs).valid(),
            self.appended_all(p, cs).len() == self.len(),
            self.appended_all(p, cs).data == self.data,
            self.appended_all(p, cs).ancestors[p.id()] == self.ancestors[p.id()],
            self.appended_all(p, cs).children[p.id()] == self.children[p.id()].filter(
                |y: Node| !cs.contains(y),
            ) + cs,
            forall|i: int|
                0 <= i < cs.len() ==> #[trigger] self.appended_all(p, cs).parent[cs[i].id()] == Some(p),
        decreases cs.len(),
    {
        let ch = self.children[p.id()];
        if cs.len() == 0 {
            lemma_filter_keeps(ch, |y: Node| !cs.contains(y));
            assert(ch + cs =~= ch);
        } else {
            let c = cs.last();
            let cs0 = cs.drop_last();
            assert(cs0.no_duplicates()) by {
                assert forall|a: int, b: int|
                    0 <= a < cs0.len() && 0 <= b < cs0.len() && a != b implies cs0[a] != cs0[b] by {
                    assert(cs0[a] == cs[a] && cs0[b] == cs[b]);
                }
            }
            assert forall|i: int| 0 <= i < cs0.len() implies self.has(#[trigger] cs0[i])
                && !self.in_subtree(p, cs0[i]) by {
                assert(cs0[i] == cs[i]);
            }
            self.law_extend_children(p, cs0);
            let v = self.appended_all(p, cs0);
            assert(cs[cs.len() - 1] == c);
            assert(self.has(c) && !self.in_subtree(p, c));
            self.lemma_in_subtree_contains(p, c);
            v.lemma_in_subtree_contains(p, c);
            v.law_append_last(p, c);
            v.lemma_appended_keeps(p, c);
            assert(!cs0.contains(c)) by {
                if cs0.contains(c) {
                    let k = choose|k: int| 0 <= k < cs0.len() && cs0[k] == c;
                    assert(cs[k] == cs[cs.len() - 1]);
                }
            }
            let f0 = |y: Node| !cs0.contains(y);
            let g = |y: Node| y != c;
            let f = |y: Node| !cs.contains(y);
            let k0 = ch.filter(f0);
            Seq::filter_distributes_over_add(k0, cs0, g);
            lemma_filter_keeps(cs0, g);
            lemma_filter_filter(ch, f0, g);
            assert(cs =~= cs0.push(c));
            assert((|y: Node| f0(y) && g(y)) =~= f) by {
                assert forall|y: Node| (f0(y) && g(y)) == #[trigger] f(y) by {
                    if cs.contains(y) {
                        let k = choose|k: int| 0 <= k < cs.len() && cs[k] == y;
                        if k < cs0.len() {
                            assert(cs0[k] == y);
                        }
                    }
                    if cs0.contains(y) {
                        let k = choose|k: int| 0 <= k < cs0.len() && cs0[k] == y;
                        assert(cs[k] == y);
                    }
                    if y == c {
                        assert(cs[cs.len() - 1] == y);
                    }
                }
            }
            assert((k0 + cs0).filter(g).push(c) =~= ch.filter(f) + cs);
            assert forall|i: int| 0 <= i < cs.len() implies #[trigger] self.appended_all(
                p,
                cs,
            ).parent[cs[i].id()] == Some(p) by {
                if i < cs0.len() {
                    assert(cs[i] == cs0[i]);
                    assert(v.parent[cs0[i].id()] == Some(p));
                    assert(cs[i] != c);
                    lemma_nd(cs[i]);
                    lemma_nd(c);
                }
            }
        }
    }

    /// The walk of the subtrees of `cs` and then `c` is that of `cs`
    /// followed by that of `c`.
    proof fn lemma_edges_of_push(self, cs: Seq<Node>, c: Node, f: nat)
        ensures
            self.edges_of(false, cs.push(c), f) == self.edges_of(false, cs, f) + self.edges(false, c, f),
        decreases cs.len(),
    {
        let l = cs.push(c);
        if cs.len() == 0 {
            assert(l.drop_first() =~= Seq::<Node>::empty());
            assert(self.edges_of(false, l.drop_first(), f) == Seq::<NodeEdge<Node>>::empty());
            assert(self.edges(false, c, f) + Seq::<NodeEdge<Node>>::empty() =~= self.edges(false, c, f));
            assert(Seq::<NodeEdge<Node>>::empty() + self.edges(false, c, f) =~= self.edges(false, c, f));
        } else {
            assert(l.drop_first() =~= cs.drop_first().push(c));
            self.lemma_edges_of_push(cs.drop_first(), c, f);
            assert(l[0] == cs[0]);
            let a = self.edges(false, cs[0], f);
            let m = self.edges_of(false, cs.drop_first(), f);
            assert(a + (m + self.edges(false, c, f)) =~= (a + m) + self.edges(false, c, f));
        }
    }

    /// Walks over the subtrees of `cs` read only the children of the nodes
    /// of those subtrees.
    proof fn lemma_edges_of_list_frame(self, b: ArenaView<T>, cs: Seq<Node>, f: nat)
        requires
            self.valid(),
            forall|k: int| 0 <= k < cs.len() ==> self.has(#[trigger] cs[k]),
            forall|k: int, z: Node|
                0 <= k < cs.len() && self.has(z) && #[trigger] self.in_subtree(z, cs[k])
                    ==> b.children[z.id()] == self.children[z.id()],
        ensures
            b.edges_of(false, cs, f) == self.edges_of(false, cs, f),
        decreases cs.len(),
    {
        if cs.len() > 0 {
            assert(self.has(cs[0]));
            assert forall|z: Node| self.has(z) && self.in_subtree(z, cs[0]) implies #[trigger] b.children[
                z.id()
            ] == self.children[z.id()] by {}
            self.lemma_edges_frame(b, false, cs[0], f);
            let t = cs.drop_first();
            assert forall|k: int| 0 <= k < t.len() implies self.has(#[trigger] t[k]) by {
                assert(t[k] == cs[k + 1]);
            }
            assert forall|k: int, z: Node|
                0 <= k < t.len() && self.has(z) && #[trigger] self.in_subtree(z, t[k]) implies b.children[
                z.id()
            ] == self.children[z.id()] by {
                assert(t[k] == cs[k + 1]);
            }
            self.lemma_edges_of_list_frame(b, t, f);
        }
    }

    /// The walk of a node without children is its start and its end; its
    /// only descendant is itself.
    pub proof fn law_leaf_walks(self, x: Node)
        requires
            self.valid(),
            self.has(x),
            self.children[x.id()].len() == 0,
        ensures
            self.traversal(x) == seq![NodeEdge::Start(x), NodeEdge::End(x)],
            self.descendants(x) == seq![x],
    {
        self.lemma_depth_bound(x.id());
        let t = self.traversal(x);
        assert(t =~= seq![NodeEdge::Start(x), NodeEdge::End(x)]);
        assert(t.drop_first() =~= seq![NodeEdge::<Node>::End(x)]);
        let t1 = t.drop_first();
        assert(t1.drop_first() =~= Seq::<NodeEdge<Node>>::empty());
        assert(starts(t1.drop_first()) == Seq::<Node>::empty());
        assert(t1[0] == NodeEdge::<Node>::End(x));
        assert(starts(t1) == Seq::<Node>::empty());
        assert(t[0] == NodeEdge::<Node>::Start(x));
        assert(starts(t) == seq![x] + starts(t1));
        assert(starts(t) =~= seq![x]);
    }

    /// Appending a root without siblings `c` to `x` adds the walk of the
    /// subtree of `c` at the end of the walk of `x`, just before the end of
    /// `x`; the descendants of `x` become its former descendants followed by
    /// those of `c`.
    pub proof fn law_append_walks(self, x: Node, c: Node)
        requires
            self.valid(),
            self.has(x),
            self.has(c),
            self.parent[c.id()] is None,
            self.previous_sibling(c) is None,
            self.next_sibling(c) is None,
            !self.in_subtree(x, c),
        ensures
            self.appended(x, c).traversal(x) == self.traversal(x).drop_last() + self.traversal(c)
                + seq![NodeEdge::End(x)],
            self.appended(x, c).descendants(x) == self.descendants(x) + self.descendants(c),
    {
        let ch = self.children[x.id()];
        let u = self.appended(x, c);
        self.lemma_append_lone(x, c);
        let f = self.fuel(x);
        let g = (f - 1) as nat;
        assert(u.children[x.id()] == ch.push(c));
        assert forall|z: Node| self.has(z) && self.in_subtree(z, c) implies #[trigger] u.children[
            z.id()
        ] == self.children[z.id()] by {
            lemma_nd(z);
            lemma_nd(x);
        }
        u.lemma_edges_fuel(false, c, self.fuel(c));
        self.lemma_edges_frame(u, false, c, self.fuel(c));
        assert(u.edges(false, c, g) == self.traversal(c));
        assert(self.children_ok(x.id()));
        assert forall|k: int| 0 <= k < ch.len() implies self.has(#[trigger] ch[k]) by {}
        assert forall|k: int, z: Node|
            0 <= k < ch.len() && self.has(z) && #[trigger] self.in_subtree(z, ch[k]) implies u.children[
            z.id()
        ] == self.children[z.id()] by {
            self.lemma_under_child(z, x, ch[k]);
            lemma_nd(z);
            lemma_nd(x);
        }
        self.lemma_edges_of_list_frame(u, ch, g);
        u.lemma_edges_of_push(ch, c, g);
        let ss = seq![NodeEdge::<Node>::Start(x)];
        let se = seq![NodeEdge::<Node>::End(x)];
        let l = self.edges_of(false, ch, g);
        let tc = self.traversal(c);
        assert(self.traversal(x) == ss + l + se);
        assert(u.traversal(x) == ss + (l + tc) + se);
        assert((ss + l + se).drop_last() =~= ss + l);
        assert(ss + (l + tc) + se =~= (ss + l) + tc + se);
        lemma_starts_add(ss + l, se);
        lemma_starts_add((ss + l) + tc, se);
        lemma_starts_add(ss + l, tc);
        assert(starts(se) == starts(se.drop_first()));
        assert(se.drop_first() =~= Seq::<NodeEdge<Node>>::empty());
    }

    /// Detaching twice is detaching once.
    pub proof fn law_detach_idempotent(self, c: Node)
        requires
            self.valid(),
            self.has(c),
        ensures
            self.detached(c).detached(c) == self.detached(c),
    {
        self.lemma_detached_valid(c);
        self.lemma_detached_lone(c);
        self.detached(c).lemma_detach_lone_noop(c);
    }

    /// Detaching leaves the node a root without siblings, keeps its children
    /// and every node's data.
    pub proof fn law_detach_keeps_children(self, c: Node)
        requires
            self.valid(),
            self.has(c),
        ensures
            self.detached(c).valid(),
            self.detached(c).parent[c.id()] is None,
            self.detached(c).siblings[c.id()] == seq![c],
            self.detached(c).children[c.id()] == self.children[c.id()],
            self.detached(c).data == self.data,
    {
        self.lemma_detached_valid(c);
        self.lemma_node_facts(c.id());
    }

    /// Appending `c` to `p` makes `c` the last child of `p`, after the other
    /// children of `p` in their order.
    pub proof fn law_append_last(self, p: Node, c: Node)
        requires
            self.valid(),
            self.has(p),
            self.has(c),
            !self.in_subtree(p, c),
        ensures
            self.appended(p, c).valid(),
            self.appended(p, c).parent[c.id()] == Some(p),
            self.appended(p, c).children[p.id()] == self.children[p.id()].filter(
                |y: Node| y != c,
            ).push(c),
            self.appended(p, c).last_child(p) == Some(c),
    {
        self.lemma_appended_keeps(p, c);
        self.lemma_children_after_detach(p, c);
        self.lemma_detached_valid(c);
        let w = self.detached(c);
        let l = w.children[p.id()];
        assert(self.appended(p, c).children[p.id()] == l.push(c));
        assert(l.push(c)[l.len() as int] == c);
    }

    /// Prepending `c` to `p` makes `c` the first child of `p`, before the
    /// other children of `p` in their order.
    pub proof fn law_prepend_first(self, p: Node, c: Node)
        requires
            self.valid(),
            self.has(p),
            self.has(c),
            !self.in_subtree(p, c),
        ensures
            self.prepended(p, c).valid(),
            self.prepended(p, c).parent[c.id()] == Some(p),
            self.prepended(p, c).children[p.id()] == seq![c] + self.children[p.id()].filter(
                |y: Node| y != c,
            ),
            self.prepended(p, c).first_child(p) == Some(c),
    {
        let w = self.detached(c);
        let list = w.children[p.id()];
        self.lemma_detached_valid(c);
        self.lemma_detached_lone(c);
        assert(!list.contains(c)) by {
            assert(w.children_ok(p.id()));
            if list.contains(c) {
                let j = list.index_of(c);
                lemma_index_of_contains(list, c);
            }
        }
        self.lemma_ready(Some(p), c, list, 0);
        w.lemma_spliced_valid(c, Some(p), list, 0);
        assert(list.insert(0, c) =~= seq![c] + list);
        self.lemma_children_after_detach(p, c);
    }

    /// After `c` is detached, the children of `p` are the former ones without `c`.
    proof fn lemma_children_after_detach(self, p: Node, c: Node)
        requires
            self.valid(),
            self.has(p),
            self.has(c),
        ensures
            self.detached(c).children[p.id()] == self.children[p.id()].filter(|y: Node| y != c),
    {
        let ch = self.children[p.id()];
        assert(self.children_ok(p.id()));
        self.lemma_node_facts(c.id());
        if self.parent[c.id()] == Some(p) {
            assert(self.siblings_ok(c.id()));
            lemma_index_of_contains(ch, c);
            lemma_remove_is_filter(ch, c);
        } else {
            if ch.len() > 0 {
                assert(ch[0].id() < self.len());
                assert(self.siblings_ok(ch[0].id()));
            }
            assert(!ch.contains(c)) by {
                if ch.contains(c) {
                    let j = ch.index_of(c);
                    lemma_index_of_contains(ch, c);
                }
            }
            if ch.len() > 0 {
                lemma_remove_is_filter(ch, c);
            } else {
                reveal(Seq::filter);
                assert(ch.filter(|y: Node| y != c) =~= ch);
            }
        }
    }

    /// Inserting `s` after `a` makes `s` the next sibling of `a`, under the
    /// same parent.
    pub proof fn law_insert_after_next(self, a: Node, s: Node)
        requires
            self.valid(),
            self.has(a),
            self.has(s),
            !self.in_subtree(a, s),
        ensures
            self.inserted_after(a, s).valid(),
            self.inserted_after(a, s).next_sibling(a) == Some(s),
            self.inserted_after(a, s).previous_sibling(s) == Some(a),
            self.inserted_after(a, s).parent[s.id()] == self.parent[a.id()],
    {
        let w = self.detached(s);
        let list = w.siblings[a.id()];
        let k = w.position(a);
        self.lemma_insert_target(a, s);
        w.lemma_spliced_valid(s, w.parent[a.id()], list, k + 1);
        w.lemma_spliced_links(s, w.parent[a.id()], list, k + 1);
    }

    /// Inserting `s` before `a` makes `s` the previous sibling of `a`, under
    /// the same parent.
    pub proof fn law_insert_before_previous(self, a: Node, s: Node)
        requires
            self.valid(),
            self.has(a),
            self.has(s),
            !self.in_subtree(a, s),
        ensures
            self.inserted_before(a, s).valid(),
            self.inserted_before(a, s).previous_sibling(a) == Some(s),
            self.inserted_before(a, s).next_sibling(s) == Some(a),
            self.inserted_before(a, s).parent[s.id()] == self.parent[a.id()],
    {
        let w = self.detached(s);
        let list = w.siblings[a.id()];
        let k = w.position(a);
        self.lemma_insert_target(a, s);
        w.lemma_spliced_valid(s, w.parent[a.id()], list, k);
        w.lemma_spliced_links(s, w.parent[a.id()], list, k);
    }

    /// The sibling list of `a` is ready to take `s`, and `a` keeps its parent.
    proof fn lemma_insert_target(self, a: Node, s: Node)
        requires
            self.valid(),
            self.has(a),
            self.has(s),
            !self.in_subtree(a, s),
        ensures
            ({
                let w = self.detached(s);
                let list = w.siblings[a.id()];
                let k = w.position(a);
                &&& 0 <= k < list.len()
                &&& list[k] == a
                &&& w.valid()
                &&& w.can_splice(s, w.parent[a.id()], list, k)
                &&& w.can_splice(s, w.parent[a.id()], list, k + 1)
                &&& w.parent[a.id()] == self.parent[a.id()]
            }),
    {
        self.lemma_sibling_target(a, s);
        assert(a != s) by {
            self.lemma_node_facts(a.id());
            let aa = self.ancestors[a.id()];
            assert(aa.subrange(0, aa.len() as int) =~= aa);
        }
    }

    /// Detaching a node undoes appending it: the result is as if it had only
    /// been detached.
    pub proof fn law_detach_undoes_append(self, p: Node, c: Node)
        requires
            self.valid(),
            self.has(p),
            self.has(c),
            !self.in_subtree(p, c),
        ensures
            self.appended(p, c).detached(c) == self.detached(c),
    {
        let w = self.detached(c);
        let list = w.children[p.id()];
        self.lemma_detached_valid(c);
        self.lemma_detached_lone(c);
        assert(!list.contains(c)) by {
            assert(w.children_ok(p.id()));
            if list.contains(c) {
                let j = list.index_of(c);
                lemma_index_of_contains(list, c);
            }
        }
        self.lemma_ready(Some(p), c, list, list.len() as int);
        assert(list.insert(list.len() as int, c) =~= list.push(c));
        w.lemma_detach_undoes_splice(c, Some(p), list, list.len() as int);
    }

    /// Detaching a node undoes prepending it.
    pub proof fn law_detach_undoes_prepend(self, p: Node, c: Node)
        requires
            self.valid(),
            self.has(p),
            self.has(c),
            !self.in_subtree(p, c),
        ensures
            self.prepended(p, c).detached(c) == self.detached(c),
    {
        let w = self.detached(c);
        let list = w.children[p.id()];
        self.lemma_detached_valid(c);
        self.lemma_detached_lone(c);
        assert(!list.contains(c)) by {
            assert(w.children_ok(p.id()));
            if list.contains(c) {
                let j = list.index_of(c);
                lemma_index_of_contains(list, c);
            }
        }
        self.lemma_ready(Some(p), c, list, 0);
        assert(list.insert(0, c) =~= seq![c] + list);
        w.lemma_detach_undoes_splice(c, Some(p), list, 0);
    }

    /// Detaching a node undoes inserting it after a sibling.
    pub proof fn law_detach_undoes_insert_after(self, a: Node, s: Node)
        requires
            self.valid(),
            self.has(a),
            self.has(s),
            !self.in_subtree(a, s),
        ensures
            self.inserted_after(a, s).detached(s) == self.detached(s),
    {
        let w = self.detached(s);
        self.lemma_insert_target(a, s);
        w.lemma_detach_undoes_splice(s, w.parent[a.id()], w.siblings[a.id()], w.position(a) + 1);
    }

    /// Detaching a node undoes inserting it before a sibling.
    pub proof fn law_detach_undoes_insert_before(self, a: Node, s: Node)
        requires
            self.valid(),
            self.has(a),
            self.has(s),
            !self.in_subtree(a, s),
        ensures
            self.inserted_before(a, s).detached(s) == self.detached(s),
    {
        let w = self.detached(s);
        self.lemma_insert_target(a, s);
        w.lemma_detach_undoes_splice(s, w.parent[a.id()], w.siblings[a.id()], w.position(a));
    }
}


impl<T> ArenaView<T> {
    /// Walking a list of subtrees, then another, is walking their concatenation.
    proof fn lemma_edges_of_add(self, rev: bool, a: Seq<Node>, b: Seq<Node>, fuel: nat)
        ensures
            self.edges_of(rev, a + b, fuel) == self.edges_of(rev, a, fuel) + self.edges_of(
                rev,
                b,
                fuel,
            ),
        decreases a.len(),
    {
        if a.len() == 0 {
            assert(a + b =~= b);
            assert(self.edges_of(rev, a, fuel) + self.edges_of(rev, b, fuel) =~= self.edges_of(
                rev,
                b,
                fuel,
            ));
        } else {
            assert((a + b).drop_first() =~= a.drop_first() + b);
            assert((a + b)[0] == a[0]);
            self.lemma_edges_of_add(rev, a.drop_first(), b, fuel);
            assert(self.edges_of(rev, a + b, fuel) =~= self.edges_of(rev, a, fuel)
                + self.edges_of(rev, b, fuel));
        }
    }

    /// The reverse walk of a subtree is the tree-order walk read backwards.
    proof fn lemma_reverse_edges(self, x: Node, fuel: nat)
        ensures
            self.edges(true, x, fuel) == self.edges(false, x, fuel).reverse(),
        decreases fuel, 0nat,
    {
        if fuel == 0 {
            assert(self.edges(false, x, fuel).reverse() =~= Seq::<NodeEdge<Node>>::empty());
        } else {
            let f = (fuel - 1) as nat;
            let ch = self.children[x.id()];
            self.lemma_reverse_edges_of(ch, f);
            let l = self.edges_of(false, ch, f);
            let t = seq![NodeEdge::Start(x)] + l + seq![NodeEdge::End(x)];
            assert(self.edges(false, x, fuel) == t);
            assert(t.reverse() =~= seq![NodeEdge::End(x)] + l.reverse() + seq![NodeEdge::Start(x)]);
        }
    }

    proof fn lemma_reverse_edges_of(self, cs: Seq<Node>, fuel: nat)
        ensures
            self.edges_of(true, cs.reverse(), fuel) == self.edges_of(false, cs, fuel).reverse(),
        decreases fuel, cs.len(),
    {
        if cs.len() == 0 {
            assert(cs.reverse() =~= cs);
            assert(self.edges_of(false, cs, fuel).reverse() =~= Seq::<NodeEdge<Node>>::empty());
        } else {
            let c = cs[0];
            let rest = cs.drop_first();
            self.lemma_reverse_edges(c, fuel);
            self.lemma_reverse_edges_of(rest, fuel);
            assert(cs.reverse() =~= rest.reverse() + seq![c]);
            self.lemma_edges_of_add(true, rest.reverse(), seq![c], fuel);
            let one = seq![c];
            assert(one.drop_first() =~= Seq::<Node>::empty());
            assert(self.edges_of(true, one.drop_first(), fuel) == Seq::<NodeEdge<Node>>::empty());
            assert(self.edges_of(true, one, fuel) == self.edges(true, c, fuel) + self.edges_of(
                true,
                one.drop_first(),
                fuel,
            ));
            assert(self.edges_of(true, one, fuel) =~= self.edges(true, c, fuel));
            let ec = self.edges(false, c, fuel);
            let er = self.edges_of(false, rest, fuel);
            assert(self.edges_of(false, cs, fuel) == ec + er);
            assert((ec + er).reverse() =~= er.reverse() + ec.reverse());
        }
    }

    /// The reverse traversal of a node yields the edges of its tree-order
    /// traversal in reverse order.
    pub proof fn law_reverse_traversal(self, x: Node)
        ensures
            self.reverse_traversal(x) == self.traversal(x).reverse(),
    {
        self.lemma_reverse_edges(x, self.fuel(x));
    }

    /// The descendants of a node are, without repeats, exactly the nodes of
    /// its subtree, the node itself first: parents appear before their
    /// descendants.
    pub proof fn law_descendants(self, x: Node)
        requires
            self.valid(),
            self.has(x),
        ensures
            self.descendants(x).no_duplicates(),
            self.descendants(x).len() > 0,
            self.descendants(x)[0] == x,
            forall|y: Node|
                #![trigger self.descendants(x).contains(y)]
                self.descendants(x).contains(y) <==> (self.has(y) && self.in_subtree(y, x)),
    {
        self.lemma_starts(x);
    }

    /// The descendants of the nodes of `cs`, one after the other.
    pub open spec fn descendants_of(self, cs: Seq<Node>) -> Seq<Node>
        decreases cs.len(),
    {
        if cs.len() == 0 {
            Seq::empty()
        } else {
            self.descendants(cs[0]) + self.descendants_of(cs.drop_first())
        }
    }

    proof fn lemma_descendants_of(self, x: Node, j: int)
        requires
            self.valid(),
            self.has(x),
            self.fuel(x) >= 1,
            0 <= j <= self.children[x.id()].len(),
        ensures
            starts(self.edges_of(false, self.children[x.id()].skip(j), (self.fuel(x) - 1) as nat))
                == self.descendants_of(self.children[x.id()].skip(j)),
        decreases self.children[x.id()].len() - j,
    {
        let ch = self.children[x.id()];
        let cs = ch.skip(j);
        let f = (self.fuel(x) - 1) as nat;
        if cs.len() > 0 {
            let c = ch[j];
            assert(cs[0] == c);
            assert(cs.drop_first() =~= ch.skip(j + 1));
            self.lemma_kids(false, x, j);
            self.lemma_node_facts(c.id());
            self.lemma_depth_bound(c.id());
            assert(self.fuel(c) == f);
            self.lemma_descendants_of(x, j + 1);
            lemma_starts_add(self.edges(false, c, f), self.edges_of(false, ch.skip(j + 1), f));
        }
    }

    /// The descendants of a node are the node, then the descendants of each
    /// of its children in order.
    pub proof fn law_descendants_by_children(self, x: Node)
        requires
            self.valid(),
            self.has(x),
        ensures
            self.descendants(x) == seq![x] + self.descendants_of(self.children[x.id()]),
    {
        let ch = self.children[x.id()];
        self.lemma_depth_bound(x.id());
        let f = (self.fuel(x) - 1) as nat;
        self.lemma_descendants_of(x, 0);
        assert(ch.skip(0) =~= ch);
        let l = self.edges_of(false, ch, f);
        let t = self.traversal(x);
        let ss = seq![NodeEdge::<Node>::Start(x)];
        let se = seq![NodeEdge::<Node>::End(x)];
        assert(t == ss + l + se);
        lemma_starts_add(ss + l, se);
        lemma_starts_add(ss, l);
        assert(starts(se) == starts(se.drop_first()));
        assert(se.drop_first() =~= Seq::<NodeEdge<Node>>::empty());
        assert(starts(ss) == seq![x] + starts(ss.drop_first()));
        assert(ss.drop_first() =~= Seq::<NodeEdge<Node>>::empty());
    }

    /// The walk of the subtrees of `cs` holds every edge of the walk of the
    /// subtree of each of them.
    proof fn lemma_edges_of_holds(self, cs: Seq<Node>, f: nat, k: int, e: NodeEdge<Node>)
        requires
            0 <= k < cs.len(),
            self.edges(false, cs[k], f).contains(e),
        ensures
            self.edges_of(false, cs, f).contains(e),
        decreases k,
    {
        let a = self.edges(false, cs[0], f);
        let b = self.edges_of(false, cs.drop_first(), f);
        if k == 0 {
            let i = choose|i: int| 0 <= i < a.len() && a[i] == e;
            assert((a + b)[i] == e);
        } else {
            self.lemma_edges_of_holds(cs.drop_first(), f, k - 1, e);
            let i = choose|i: int| 0 <= i < b.len() && b[i] == e;
            assert((a + b)[a.len() + i] == e);
        }
    }

    /// The tree-order walk of `x` holds the start and end edges of every node
    /// of its subtree.
    proof fn lemma_traversal_holds(self, x: Node, y: Node)
        requires
            self.valid(),
            self.has(x),
            self.has(y),
            self.in_subtree(y, x),
        ensures
            self.traversal(x).contains(NodeEdge::Start(y)),
            self.traversal(x).contains(NodeEdge::End(y)),
        decreases self.fuel(x),
    {
        self.lemma_depth_bound(x.id());
        let ch = self.children[x.id()];
        let f = (self.fuel(x) - 1) as nat;
        let l = self.edges_of(false, ch, f);
        let t = self.traversal(x);
        let ss = seq![NodeEdge::<Node>::Start(x)];
        let se = seq![NodeEdge::<Node>::End(x)];
        assert(t == ss + l + se);
        if y == x {
            assert(t[0] == NodeEdge::Start(x));
            assert(t[t.len() - 1] == NodeEdge::End(x));
        } else {
            let c = self.toward(y, x);
            self.lemma_toward(y, x);
            self.lemma_node_facts(c.id());
            assert(self.siblings[c.id()] == ch);
            lemma_index_of_contains(ch, c);
            let k = ch.index_of(c);
            self.lemma_depth_bound(c.id());
            assert(self.fuel(c) == f);
            self.lemma_traversal_holds(c, y);
            self.lemma_edges_of_holds(ch, f, k, NodeEdge::Start(y));
            self.lemma_edges_of_holds(ch, f, k, NodeEdge::End(y));
            let i = choose|i: int| 0 <= i < l.len() && l[i] == NodeEdge::<Node>::Start(y);
            assert(t[i + 1] == NodeEdge::<Node>::Start(y));
            let i2 = choose|i: int| 0 <= i < l.len() && l[i] == NodeEdge::<Node>::End(y);
            assert(t[i2 + 1] == NodeEdge::<Node>::End(y));
        }
    }

    /// The reverse walk of a node yields the start and the end edge of each
    /// of its descendants.
    pub proof fn law_reverse_traversal_covers(self, x: Node, y: Node)
        requires
            self.valid(),
            self.has(x),
            self.descendants(x).contains(y),
        ensures
            self.reverse_traversal(x).contains(NodeEdge::Start(y)),
            self.reverse_traversal(x).contains(NodeEdge::End(y)),
    {
        self.law_descendants(x);
        self.lemma_traversal_holds(x, y);
        self.law_reverse_traversal(x);
        let t = self.traversal(x);
        let i = choose|i: int| 0 <= i < t.len() && t[i] == NodeEdge::<Node>::Start(y);
        assert(t.reverse()[t.len() - 1 - i] == NodeEdge::<Node>::Start(y));
        let i2 = choose|i: int| 0 <= i < t.len() && t[i] == NodeEdge::<Node>::End(y);
        assert(t.reverse()[t.len() - 1 - i2] == NodeEdge::<Node>::End(y));
    }

    /// The traversal of a node starts at the start of the node, ends at its
    /// end, and goes from each edge to the one that `step` gives.
    pub proof fn law_traversal_bounds(self, x: Node)
        requires
            self.valid(),
            self.has(x),
        ensures
            self.traversal(x)[0] == NodeEdge::Start(x),
            self.traversal(x).last() == NodeEdge::End(x),
            self.reverse_traversal(x)[0] == NodeEdge::End(x),
            self.reverse_traversal(x).last() == NodeEdge::Start(x),
    {
        self.lemma_node_facts(x.id());
        let a = self.ancestors[x.id()];
        assert(a.subrange(0, a.len() as int) =~= a);
        self.lemma_edges_step(false, x, x);
        self.lemma_edges_step(true, x, x);
    }

    /// Each of the walks that include the node itself yields the node first.
    pub proof fn law_walks_start_at_node(self, x: Node)
        requires
            self.valid(),
            self.has(x),
        ensures
            self.ancestors[x.id()][0] == x,
            self.preceding(x)[0] == x,
            self.following(x)[0] == x,
            self.descendants(x)[0] == x,
    {
        self.lemma_ancestors_advance(x);
        self.lemma_preceding_advance(x);
        self.lemma_following_advance(x);
        self.lemma_starts(x);
    }

    /// The siblings before a node, read backwards, then the node and the
    /// siblings after it, make up its whole sibling list.
    pub proof fn law_siblings_split(self, x: Node)
        requires
            self.valid(),
            self.has(x),
        ensures
            self.preceding(x).reverse() + self.following(x).drop_first() == self.siblings[x.id()],
    {
        let s = self.siblings[x.id()];
        assert(self.siblings_ok(x.id()));
        lemma_index_of_contains(s, x);
        let k = self.position(x);
        let pre = s.take(k + 1);
        assert(pre.reverse().reverse() =~= pre);
        assert(pre + s.skip(k + 1) =~= s);
        assert(self.following(x).drop_first() =~= s.skip(k + 1));
    }
}


impl<T> ArenaView<T> {
    /// The links of a valid state agree with each other the way the editing
    /// operations rely on: a next sibling has the node as previous sibling
    /// and the same parent, a first child has no previous sibling and a last
    /// child no next one, a child without previous (next) sibling is the
    /// first (last) child of its parent, and no walk along parents or
    /// siblings goes round in a circle.
    pub proof fn law_links_form_forest(self)
        requires
            self.valid(),
        ensures
            forms_forest(view_links(self)),
    {
        let ls = view_links(self);
        assert(self.agrees(ls)) by {
            assert forall|i: int| 0 <= i < ls.len() implies #[trigger] self.agrees_at(ls, i) by {}
        }
        lemma_complete(self, ls);
    }
}

} // verus!
