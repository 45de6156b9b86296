use vstd::prelude::*;
use crate::model::{ArenaView, Node, ends_with};
use crate::arena::Arena;

verus! {

broadcast use crate::arena::lemma_wf_links;

impl<T> ArenaView<T> {
    /// The text of the subtree of `x`: the label of `x`, then, if `x` has
    /// children, a space and the texts of the children, separated by a comma
    /// and a space, between square brackets. `fuel` bounds the depth.
    pub open spec fn render(self, labels: Seq<String>, x: Node, fuel: nat) -> Seq<char>
        decreases fuel, 0nat,
    {
        if fuel == 0 {
            Seq::empty()
        } else {
            let ch = self.children[x.id()];
            labels[x.id()]@ + if ch.len() == 0 {
                Seq::empty()
            } else {
                seq![' ', '['] + self.render_list(labels, ch, (fuel - 1) as nat) + seq![']']
            }
        }
    }

    /// The texts of the subtrees of `cs`, separated by a comma and a space.
    pub open spec fn render_list(self, labels: Seq<String>, cs: Seq<Node>, fuel: nat) -> Seq<char>
        decreases fuel, cs.len(),
    {
        if cs.len() == 0 {
            Seq::empty()
        } else if cs.len() == 1 {
            self.render(labels, cs[0], fuel)
        } else {
            self.render_list(labels, cs.drop_last(), fuel) + seq![',', ' '] + self.render(
                labels,
                cs.last(),
                fuel,
            )
        }
    }
}

impl<T> ArenaView<T> {
    /// A text with more depth than the subtree needs is the same text.
    proof fn lemma_render_fuel(self, labels: Seq<String>, y: Node, f: nat)
        requires
            self.valid(),
            self.has(y),
            f >= self.fuel(y),
        ensures
            self.render(labels, y, f) == self.render(labels, y, self.fuel(y)),
        decreases self.fuel(y), 0int,
    {
        self.lemma_depth_bound(y.id());
        let ch = self.children[y.id()];
        assert(self.children_ok(y.id()));
        if ch.len() > 0 {
            assert forall|k: int| 0 <= k < ch.len() implies self.has(#[trigger] ch[k]) && self.fuel(
                ch[k],
            ) <= self.fuel(y) - 1 by {
                self.lemma_node_facts(ch[k].id());
                self.lemma_depth_bound(ch[k].id());
            }
            self.lemma_render_list_fuel(labels, ch, (f - 1) as nat, (self.fuel(y) - 1) as nat);
        }
    }

    proof fn lemma_render_list_fuel(self, labels: Seq<String>, cs: Seq<Node>, f: nat, g: nat)
        requires
            self.valid(),
            f >= g,
            forall|k: int| 0 <= k < cs.len() ==> self.has(#[trigger] cs[k]) && self.fuel(cs[k]) <= g,
        ensures
            self.render_list(labels, cs, f) == self.render_list(labels, cs, g),
        decreases g, cs.len(),
    {
        if cs.len() > 0 {
            let c = cs.last();
            assert(self.has(c) && self.fuel(c) <= g);
            self.lemma_render_fuel(labels, c, f);
            self.lemma_render_fuel(labels, c, g);
            let t = cs.drop_last();
            assert forall|k: int| 0 <= k < t.len() implies self.has(#[trigger] t[k]) && self.fuel(
                t[k],
            ) <= g by {
                assert(t[k] == cs[k]);
            }
            self.lemma_render_list_fuel(labels, t, f, g);
            if cs.len() == 1 {
                assert(cs[0] == c);
            }
        }
    }

    /// The text of the subtree of `y` reads only the children of the nodes
    /// of that subtree.
    proof fn lemma_render_frame(self, b: ArenaView<T>, labels: Seq<String>, y: Node, f: nat)
        requires
            self.valid(),
            self.has(y),
            forall|z: Node|
                self.has(z) && self.in_subtree(z, y) ==> #[trigger] b.children[z.id()]
                    == self.children[z.id()],
        ensures
            b.render(labels, y, f) == self.render(labels, y, f),
        decreases f, 0int,
    {
        if f > 0 {
            let ay = self.ancestors[y.id()];
            assert(ay.subrange(0, ay.len() as int) =~= ay);
            let ch = self.children[y.id()];
            assert(b.children[y.id()] == ch);
            assert(self.children_ok(y.id()));
            assert forall|k: int, z: Node|
                0 <= k < ch.len() && self.has(z) && #[trigger] self.in_subtree(z, ch[k]) implies b.children[
                z.id()
            ] == self.children[z.id()] by {
                self.lemma_under_child(z, y, ch[k]);
            }
            self.lemma_render_list_frame(b, labels, ch, (f - 1) as nat);
        }
    }

    proof fn lemma_render_list_frame(self, b: ArenaView<T>, labels: Seq<String>, cs: Seq<Node>, f: nat)
        requires
            self.valid(),
            forall|k: int| 0 <= k < cs.len() ==> self.has(#[trigger] cs[k]),
            forall|k: int, z: Node|
                0 <= k < cs.len() && self.has(z) && #[trigger] self.in_subtree(z, cs[k])
                    ==> b.children[z.id()] == self.children[z.id()],
        ensures
            b.render_list(labels, cs, f) == self.render_list(labels, cs, f),
        decreases f, cs.len(),
    {
        if cs.len() > 0 {
            let c = cs.last();
            assert(self.has(c));
            assert forall|z: Node| self.has(z) && self.in_subtree(z, c) implies #[trigger] b.children[
                z.id()
            ] == self.children[z.id()] by {
                assert(self.in_subtree(z, cs[cs.len() - 1]));
            }
            self.lemma_render_frame(b, labels, c, f);
            let t = cs.drop_last();
            assert forall|k: int| 0 <= k < t.len() implies self.has(#[trigger] t[k]) by {
                assert(t[k] == cs[k]);
            }
            assert forall|k: int, z: Node|
                0 <= k < t.len() && self.has(z) && #[trigger] self.in_subtree(z, t[k]) implies b.children[
                z.id()
            ] == self.children[z.id()] by {
                assert(t[k] == cs[k]);
            }
            self.lemma_render_list_frame(b, labels, t, f);
            if cs.len() == 1 {
                assert(cs[0] == c);
            }
        }
    }

    /// The text of a node without children is its label.
    pub proof fn law_debug_leaf(self, labels: Seq<String>, x: Node)
        requires
            self.valid(),
            self.has(x),
            self.children[x.id()].len() == 0,
        ensures
            self.render(labels, x, self.fuel(x)) == labels[x.id()]@,
    {
        self.lemma_depth_bound(x.id());
        assert(labels[x.id()]@ + Seq::<char>::empty() =~= labels[x.id()]@);
    }

    /// Appending a root without siblings `c` to `x` gives `x` the children
    /// it had and then `c`, keeps the children of the other nodes and the
    /// depth of `x`, and puts `c` one level below `x`.
    pub(crate) proof fn lemma_append_lone(self, x: Node, c: Node)
        requires
            self.valid(),
            self.has(x),
            self.has(c),
            self.parent[c.id()] is None,
            self.previous_sibling(c) is None,
            self.next_sibling(c) is None,
            !self.in_subtree(x, c),
        ensures
            self.appended(x, c).valid(),
            self.appended(x, c).len() == self.len(),
            self.appended(x, c).children == self.children.update(
                x.id(),
                self.children[x.id()].push(c),
            ),
            self.appended(x, c).fuel(x) == self.fuel(x),
            self.appended(x, c).fuel(c) == self.fuel(x) - 1,
            self.fuel(c) >= self.fuel(x) - 1,
            self.fuel(x) >= 1,
    {
        self.law_detach_lone_root(c);
        self.lemma_appended_keeps(x, c);
        self.lemma_depth_bound(x.id());
        self.lemma_depth_bound(c.id());
        self.lemma_node_facts(c.id());
        assert(self.ancestors_ok(c.id()));
        let u = self.appended(x, c);
        let ac = self.ancestors[c.id()];
        assert(ends_with(ac, ac)) by {
            assert(ac.subrange(0, ac.len() as int) =~= ac);
        }
        assert(u.ancestors[c.id()] == ac + self.ancestors[x.id()]);
    }

    /// Appending a root without siblings `c` to `x` adds the text of the
    /// subtree of `c` to that of `x` as its last child: between new square
    /// brackets after a space when `x` had no children, else after the text
    /// of the former last child, separated from it by a comma and a space.
    pub proof fn law_debug_append(self, labels: Seq<String>, x: Node, c: Node)
        requires
            self.valid(),
            self.has(x),
            self.has(c),
            self.parent[c.id()] is None,
            self.previous_sibling(c) is None,
            self.next_sibling(c) is None,
            !self.in_subtree(x, c),
        ensures
            self.appended(x, c).render(labels, x, self.appended(x, c).fuel(x)) == if self.children[x.id()].len()
                == 0 {
                labels[x.id()]@ + seq![' ', '['] + self.render(labels, c, self.fuel(c)) + seq![']']
            } else {
                self.render(labels, x, self.fuel(x)).drop_last() + seq![',', ' '] + self.render(
                    labels,
                    c,
                    self.fuel(c),
                ) + seq![']']
            },
    {
        let ch = self.children[x.id()];
        let u = self.appended(x, c);
        self.lemma_append_lone(x, c);
        let f = self.fuel(x);
        assert(u.children[x.id()] == ch.push(c));
        // the subtree of `c` keeps its children
        assert forall|z: Node| self.has(z) && self.in_subtree(z, c) implies #[trigger] u.children[
            z.id()
        ] == self.children[z.id()] by {
            crate::forest::lemma_nd(z);
            crate::forest::lemma_nd(x);
        }
        u.lemma_render_fuel(labels, c, self.fuel(c));
        self.lemma_render_frame(u, labels, c, self.fuel(c));
        assert(u.render(labels, c, (f - 1) as nat) == self.render(labels, c, self.fuel(c)));
        let nl = ch.push(c);
        if ch.len() == 0 {
            assert(nl.len() == 1 && nl[0] == c);
        } else {
            assert(nl.drop_last() =~= ch);
            assert(nl.last() == c);
            assert(self.children_ok(x.id()));
            assert forall|k: int| 0 <= k < ch.len() implies self.has(#[trigger] ch[k]) by {}
            assert forall|k: int, z: Node|
                0 <= k < ch.len() && self.has(z) && #[trigger] self.in_subtree(z, ch[k]) implies u.children[
                z.id()
            ] == self.children[z.id()] by {
                self.lemma_under_child(z, x, ch[k]);
                crate::forest::lemma_nd(z);
                crate::forest::lemma_nd(x);
            }
            self.lemma_render_list_frame(u, labels, ch, (f - 1) as nat);
            let lx = labels[x.id()]@;
            let m = self.render_list(labels, ch, (f - 1) as nat);
            assert((lx + (seq![' ', '['] + m + seq![']'])).drop_last() =~= lx + seq![' ', '['] + m);
        }
    }
}

/// Append the text of the subtree of `x` to `out`.
fn render_into<T>(arena: &Arena<T>, labels: &Vec<String>, x: Node, out: &mut String)
    requires
        arena.wf(),
        arena@.has(x),
        labels@.len() == arena@.len(),
    ensures
        final(out)@ == old(out)@ + arena@.render(labels@, x, arena@.fuel(x)),
    decreases arena@.fuel(x),
{
    let ghost v = arena@;
    proof {
        arena.lemma_valid();
        v.lemma_depth_bound(x.id());
        v.lemma_children_walks(x);
        v.lemma_links_in_range(x);
        reveal_strlit(" [");
        reveal_strlit(", ");
        reveal_strlit("]");
    }
    let ghost start = out@;
    out.append(labels[x.index].as_str());
    let first = x.first_child(arena);
    if let Some(first) = first {
        let ghost ch = v.children[x.id()];
        let ghost f = (v.fuel(x) - 1) as nat;
        out.append(" [");
        let ghost base = out@;
        let mut child = Some(first);
        let mut count: usize = 0;
        proof {
            assert(ch.len() > 0);
            assert(v.following_from(Some(first)) == ch);
            assert(ch.skip(0) =~= ch);
            assert(v.children_ok(x.id()));
            assert(v.siblings_ok(first.id()));
            assert(v.siblings[first.id()] == ch);
            crate::model::lemma_distinct_bounded(ch, v.len());
        }
        while child.is_some()
            invariant
                arena.wf(),
                v == arena@,
                v.valid(),
                v.has(x),
                labels@.len() == v.len(),
                ch == v.children[x.id()],
                ch.len() > 0,
                ch.len() <= v.len(),
                f + 1 == v.fuel(x),
                count <= ch.len(),
                v.following_from(child) == ch.skip(count as int),
                child matches Some(c) ==> v.has(c),
                out@ == base + v.render_list(labels@, ch.take(count as int), f),
            decreases ch.len() - count,
        {
            let c = child.unwrap();
            proof {
                v.lemma_following_advance(c);
                v.lemma_links_in_range(c);
                assert(ch.skip(count as int)[0] == c);
                assert(ch[count as int] == c);
                v.lemma_kids(false, x, count as int);
                let a = v.ancestors[x.id()];
                assert(a.subrange(0, a.len() as int) =~= a);
                v.lemma_child_in_subtree(x, c, x);
                assert(ch.take(count + 1).drop_last() =~= ch.take(count as int));
                assert(ch.take(count + 1).last() == c);
                assert(ch.skip(count as int).drop_first() =~= ch.skip(count + 1));
                assert(count < ch.len());
                reveal_strlit(", ");
            }
            if count > 0 {
                out.append(", ");
            }
            render_into(arena, labels, c, out);
            proof {
                if count == 0 {
                    assert(ch.take(1) =~= seq![c]);
                    assert(ch.take(0) =~= Seq::<Node>::empty());
                    assert(v.render_list(labels@, ch.take(0), f) =~= Seq::<char>::empty());
                }
                assert(out@ =~= base + v.render_list(labels@, ch.take(count + 1), f));
            }
            child = c.next_sibling(arena);
            count = count + 1;
        }
        proof {
            assert(ch.skip(count as int).len() == 0);
            assert(ch.take(count as int) =~= ch);
        }
        out.append("]");
        proof {
            assert(out@ =~= start + v.render(labels@, x, v.fuel(x)));
        }
    } else {
        proof {
            assert(out@ =~= start + v.render(labels@, x, v.fuel(x)));
        }
    }
}

impl Node {
    /// The text of this node and its descendants, each node shown by its
    /// label `labels[i]`: the label of the node, then, if it has children,
    /// a space and the texts of the children, separated by a comma and a
    /// space, between square brackets.
    pub fn debug_tree<T>(self, arena: &Arena<T>, labels: &Vec<String>) -> (r: String)
        requires
            arena.wf(),
            arena@.has(self),
            labels@.len() == arena@.len(),
        ensures
            r@ == arena@.render(labels@, self, arena@.fuel(self)),
    {
        let mut out = String::new();
        render_into(arena, labels, self, &mut out);
        proof {
            assert(out@ =~= arena@.render(labels@, self, arena@.fuel(self)));
        }
        out
    }
}

} // verus!
