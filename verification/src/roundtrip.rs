use vstd::prelude::*;
use crate::traverse::{NodeEdge, starts};
use crate::model::{ArenaView, Links, Node, lemma_index_of, lemma_index_of_contains};
use crate::forest::{
    shape_of, chain, back, full_chain, lemma_chain, lemma_chain_unique,
    consistent_at, acyclic_at, forms_forest, in_range, opt_in, reaches_end, link, nd, lemma_nd,
    lemma_complete, lemma_complete_up, lemma_complete_back, lemma_complete_fwd, lemma_sound,
};
use crate::wire::{WireNode, wire_ref, wire_target, wire_shape, wire_data, wire_links, all_links,
    first_out_of_bounds};

verus! {

/// The links of every node of a state.
pub open spec fn view_links<T>(v: ArenaView<T>) -> Seq<Links> {
    Seq::new(
        v.len(),
        |j: int|
            Links {
                parent: v.parent[j],
                previous_sibling: v.previous_sibling(nd(j)),
                next_sibling: v.next_sibling(nd(j)),
                first_child: v.first_child(nd(j)),
                last_child: v.last_child(nd(j)),
            },
    )
}

/// A link renamed by the position of its node in `order`.
pub open spec fn relabel(order: Seq<Node>, o: Option<Node>) -> Option<Node> {
    match o {
        Some(n) => Some(nd(order.index_of(n))),
        None => None,
    }
}

/// The links of the nodes of `order`, each node named by its position in `order`.
pub open spec fn relabeled(order: Seq<Node>, ls: Seq<Links>) -> Seq<Links> {
    Seq::new(
        order.len(),
        |i: int|
            {
                let l = ls[order[i].id()];
                Links {
                    parent: relabel(order, l.parent),
                    previous_sibling: relabel(order, l.previous_sibling),
                    next_sibling: relabel(order, l.next_sibling),
                    first_child: relabel(order, l.first_child),
                    last_child: relabel(order, l.last_child),
                }
            },
    )
}

/// Every link of a node of `order` names a node of `order`.
pub open spec fn closed_under(order: Seq<Node>, ls: Seq<Links>) -> bool {
    forall|j: int|
        0 <= j < order.len() ==> {
            let l = ls[#[trigger] order[j].id()];
            &&& (l.parent matches Some(y) ==> order.contains(y))
            &&& (l.previous_sibling matches Some(y) ==> order.contains(y))
            &&& (l.next_sibling matches Some(y) ==> order.contains(y))
            &&& (l.first_child matches Some(y) ==> order.contains(y))
            &&& (l.last_child matches Some(y) ==> order.contains(y))
        }
}

/// A list without repeats whose members all lie in `t`, a list without
/// repeats, is no longer than `t`.
pub proof fn lemma_sub_len(s: Seq<Node>, t: Seq<Node>)
    requires
        s.no_duplicates(),
        t.no_duplicates(),
        forall|i: int| 0 <= i < s.len() ==> t.contains(#[trigger] s[i]),
    ensures
        s.len() <= t.len(),
{
    s.unique_seq_to_set();
    t.unique_seq_to_set();
    assert(s.to_set().subset_of(t.to_set())) by {
        assert forall|y: Node| s.to_set().contains(y) implies t.to_set().contains(y) by {
            let k = s.index_of(y);
            lemma_index_of_contains(s, y);
        }
    }
    vstd::seq_lib::seq_to_set_is_finite(t);
    vstd::set_lib::lemma_len_subset(s.to_set(), t.to_set());
}

/// Renaming keeps a walk that stays within `order` ending.
proof fn lemma_walk_renamed(order: Seq<Node>, ls: Seq<Links>, which: nat, j: int, k: nat)
    requires
        order.no_duplicates(),
        forall|i: int| 0 <= i < order.len() ==> (#[trigger] order[i]).id() < ls.len(),
        order.len() < usize::MAX,
        closed_under(order, ls),
        which <= 2,
        0 <= j < order.len(),
        reaches_end(ls, which, order[j].id(), k),
    ensures
        reaches_end(relabeled(order, ls), which, j, k),
    decreases k,
{
    let r = relabeled(order, ls);
    let l = ls[order[j].id()];
    assert(r[j] == Links {
        parent: relabel(order, l.parent),
        previous_sibling: relabel(order, l.previous_sibling),
        next_sibling: relabel(order, l.next_sibling),
        first_child: relabel(order, l.first_child),
        last_child: relabel(order, l.last_child),
    });
    if let Some(y) = link(ls, which, order[j].id()) {
        assert(order.contains(y));
        let jy = order.index_of(y);
        lemma_index_of_contains(order, y);
        assert(link(r, which, j) == Some(nd(jy)));
        lemma_walk_renamed(order, ls, which, jy, (k - 1) as nat);
    }
}

impl<T> ArenaView<T> {
    /// The nodes on the way up from a node of the subtree of a root are
    /// nodes of that subtree.
    proof fn lemma_path_in_subtree(self, root: Node, x: Node)
        requires
            self.valid(),
            self.has(root),
            self.parent[root.id()] is None,
            self.has(x),
            self.in_subtree(x, root),
        ensures
            forall|j: int|
                0 <= j < self.ancestors[x.id()].len() ==> self.descendants(root).contains(
                    #[trigger] self.ancestors[x.id()][j],
                ),
    {
        let a = self.ancestors[x.id()];
        let ar = self.ancestors[root.id()];
        self.lemma_node_facts(root.id());
        assert(self.ancestors_ok(root.id()));
        assert(ar == seq![root]);
        self.law_descendants(root);
        assert forall|j: int| 0 <= j < a.len() implies self.descendants(root).contains(
            #[trigger] a[j],
        ) by {
            self.lemma_ancestors_suffix(x.id(), j);
            let y = a[j];
            let ay = self.ancestors[y.id()];
            assert(ay == a.skip(j));
            assert(a.subrange(a.len() - 1, a.len() as int) == ar);
            assert(ay.subrange(ay.len() - 1, ay.len() as int) =~= a.subrange(
                a.len() - 1,
                a.len() as int,
            ));
        }
    }

    /// The facts about the tree order of the subtree of a root that the
    /// layout lemmas share.
    proof fn lemma_layout_basics(self, root: Node)
        requires
            self.valid(),
            self.has(root),
            self.parent[root.id()] is None,
            self.siblings[root.id()] == seq![root],
        ensures
            ({
                let order = self.descendants(root);
                &&& order.no_duplicates()
                &&& forall|j: int| 0 <= j < order.len() ==> self.has(#[trigger] order[j])
                &&& order.len() <= self.len()
                &&& forall|j: int| 0 <= j < order.len() ==> order.index_of(#[trigger] order[j]) == j
                &&& forall|y: Node|
                    #![trigger order.index_of(y)]
                    order.contains(y) ==> order[order.index_of(y)] == y && 0 <= order.index_of(y)
                        < order.len()
                &&& forall|y: Node|
                    #![trigger order.contains(y)]
                    order.contains(y) <==> (self.has(y) && self.in_subtree(y, root))
                &&& self.agrees(view_links(self))
                &&& forms_forest(view_links(self))
                &&& closed_under(order, view_links(self))
            }),
    {
        let order = self.descendants(root);
        let ls = view_links(self);
        let m = order.len();
        self.law_descendants(root);
        assert(self.agrees(ls)) by {
            assert forall|i: int| 0 <= i < ls.len() implies #[trigger] self.agrees_at(ls, i) by {}
        }
        lemma_complete(self, ls);
        assert forall|j: int| 0 <= j < m implies self.has(#[trigger] order[j]) by {
            assert(order.contains(order[j]));
        }
        crate::model::lemma_distinct_bounded(order, self.len());
        assert forall|j: int| 0 <= j < m implies order.index_of(#[trigger] order[j]) == j by {
            lemma_index_of(order, j);
        }
        assert forall|y: Node| #![trigger order.index_of(y)] order.contains(y) implies order[order.index_of(y)]
            == y && 0 <= order.index_of(y) < m by {
            lemma_index_of_contains(order, y);
        }
        assert forall|j: int| 0 <= j < m implies {
            let l = ls[#[trigger] order[j].id()];
            &&& (l.parent matches Some(y) ==> order.contains(y))
            &&& (l.previous_sibling matches Some(y) ==> order.contains(y))
            &&& (l.next_sibling matches Some(y) ==> order.contains(y))
            &&& (l.first_child matches Some(y) ==> order.contains(y))
            &&& (l.last_child matches Some(y) ==> order.contains(y))
        } by {
            let x = order[j];
            assert(order.contains(x));
            self.lemma_links_in_subtree(root, x);
            self.lemma_links_in_range(x);
            lemma_nd(x);
        }
    }

    /// The renamed links of node `i` agree with those of its neighbours.
    proof fn lemma_layout_consistent(self, root: Node, i: int)
        requires
            self.valid(),
            self.has(root),
            self.parent[root.id()] is None,
            self.siblings[root.id()] == seq![root],
            0 <= i < self.descendants(root).len(),
        ensures
            consistent_at(relabeled(self.descendants(root), view_links(self)), i),
    {
        let order = self.descendants(root);
        let ls = view_links(self);
        self.lemma_layout_basics(root);
        let x = order[i];
        assert(self.has(x));
        assert(consistent_at(ls, x.id()));
        lemma_nd(x);
        let l = ls[x.id()];
        if let Some(y) = l.next_sibling {
            let jy = order.index_of(y);
            lemma_nd(y);
        }
        if let Some(y) = l.previous_sibling {
            let jy = order.index_of(y);
            lemma_nd(y);
        }
        if let Some(y) = l.first_child {
            let jy = order.index_of(y);
            lemma_nd(y);
        }
        if let Some(y) = l.last_child {
            let jy = order.index_of(y);
            lemma_nd(y);
        }
        if let Some(y) = l.parent {
            let jy = order.index_of(y);
            lemma_nd(y);
        }
    }

    /// The siblings of a node of the subtree of a root without siblings are
    /// nodes of that subtree.
    proof fn lemma_siblings_in_layout(self, root: Node, x: Node)
        requires
            self.valid(),
            self.has(root),
            self.parent[root.id()] is None,
            self.siblings[root.id()] == seq![root],
            self.descendants(root).contains(x),
        ensures
            forall|k: int|
                0 <= k < self.siblings[x.id()].len() ==> self.descendants(root).contains(
                    #[trigger] self.siblings[x.id()][k],
                ),
    {
        let order = self.descendants(root);
        self.law_descendants(root);
        assert(self.has(x));
        let s = self.siblings[x.id()];
        assert(self.siblings_ok(x.id()));
        self.lemma_node_facts(x.id());
        self.lemma_node_facts(root.id());
        assert(self.ancestors_ok(x.id()));
        assert(self.ancestors_ok(root.id()));
        if x != root && self.parent[x.id()] is None {
            let ax = self.ancestors[x.id()];
            assert(ax == seq![x]);
            assert(ax.subrange(0, 1)[0] == x);
        }
        assert forall|k: int| 0 <= k < s.len() implies order.contains(#[trigger] s[k]) by {
            let y = s[k];
            assert(y.id() < self.len());
            if x == root {
                assert(y == root);
            } else {
                self.lemma_links_in_subtree(root, x);
                self.lemma_node_facts(x.id());
                let p = self.parent[x.id()].unwrap();
                assert(self.parent[y.id()] == Some(p));
                assert(order.contains(p));
                self.lemma_child_under_root(p, y, root);
            }
        }
    }

    /// No walk along the renamed links of node `i` goes round in a circle.
    proof fn lemma_layout_acyclic(self, root: Node, i: int)
        requires
            self.valid(),
            self.has(root),
            self.parent[root.id()] is None,
            self.siblings[root.id()] == seq![root],
            0 <= i < self.descendants(root).len(),
        ensures
            acyclic_at(relabeled(self.descendants(root), view_links(self)), i),
    {
        let order = self.descendants(root);
        let ls = view_links(self);
        let m = order.len();
        self.lemma_layout_basics(root);
        let x = order[i];
        assert(self.has(x));
        assert(order.contains(x));
        self.lemma_depth_bound(x.id());
        self.lemma_path_in_subtree(root, x);
        lemma_sub_len(self.ancestors[x.id()], order);
        lemma_complete_up(self, ls, x.id(), m);
        let s = self.siblings[x.id()];
        assert(self.siblings_ok(x.id()));
        lemma_index_of_contains(s, x);
        self.lemma_siblings_in_layout(root, x);
        lemma_sub_len(s, order);
        lemma_complete_back(self, ls, x.id(), m);
        lemma_complete_fwd(self, ls, x.id(), m);
        lemma_walk_renamed(order, ls, 0, i, m);
        lemma_walk_renamed(order, ls, 1, i, m);
        lemma_walk_renamed(order, ls, 2, i, m);
    }

    /// Laid out in tree order from a root without siblings, the links of
    /// the nodes of its subtree form a forest.
    pub proof fn lemma_layout_forms_forest(self, root: Node)
        requires
            self.valid(),
            self.has(root),
            self.parent[root.id()] is None,
            self.siblings[root.id()] == seq![root],
        ensures
            closed_under(self.descendants(root), view_links(self)),
            forms_forest(relabeled(self.descendants(root), view_links(self))),
    {
        let order = self.descendants(root);
        let ls = view_links(self);
        let r = relabeled(order, ls);
        let m = order.len();
        self.lemma_layout_basics(root);
        assert(in_range(r)) by {
            assert forall|i: int| 0 <= i < r.len() implies {
                &&& opt_in(#[trigger] r[i].parent, r.len())
                &&& opt_in(r[i].previous_sibling, r.len())
                &&& opt_in(r[i].next_sibling, r.len())
                &&& opt_in(r[i].first_child, r.len())
                &&& opt_in(r[i].last_child, r.len())
            } by {
                let x = order[i];
                assert(ls[x.id()] == ls[order[i].id()]);
            }
        }
        assert forall|i: int| 0 <= i < m implies #[trigger] consistent_at(r, i) by {
            self.lemma_layout_consistent(root, i);
        }
        assert forall|i: int| 0 <= i < m implies #[trigger] acyclic_at(r, i) by {
            self.lemma_layout_acyclic(root, i);
        }
    }

    /// A child of a node of the subtree of `root` is in that subtree.
    proof fn lemma_child_under_root(self, p: Node, c: Node, root: Node)
        requires
            self.valid(),
            self.has(root),
            self.has(c),
            self.parent[root.id()] is None,
            self.parent[c.id()] == Some(p),
            self.descendants(root).contains(p),
        ensures
            self.descendants(root).contains(c),
    {
        self.law_descendants(root);
        self.lemma_node_facts(c.id());
        self.lemma_node_facts(root.id());
        assert(self.ancestors_ok(c.id()));
        if c != root {
            crate::model::lemma_ends_with_step(
                self.ancestors[c.id()],
                self.ancestors[p.id()],
                self.ancestors[root.id()],
                c,
            );
        }
    }

    /// What `to_wire` writes, `from_wire` reads back: the flat form of the
    /// subtree of a root without siblings has all its links in bounds and
    /// forms a forest in which node `i` has, as links, the positions of
    /// the links of the `i`-th descendant of the root.
    pub proof fn law_wire_roundtrip<D>(self, root: Node, ws: Seq<WireNode<&D>>)
        requires
            self.valid(),
            self.has(root),
            self.parent[root.id()] is None,
            self.siblings[root.id()] == seq![root],
            self.len() <= u32::MAX,
            ws.len() == self.descendants(root).len(),
            forall|i: int|
                0 <= i < ws.len() ==> self.lays_out_links(self.descendants(root), i, #[trigger] ws[i]),
        ensures
            first_out_of_bounds(all_links(ws), ws.len()) is None,
            wire_shape(ws) == relabeled(self.descendants(root), view_links(self)),
            forms_forest(wire_shape(ws)),
    {
        let order = self.descendants(root);
        let ls = view_links(self);
        let r = relabeled(order, ls);
        self.lemma_layout_forms_forest(root);
        self.law_descendants(root);
        assert forall|j: int| 0 <= j < order.len() implies self.has(#[trigger] order[j]) by {
            assert(order.contains(order[j]));
        }
        crate::model::lemma_distinct_bounded(order, self.len());
        assert(wire_shape(ws) =~= r) by {
            assert forall|i: int| 0 <= i < r.len() implies #[trigger] wire_shape(ws)[i] == r[i] by {
                let x = order[i];
                let l = ls[x.id()];
                lemma_nd(x);
                assert(l.parent == self.parent[x.id()]);
                lemma_ref_target(order, l.parent);
                lemma_ref_target(order, l.previous_sibling);
                lemma_ref_target(order, l.next_sibling);
                lemma_ref_target(order, l.first_child);
                lemma_ref_target(order, l.last_child);
            }
        }
        assert forall|i: int, k: int| 0 <= i < ws.len() && 0 <= k < 5 implies (
        #[trigger] wire_links(ws[i])[k] matches Some(x) ==> x < ws.len()) by {
            let x = order[i];
            let l = ls[x.id()];
            lemma_nd(x);
            lemma_ref_target(order, l.parent);
            lemma_ref_target(order, l.previous_sibling);
            lemma_ref_target(order, l.next_sibling);
            lemma_ref_target(order, l.first_child);
            lemma_ref_target(order, l.last_child);
        }
        lemma_all_in_bounds(ws, ws.len());
    }
}

impl<T> ArenaView<T> {
    /// Laid out in tree order from a root without siblings, node `i` has as
    /// children those of the `i`-th descendant of the root, renamed.
    proof fn lemma_layout_children<U>(self, root: Node, d: Seq<U>, i: int)
        requires
            self.valid(),
            self.has(root),
            self.parent[root.id()] is None,
            self.siblings[root.id()] == seq![root],
            0 <= i < self.descendants(root).len(),
            d.len() == self.descendants(root).len(),
        ensures
            shape_of(relabeled(self.descendants(root), view_links(self)), d).children[i]
                == self.children[self.descendants(root)[i].id()].map_values(
                |y: Node| renamed(self.descendants(root), y),
            ),
    {
        let order = self.descendants(root);
        let ls = view_links(self);
        let r = relabeled(order, ls);
        let n = order.len();
        let g = |y: Node| renamed(order, y);
        self.lemma_layout_basics(root);
        self.lemma_layout_forms_forest(root);
        let x = order[i];
        assert(order.contains(x));
        assert(self.has(x));
        lemma_nd(x);
        let ch = self.children[x.id()];
        let sm = ch.map_values(g);
        assert(self.children_ok(x.id()));
        assert forall|k: int| 0 <= k < ch.len() implies #[trigger] order.contains(ch[k]) by {
            self.lemma_child_under_root(x, ch[k], root);
        }
        if ch.len() == 0 {
            assert(sm =~= Seq::<Node>::empty());
        } else {
            let c0 = ch[0];
            let j0 = order.index_of(c0);
            assert(order.contains(c0));
            assert(r[i].first_child == Some(nd(j0)));
            assert(nd(j0).id() == j0);
            assert forall|k: int| 0 <= k < ch.len() implies {
                &&& (#[trigger] sm[k]).id() < r.len()
                &&& r[sm[k].id()].next_sibling == (if k + 1 < ch.len() {
                    Some(sm[k + 1])
                } else {
                    None
                })
                &&& r[sm[k].id()].previous_sibling == (if k > 0 {
                    Some(sm[k - 1])
                } else {
                    None
                })
            } by {
                let y = ch[k];
                assert(order.contains(y));
                let jy = order.index_of(y);
                assert(sm[k] == nd(jy));
                assert(nd(jy).id() == jy);
                assert(order[jy] == y);
                lemma_nd(y);
                self.lemma_kids(false, x, k);
                self.lemma_node_facts(y.id());
                assert(self.siblings[y.id()] == ch);
                self.lemma_position(y, k);
                if k + 1 < ch.len() {
                    assert(order.contains(ch[k + 1]));
                }
                if k > 0 {
                    assert(order.contains(ch[k - 1]));
                }
            }
            assert(full_chain(r, sm));
            lemma_chain(r, j0);
            lemma_chain_unique(r, chain(r, j0), sm, back(r, j0, n).len() - 1, 0);
        }
    }

    /// The walk of the laid-out subtree is the renamed walk of the subtree.
    proof fn lemma_iso_edges<U>(self, root: Node, d: Seq<U>, x: Node, f: nat)
        requires
            self.valid(),
            self.has(root),
            self.parent[root.id()] is None,
            self.siblings[root.id()] == seq![root],
            d.len() == self.descendants(root).len(),
            self.descendants(root).contains(x),
        ensures
            shape_of(relabeled(self.descendants(root), view_links(self)), d).edges(
                false,
                renamed(self.descendants(root), x),
                f,
            ) == self.edges(false, x, f).map_values(
                |e: NodeEdge<Node>| renamed_edge(self.descendants(root), e),
            ),
        decreases f, 0int,
    {
        let order = self.descendants(root);
        let b = shape_of(relabeled(order, view_links(self)), d);
        let h = |e: NodeEdge<Node>| renamed_edge(order, e);
        self.lemma_layout_basics(root);
        let i = order.index_of(x);
        if f > 0 {
            self.lemma_layout_children(root, d, i);
            assert(order[i] == x);
            assert(nd(i).id() == i);
            let ch = self.children[x.id()];
            assert(self.has(x));
            assert(self.children_ok(x.id()));
            assert forall|k: int| 0 <= k < ch.len() implies #[trigger] order.contains(ch[k]) by {
                self.lemma_child_under_root(x, ch[k], root);
            }
            self.lemma_iso_edges_of(root, d, ch, (f - 1) as nat);
            let a = self.edges_of(false, ch, (f - 1) as nat);
            let ss = seq![NodeEdge::Start(x)];
            let se = seq![NodeEdge::End(x)];
            assert((ss + a + se).map_values(h) =~= ss.map_values(h) + a.map_values(h) + se.map_values(h));
            assert(ss.map_values(h) =~= seq![NodeEdge::Start(renamed(order, x))]);
            assert(se.map_values(h) =~= seq![NodeEdge::End(renamed(order, x))]);
        } else {
            assert(self.edges(false, x, f).map_values(h) =~= Seq::<NodeEdge<Node>>::empty());
        }
    }

    proof fn lemma_iso_edges_of<U>(self, root: Node, d: Seq<U>, cs: Seq<Node>, f: nat)
        requires
            self.valid(),
            self.has(root),
            self.parent[root.id()] is None,
            self.siblings[root.id()] == seq![root],
            d.len() == self.descendants(root).len(),
            forall|k: int| 0 <= k < cs.len() ==> #[trigger] self.descendants(root).contains(cs[k]),
        ensures
            shape_of(relabeled(self.descendants(root), view_links(self)), d).edges_of(
                false,
                cs.map_values(|y: Node| renamed(self.descendants(root), y)),
                f,
            ) == self.edges_of(false, cs, f).map_values(
                |e: NodeEdge<Node>| renamed_edge(self.descendants(root), e),
            ),
        decreases f, cs.len(),
    {
        let order = self.descendants(root);
        let g = |y: Node| renamed(order, y);
        let h = |e: NodeEdge<Node>| renamed_edge(order, e);
        let cm = cs.map_values(g);
        if cs.len() > 0 {
            assert(self.descendants(root).contains(cs[0]));
            self.lemma_iso_edges(root, d, cs[0], f);
            let t = cs.drop_first();
            assert forall|k: int| 0 <= k < t.len() implies #[trigger] self.descendants(root).contains(
                t[k],
            ) by {
                assert(t[k] == cs[k + 1]);
            }
            self.lemma_iso_edges_of(root, d, t, f);
            assert(cm.drop_first() =~= t.map_values(g));
            assert(cm[0] == renamed(order, cs[0]));
            let a = self.edges(false, cs[0], f);
            let rest = self.edges_of(false, t, f);
            assert((a + rest).map_values(h) =~= a.map_values(h) + rest.map_values(h));
        } else {
            assert(cm =~= Seq::<Node>::empty());
            assert(self.edges_of(false, cs, f).map_values(h) =~= Seq::<NodeEdge<Node>>::empty());
        }
    }

    /// What `to_wire` writes and `from_wire` reads back is the same tree:
    /// the descendants of the new root are its nodes in order, node `i`
    /// standing for the `i`-th descendant of the old root, with the links of
    /// that node renamed by position.
    pub proof fn law_wire_roundtrip_descendants<D, U>(
        self,
        root: Node,
        ws: Seq<WireNode<&D>>,
        d: Seq<U>,
    )
        requires
            self.valid(),
            self.has(root),
            self.parent[root.id()] is None,
            self.siblings[root.id()] == seq![root],
            self.len() <= u32::MAX,
            ws.len() == self.descendants(root).len(),
            forall|i: int|
                0 <= i < ws.len() ==> self.lays_out_links(self.descendants(root), i, #[trigger] ws[i]),
            d.len() == ws.len(),
        ensures
            shape_of(wire_shape(ws), d).valid(),
            shape_of(wire_shape(ws), d).descendants(nd(0)) == Seq::new(ws.len(), |i: int| nd(i)),
            view_links(shape_of(wire_shape(ws), d)) == relabeled(
                self.descendants(root),
                view_links(self),
            ),
    {
        let order = self.descendants(root);
        let r = relabeled(order, view_links(self));
        self.law_wire_roundtrip(root, ws);
        let b = shape_of(r, d);
        lemma_sound(r, d);
        self.lemma_layout_basics(root);
        self.law_descendants(root);
        assert(view_links(b) =~= r) by {
            assert forall|i: int| 0 <= i < r.len() implies view_links(b)[i] == r[i] by {
                assert(b.agrees_at(r, i));
            }
        }
        let n0 = nd(0);
        assert(order[0] == root);
        assert(order.index_of(root) == 0);
        assert(renamed(order, root) == n0);
        let fa = self.fuel(root);
        let fb = b.fuel(n0);
        let f = if fa >= fb {
            fa
        } else {
            fb
        };
        self.lemma_edges_fuel(false, root, f);
        b.lemma_edges_fuel(false, n0, f);
        assert(order.contains(root));
        self.lemma_iso_edges(root, d, root, f);
        lemma_starts_renamed(order, self.traversal(root));
        assert(order.map_values(|y: Node| renamed(order, y)) =~= Seq::new(ws.len(), |i: int| nd(i)));
    }
}

impl<T> ArenaView<T> {
    /// Read back, the flat form of the subtree of a root without siblings
    /// gives node `i` the data of the `i`-th descendant of the root.
    pub proof fn law_wire_roundtrip_data(self, root: Node, ws: Seq<WireNode<T>>)
        requires
            self.valid(),
            self.has(root),
            ws.len() == self.descendants(root).len(),
            forall|i: int|
                0 <= i < ws.len() ==> (#[trigger] ws[i]).data == self.data[self.descendants(
                    root,
                )[i].id()],
        ensures
            forall|i: int|
                0 <= i < ws.len() ==> #[trigger] shape_of(wire_shape(ws), wire_data(ws)).data[i]
                    == self.data[self.descendants(root)[i].id()],
    {
        crate::wire::law_wire_fields(ws);
        assert forall|i: int| 0 <= i < ws.len() implies #[trigger] shape_of(
            wire_shape(ws),
            wire_data(ws),
        ).data[i] == self.data[self.descendants(root)[i].id()] by {
            assert(ws[i].data == self.data[self.descendants(root)[i].id()]);
        }
    }
}

/// A node renamed by its position in `order`.
pub open spec fn renamed(order: Seq<Node>, y: Node) -> Node {
    nd(order.index_of(y))
}

/// An edge renamed by the position of its node in `order`.
pub open spec fn renamed_edge(order: Seq<Node>, e: NodeEdge<Node>) -> NodeEdge<Node> {
    match e {
        NodeEdge::Start(y) => NodeEdge::Start(renamed(order, y)),
        NodeEdge::End(y) => NodeEdge::End(renamed(order, y)),
    }
}

/// Renaming the edges of a walk renames the nodes it starts.
proof fn lemma_starts_renamed(order: Seq<Node>, t: Seq<NodeEdge<Node>>)
    ensures
        starts(t.map_values(|e: NodeEdge<Node>| renamed_edge(order, e))) == starts(t).map_values(
            |y: Node| renamed(order, y),
        ),
    decreases t.len(),
{
    let h = |e: NodeEdge<Node>| renamed_edge(order, e);
    let g = |y: Node| renamed(order, y);
    let tm = t.map_values(h);
    if t.len() > 0 {
        lemma_starts_renamed(order, t.drop_first());
        assert(tm.drop_first() =~= t.drop_first().map_values(h));
        let rest = starts(t.drop_first());
        match t[0] {
            NodeEdge::Start(y) => {
                assert((seq![y] + rest).map_values(g) =~= seq![g(y)] + rest.map_values(g));
            },
            NodeEdge::End(y) => {},
        }
    } else {
        assert(tm =~= Seq::<NodeEdge<Node>>::empty());
        assert(starts(t).map_values(g) =~= Seq::<Node>::empty());
    }
}

/// A position written for a node of `order`, read back, names the position.
proof fn lemma_ref_target(order: Seq<Node>, o: Option<Node>)
    requires
        order.len() <= u32::MAX,
        o matches Some(y) ==> order.contains(y),
    ensures
        wire_target(wire_ref(order, o)) == relabel(order, o),
        (wire_ref(order, o) matches Some(x) ==> x < order.len()),
{
    if let Some(y) = o {
        lemma_index_of_contains(order, y);
    }
}

/// Flat nodes whose links are all below `n` have no link out of bounds.
proof fn lemma_all_in_bounds<D>(ws: Seq<WireNode<D>>, n: nat)
    requires
        forall|i: int, k: int|
            0 <= i < ws.len() && 0 <= k < 5 ==> (#[trigger] wire_links(ws[i])[k] matches Some(x)
                ==> x < n),
    ensures
        first_out_of_bounds(all_links(ws), n) is None,
    decreases ws.len(),
{
    if ws.len() > 0 {
        let t = ws.drop_first();
        assert forall|i: int, k: int|
            0 <= i < t.len() && 0 <= k < 5 implies (#[trigger] wire_links(t[i])[k] matches Some(x)
            ==> x < n) by {
            assert(t[i] == ws[i + 1]);
            assert(wire_links(ws[i + 1])[k] == wire_links(t[i])[k]);
        }
        lemma_all_in_bounds(t, n);
        let a = wire_links(ws[0]);
        assert forall|k: int| 0 <= k < a.len() implies (#[trigger] a[k] matches Some(x) ==> x < n) by {
            assert(wire_links(ws[0])[k] == a[k]);
        }
        crate::wire::lemma_first_oob_skip(a, all_links(t), n);
    } else {
        assert(all_links(ws) == Seq::<Option<u32>>::empty());
    }
}

} // verus!
