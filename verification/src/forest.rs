use vstd::prelude::*;
use crate::model::{ArenaView, Links, Node, lemma_index_of, lemma_index_of_contains};

verus! {

/// The node at position `i`.
pub open spec fn nd(i: int) -> Node {
    Node { index: i as usize }
}

/// A node is the node at its own position.
pub proof fn lemma_nd(x: Node)
    ensures
        nd(x.id()) == x,
{
}

/// The link that a walk follows: 0 for the parent, 1 for the previous
/// sibling, 2 for the next sibling.
pub open spec fn link(ls: Seq<Links>, which: nat, i: int) -> Option<Node> {
    if which == 0 {
        ls[i].parent
    } else if which == 1 {
        ls[i].previous_sibling
    } else {
        ls[i].next_sibling
    }
}

/// Following link `which` from `i` comes to an end within `k` nodes.
pub open spec fn reaches_end(ls: Seq<Links>, which: nat, i: int, k: nat) -> bool
    decreases k,
{
    if k == 0 {
        false
    } else {
        match link(ls, which, i) {
            None => true,
            Some(j) => reaches_end(ls, which, j.id(), (k - 1) as nat),
        }
    }
}

/// An optional link names a node among the first `n`.
pub open spec fn opt_in(o: Option<Node>, n: nat) -> bool {
    o matches Some(x) ==> x.id() < n
}

/// Every link names a node of `ls`.
pub open spec fn in_range(ls: Seq<Links>) -> bool {
    &&& ls.len() < usize::MAX
    &&& forall|i: int|
        0 <= i < ls.len() ==> {
            &&& opt_in(#[trigger] ls[i].parent, ls.len())
            &&& opt_in(ls[i].previous_sibling, ls.len())
            &&& opt_in(ls[i].next_sibling, ls.len())
            &&& opt_in(ls[i].first_child, ls.len())
            &&& opt_in(ls[i].last_child, ls.len())
        }
}

/// The links of `i` agree with those of its neighbours.
pub open spec fn consistent_at(ls: Seq<Links>, i: int) -> bool {
    let l = ls[i];
    &&& (l.next_sibling matches Some(j) ==> ls[j.id()].previous_sibling == Some(nd(i))
        && ls[j.id()].parent == l.parent)
    &&& (l.previous_sibling matches Some(q) ==> ls[q.id()].next_sibling == Some(nd(i)))
    &&& (l.first_child matches Some(c) ==> ls[c.id()].parent == Some(nd(i))
        && ls[c.id()].previous_sibling is None)
    &&& (l.last_child matches Some(c) ==> ls[c.id()].parent == Some(nd(i))
        && ls[c.id()].next_sibling is None)
    &&& (l.parent matches Some(p) ==> (l.previous_sibling is None ==> ls[p.id()].first_child
        == Some(nd(i))) && (l.next_sibling is None ==> ls[p.id()].last_child == Some(nd(i))))
    &&& (l.first_child is None <==> l.last_child is None)
}

/// No walk along parents or siblings goes round in a circle.
pub open spec fn acyclic_at(ls: Seq<Links>, i: int) -> bool {
    &&& reaches_end(ls, 0, i, ls.len())
    &&& reaches_end(ls, 1, i, ls.len())
    &&& reaches_end(ls, 2, i, ls.len())
}

/// The links describe a forest: they name nodes of `ls`, agree with each
/// other, and no walk along them goes round in a circle.
pub open spec fn forms_forest(ls: Seq<Links>) -> bool {
    &&& in_range(ls)
    &&& forall|i: int| 0 <= i < ls.len() ==> #[trigger] consistent_at(ls, i)
    &&& forall|i: int| 0 <= i < ls.len() ==> #[trigger] acyclic_at(ls, i)
}

/// The node `i` and its ancestors, by following parents for at most `k` nodes.
pub open spec fn up(ls: Seq<Links>, i: int, k: nat) -> Seq<Node>
    decreases k,
{
    if k == 0 {
        Seq::empty()
    } else {
        match ls[i].parent {
            None => seq![nd(i)],
            Some(p) => seq![nd(i)] + up(ls, p.id(), (k - 1) as nat),
        }
    }
}

/// The siblings before `i` and `i` itself, by following previous siblings.
pub open spec fn back(ls: Seq<Links>, i: int, k: nat) -> Seq<Node>
    decreases k,
{
    if k == 0 {
        Seq::empty()
    } else {
        match ls[i].previous_sibling {
            None => seq![nd(i)],
            Some(q) => back(ls, q.id(), (k - 1) as nat).push(nd(i)),
        }
    }
}

/// `i` and the siblings after it, by following next siblings.
pub open spec fn fwd(ls: Seq<Links>, i: int, k: nat) -> Seq<Node>
    decreases k,
{
    if k == 0 {
        Seq::empty()
    } else {
        match ls[i].next_sibling {
            None => seq![nd(i)],
            Some(j) => seq![nd(i)] + fwd(ls, j.id(), (k - 1) as nat),
        }
    }
}

/// The sibling list of `i`.
pub open spec fn chain(ls: Seq<Links>, i: int) -> Seq<Node> {
    back(ls, i, ls.len()) + fwd(ls, i, ls.len()).drop_first()
}

/// `s` is a whole sibling list: its first node has no previous sibling, its
/// last no next one, and neighbours in it are linked both ways.
pub open spec fn full_chain(ls: Seq<Links>, s: Seq<Node>) -> bool {
    &&& s.len() >= 1
    &&& forall|k: int| 0 <= k < s.len() ==> #[trigger] s[k].id() < ls.len()
    &&& ls[s[0].id()].previous_sibling is None
    &&& ls[s[s.len() - 1].id()].next_sibling is None
    &&& forall|k: int|
        0 <= k < s.len() - 1 ==> #[trigger] ls[s[k].id()].next_sibling == Some(s[k + 1])
    &&& forall|k: int|
        0 < k < s.len() ==> #[trigger] ls[s[k].id()].previous_sibling == Some(s[k - 1])
}

/// Walks reach the same end however much further they are allowed to go.
pub proof fn lemma_fuel(ls: Seq<Links>, which: nat, i: int, k: nat, k2: nat)
    requires
        in_range(ls),
        0 <= i < ls.len(),
        which <= 2,
        reaches_end(ls, which, i, k),
        k <= k2,
    ensures
        reaches_end(ls, which, i, k2),
        which == 0 ==> up(ls, i, k) == up(ls, i, k2),
        which == 1 ==> back(ls, i, k) == back(ls, i, k2),
        which == 2 ==> fwd(ls, i, k) == fwd(ls, i, k2),
    decreases k,
{
    assert(opt_in(ls[i].parent, ls.len()));
    if let Some(j) = link(ls, which, i) {
        lemma_fuel(ls, which, j.id(), (k - 1) as nat, (k2 - 1) as nat);
    }
}

/// A walk backwards from `i` that ends ends at the head of a sibling list,
/// and every step of it is linked both ways.
pub proof fn lemma_back(ls: Seq<Links>, i: int, k: nat)
    requires
        in_range(ls),
        forall|x: int| 0 <= x < ls.len() ==> #[trigger] consistent_at(ls, x),
        0 <= i < ls.len(),
        reaches_end(ls, 1, i, k),
    ensures
        ({
            let b = back(ls, i, k);
            &&& b.len() >= 1
            &&& b[b.len() - 1] == nd(i)
            &&& forall|x: int| 0 <= x < b.len() ==> #[trigger] b[x].id() < ls.len()
            &&& ls[b[0].id()].previous_sibling is None
            &&& forall|x: int|
                0 <= x < b.len() - 1 ==> #[trigger] ls[b[x].id()].next_sibling == Some(b[x + 1])
            &&& forall|x: int|
                0 < x < b.len() ==> #[trigger] ls[b[x].id()].previous_sibling == Some(b[x - 1])
            &&& forall|x: int| 0 <= x < b.len() ==> ls[#[trigger] b[x].id()].parent == ls[i].parent
        }),
    decreases k,
{
    assert(opt_in(ls[i].previous_sibling, ls.len()));
    if let Some(q) = ls[i].previous_sibling {
        lemma_back(ls, q.id(), (k - 1) as nat);
        assert(consistent_at(ls, q.id()));
        assert(consistent_at(ls, i));
        lemma_nd(q);
        assert(ls[q.id()].parent == ls[i].parent);
        let bq = back(ls, q.id(), (k - 1) as nat);
        let b = back(ls, i, k);
        assert(b == bq.push(nd(i)));
        assert forall|x: int| 0 <= x < b.len() - 1 implies #[trigger] ls[b[x].id()].next_sibling
            == Some(b[x + 1]) by {
            if x < bq.len() - 1 {
                assert(b[x] == bq[x] && b[x + 1] == bq[x + 1]);
                assert(ls[bq[x].id()].next_sibling == Some(bq[x + 1]));
            } else {
                assert(b[x] == q);
                assert(b[x + 1] == nd(i));
            }
        }
        assert forall|x: int| 0 < x < b.len() implies #[trigger] ls[b[x].id()].previous_sibling
            == Some(b[x - 1]) by {
            if x < bq.len() {
                assert(b[x] == bq[x] && b[x - 1] == bq[x - 1]);
                assert(ls[bq[x].id()].previous_sibling == Some(bq[x - 1]));
            } else {
                assert(b[x - 1] == q);
                assert(b[x] == nd(i));
            }
        }
        assert forall|x: int| 0 <= x < b.len() implies ls[#[trigger] b[x].id()].parent
            == ls[i].parent by {
            if x < bq.len() {
                assert(b[x] == bq[x]);
            }
        }
        assert forall|x: int| 0 <= x < b.len() implies #[trigger] b[x].id() < ls.len() by {
            if x < bq.len() {
                assert(b[x] == bq[x]);
            }
        }
    }
}

/// A walk forwards from `i` that ends ends at the tail of a sibling list,
/// and every step of it is linked both ways.
pub proof fn lemma_fwd(ls: Seq<Links>, i: int, k: nat)
    requires
        in_range(ls),
        forall|x: int| 0 <= x < ls.len() ==> #[trigger] consistent_at(ls, x),
        0 <= i < ls.len(),
        reaches_end(ls, 2, i, k),
    ensures
        ({
            let f = fwd(ls, i, k);
            &&& f.len() >= 1
            &&& f[0] == nd(i)
            &&& forall|x: int| 0 <= x < f.len() ==> #[trigger] f[x].id() < ls.len()
            &&& ls[f[f.len() - 1].id()].next_sibling is None
            &&& forall|x: int|
                0 <= x < f.len() - 1 ==> #[trigger] ls[f[x].id()].next_sibling == Some(f[x + 1])
            &&& forall|x: int|
                0 < x < f.len() ==> #[trigger] ls[f[x].id()].previous_sibling == Some(f[x - 1])
            &&& forall|x: int| 0 <= x < f.len() ==> ls[#[trigger] f[x].id()].parent == ls[i].parent
        }),
    decreases k,
{
    assert(opt_in(ls[i].next_sibling, ls.len()));
    if let Some(j) = ls[i].next_sibling {
        lemma_fwd(ls, j.id(), (k - 1) as nat);
        assert(consistent_at(ls, i));
        lemma_nd(j);
        let fj = fwd(ls, j.id(), (k - 1) as nat);
        let f = fwd(ls, i, k);
        assert(f == seq![nd(i)] + fj);
        assert forall|x: int| 0 <= x < f.len() - 1 implies #[trigger] ls[f[x].id()].next_sibling
            == Some(f[x + 1]) by {
            if x > 0 {
                assert(f[x] == fj[x - 1] && f[x + 1] == fj[x]);
                assert(ls[fj[x - 1].id()].next_sibling == Some(fj[x]));
            } else {
                assert(f[1] == fj[0]);
            }
        }
        assert forall|x: int| 0 < x < f.len() implies #[trigger] ls[f[x].id()].previous_sibling
            == Some(f[x - 1]) by {
            if x > 1 {
                assert(f[x] == fj[x - 1] && f[x - 1] == fj[x - 2]);
                assert(ls[fj[x - 1].id()].previous_sibling == Some(fj[x - 2]));
            } else {
                assert(f[1] == fj[0]);
            }
        }
        assert forall|x: int| 0 <= x < f.len() implies ls[#[trigger] f[x].id()].parent
            == ls[i].parent by {
            if x > 0 {
                assert(f[x] == fj[x - 1]);
            }
        }
        assert forall|x: int| 0 <= x < f.len() implies #[trigger] f[x].id() < ls.len() by {
            if x > 0 {
                assert(f[x] == fj[x - 1]);
            }
        }
    }
}

/// The sibling list of `i` is a whole sibling list that holds `i`, and its
/// members share the parent of `i`.
pub proof fn lemma_chain(ls: Seq<Links>, i: int)
    requires
        forms_forest(ls),
        0 <= i < ls.len(),
    ensures
        full_chain(ls, chain(ls, i)),
        chain(ls, i)[back(ls, i, ls.len()).len() - 1] == nd(i),
        back(ls, i, ls.len()).len() >= 1,
        forall|x: int|
            0 <= x < chain(ls, i).len() ==> ls[#[trigger] chain(ls, i)[x].id()].parent
                == ls[i].parent,
{
    assert(acyclic_at(ls, i));
    let n = ls.len();
    lemma_back(ls, i, n);
    lemma_fwd(ls, i, n);
    let b = back(ls, i, n);
    let f = fwd(ls, i, n);
    let c = chain(ls, i);
    assert(c == b + f.drop_first());
    assert forall|x: int| 0 <= x < c.len() implies #[trigger] c[x].id() < ls.len() && ls[c[
        x
    ].id()].parent == ls[i].parent by {
        if x < b.len() {
            assert(c[x] == b[x]);
        } else {
            assert(c[x] == f[x - b.len() + 1]);
        }
    }
    assert forall|x: int| 0 <= x < c.len() - 1 implies #[trigger] ls[c[x].id()].next_sibling
        == Some(c[x + 1]) by {
        if x < b.len() - 1 {
            assert(c[x] == b[x] && c[x + 1] == b[x + 1]);
            assert(ls[b[x].id()].next_sibling == Some(b[x + 1]));
        } else if x == b.len() - 1 {
            assert(c[x] == f[0]);
            assert(c[x + 1] == f[1]);
            assert(ls[f[0].id()].next_sibling == Some(f[1]));
        } else {
            assert(c[x] == f[x - b.len() + 1] && c[x + 1] == f[x - b.len() + 2]);
            assert(ls[f[x - b.len() + 1].id()].next_sibling == Some(f[x - b.len() + 2]));
        }
    }
    assert forall|x: int| 0 < x < c.len() implies #[trigger] ls[c[x].id()].previous_sibling
        == Some(c[x - 1]) by {
        if x < b.len() {
            assert(c[x] == b[x] && c[x - 1] == b[x - 1]);
            assert(ls[b[x].id()].previous_sibling == Some(b[x - 1]));
        } else if x == b.len() {
            assert(c[x] == f[1]);
            assert(c[x - 1] == f[0]);
            assert(ls[f[1].id()].previous_sibling == Some(f[0]));
        } else {
            assert(c[x] == f[x - b.len() + 1] && c[x - 1] == f[x - b.len()]);
            assert(ls[f[x - b.len() + 1].id()].previous_sibling == Some(f[x - b.len()]));
        }
    }
    assert(c[0] == b[0]);
    if f.len() > 1 {
        assert(c[c.len() - 1] == f[f.len() - 1]);
    } else {
        assert(c[c.len() - 1] == b[b.len() - 1]);
    }
}

/// Two whole sibling lists that share a node share it at the same place.
pub proof fn lemma_chain_align(ls: Seq<Links>, s: Seq<Node>, t: Seq<Node>, a: int, b: int)
    requires
        full_chain(ls, s),
        full_chain(ls, t),
        0 <= a < s.len(),
        0 <= b < t.len(),
        s[a] == t[b],
    ensures
        a == b,
        forall|x: int| 0 <= x <= a ==> s[x] == t[x],
    decreases a,
{
    if a == 0 {
        if b > 0 {
            assert(ls[t[b].id()].previous_sibling == Some(t[b - 1]));
        }
    } else {
        assert(ls[s[a].id()].previous_sibling == Some(s[a - 1]));
        if b > 0 {
            assert(ls[t[b].id()].previous_sibling == Some(t[b - 1]));
            lemma_chain_align(ls, s, t, a - 1, b - 1);
        }
    }
}

/// Two whole sibling lists that share a node are the same list.
pub proof fn lemma_chain_unique(ls: Seq<Links>, s: Seq<Node>, t: Seq<Node>, a: int, b: int)
    requires
        full_chain(ls, s),
        full_chain(ls, t),
        0 <= a < s.len(),
        0 <= b < t.len(),
        s[a] == t[b],
    ensures
        s == t,
{
    lemma_chain_align(ls, s, t, a, b);
    assert forall|x: int| a <= x < s.len() implies x < t.len() && s[x] == t[x] by {
        lemma_chain_forward(ls, s, t, a, x);
    }
    if t.len() > s.len() {
        lemma_chain_forward(ls, s, t, a, s.len() - 1);
        assert(ls[t[s.len() - 1].id()].next_sibling == Some(t[s.len() as int]));
    }
    assert(s =~= t);
}

proof fn lemma_chain_forward(ls: Seq<Links>, s: Seq<Node>, t: Seq<Node>, a: int, x: int)
    requires
        full_chain(ls, s),
        full_chain(ls, t),
        0 <= a <= x < s.len(),
        a < t.len(),
        s[a] == t[a],
    ensures
        x < t.len(),
        s[x] == t[x],
    decreases x - a,
{
    if x > a {
        lemma_chain_forward(ls, s, t, a, x - 1);
        assert(ls[s[x - 1].id()].next_sibling == Some(s[x]));
        if x - 1 == t.len() - 1 {
            assert(false);
        }
        assert(ls[t[x - 1].id()].next_sibling == Some(t[x]));
    }
}

/// A whole sibling list holds no node twice.
pub proof fn lemma_chain_no_dup(ls: Seq<Links>, s: Seq<Node>)
    requires
        full_chain(ls, s),
    ensures
        s.no_duplicates(),
{
    assert forall|a: int, b: int| 0 <= a < s.len() && 0 <= b < s.len() && a != b implies s[a]
        != s[b] by {
        if s[a] == s[b] {
            lemma_chain_align(ls, s, s, a, b);
        }
    }
}


/// The state that links forming a forest describe, with data `d`.
pub open spec fn shape_of<T>(ls: Seq<Links>, d: Seq<T>) -> ArenaView<T> {
    let n = ls.len();
    ArenaView {
        data: d,
        parent: Seq::new(n, |i: int| ls[i].parent),
        children: Seq::new(
            n,
            |p: int|
                match ls[p].first_child {
                    Some(c) => chain(ls, c.id()),
                    None => Seq::empty(),
                },
        ),
        siblings: Seq::new(n, |i: int| chain(ls, i)),
        ancestors: Seq::new(n, |i: int| up(ls, i, n)),
    }
}

/// The sibling list of a member of the sibling list of `i` is that of `i`.
proof fn lemma_chain_member(ls: Seq<Links>, i: int, j: int)
    requires
        forms_forest(ls),
        0 <= i < ls.len(),
        0 <= j < chain(ls, i).len(),
    ensures
        chain(ls, chain(ls, i)[j].id()) == chain(ls, i),
{
    let m = chain(ls, i)[j];
    lemma_chain(ls, i);
    lemma_chain(ls, m.id());
    lemma_nd(m);
    lemma_chain_unique(
        ls,
        chain(ls, m.id()),
        chain(ls, i),
        back(ls, m.id(), ls.len()).len() - 1,
        j,
    );
}

/// Links that form a forest describe a valid state that agrees with them.
pub proof fn lemma_sound<T>(ls: Seq<Links>, d: Seq<T>)
    requires
        forms_forest(ls),
        d.len() == ls.len(),
    ensures
        shape_of(ls, d).valid(),
        shape_of(ls, d).agrees(ls),
{
    let v = shape_of(ls, d);
    let n = ls.len();
    assert forall|i: int| 0 <= i < n implies #[trigger] v.siblings_ok(i) by {
        let c = chain(ls, i);
        lemma_chain(ls, i);
        lemma_chain_no_dup(ls, c);
        let bi = back(ls, i, n).len() - 1;
        assert(c[bi] == nd(i));
        assert(c.contains(nd(i)));
        assert forall|j: int| 0 <= j < c.len() implies {
            &&& #[trigger] c[j].id() < v.len()
            &&& v.siblings[c[j].id()] == c
            &&& v.parent[c[j].id()] == v.parent[i]
        } by {
            lemma_chain_member(ls, i, j);
        }
        if let Some(p) = ls[i].parent {
            assert(opt_in(ls[i].parent, n));
            let h = c[0];
            assert(ls[h.id()].parent == Some(p));
            assert(consistent_at(ls, h.id()));
            lemma_nd(h);
            assert(ls[p.id()].first_child == Some(h));
            lemma_chain(ls, h.id());
            lemma_chain_unique(ls, chain(ls, h.id()), c, back(ls, h.id(), n).len() - 1, 0);
        }
    }
    assert forall|p: int| 0 <= p < n implies #[trigger] v.children_ok(p) by {
        assert(consistent_at(ls, p));
        assert(opt_in(ls[p].first_child, n));
        if let Some(c) = ls[p].first_child {
            lemma_chain(ls, c.id());
            lemma_nd(c);
            assert(ls[c.id()].parent == Some(nd(p)));
        }
    }
    assert forall|i: int| 0 <= i < n implies #[trigger] v.ancestors_ok(i) by {
        assert(acyclic_at(ls, i));
        assert(opt_in(ls[i].parent, n));
        if let Some(p) = ls[i].parent {
            assert(reaches_end(ls, 0, p.id(), (n - 1) as nat));
            lemma_fuel(ls, 0, p.id(), (n - 1) as nat, n);
        }
    }
    assert forall|i: int| 0 <= i < n implies #[trigger] v.agrees_at(ls, i) by {
        let c = chain(ls, i);
        lemma_chain(ls, i);
        lemma_chain_no_dup(ls, c);
        let bi = back(ls, i, n).len() - 1;
        lemma_index_of(c, bi);
        assert(v.position(nd(i)) == bi);
        assert(consistent_at(ls, i));
        assert(opt_in(ls[i].first_child, n));
        if let Some(f) = ls[i].first_child {
            lemma_chain(ls, f.id());
            lemma_nd(f);
            assert(ls[f.id()].previous_sibling is None);
            assert(back(ls, f.id(), n) == seq![nd(f.id())]);
            let cf = chain(ls, f.id());
            assert(cf[0] == f);
            let t = cf[cf.len() - 1];
            assert(ls[t.id()].parent == Some(nd(i)));
            assert(consistent_at(ls, t.id()));
            lemma_nd(t);
        }
    }
}


/// In a valid state, walking up from `i` ends within as many nodes as `i`
/// has ancestors.
pub proof fn lemma_complete_up<T>(v: ArenaView<T>, ls: Seq<Links>, i: int, k: nat)
    requires
        v.valid(),
        v.agrees(ls),
        0 <= i < v.len(),
        v.ancestors[i].len() <= k,
    ensures
        reaches_end(ls, 0, i, k),
    decreases k,
{
    v.lemma_node_facts(i);
    assert(v.agrees_at(ls, i));
    if let Some(p) = v.parent[i] {
        v.lemma_node_facts(p.id());
        lemma_complete_up(v, ls, p.id(), (k - 1) as nat);
    }
}

/// In a valid state, walking back from `i` ends within its position plus one.
pub proof fn lemma_complete_back<T>(v: ArenaView<T>, ls: Seq<Links>, i: int, k: nat)
    requires
        v.valid(),
        v.agrees(ls),
        0 <= i < v.len(),
        v.position(nd(i)) + 1 <= k,
    ensures
        reaches_end(ls, 1, i, k),
    decreases k,
{
    let s = v.siblings[i];
    assert(v.siblings_ok(i));
    lemma_index_of_contains(s, nd(i));
    assert(v.agrees_at(ls, i));
    let pos = v.position(nd(i));
    if pos > 0 {
        let q = s[pos - 1];
        assert(q.id() < v.len());
        assert(v.siblings[q.id()] == s);
        v.lemma_position(q, pos - 1);
        lemma_nd(q);
        lemma_complete_back(v, ls, q.id(), (k - 1) as nat);
    }
}

/// In a valid state, walking forward from `i` ends within the number of
/// siblings from `i` on.
pub proof fn lemma_complete_fwd<T>(v: ArenaView<T>, ls: Seq<Links>, i: int, k: nat)
    requires
        v.valid(),
        v.agrees(ls),
        0 <= i < v.len(),
        v.siblings[i].len() - v.position(nd(i)) <= k,
    ensures
        reaches_end(ls, 2, i, k),
    decreases k,
{
    let s = v.siblings[i];
    assert(v.siblings_ok(i));
    lemma_index_of_contains(s, nd(i));
    assert(v.agrees_at(ls, i));
    let pos = v.position(nd(i));
    if pos + 1 < s.len() {
        let j = s[pos + 1];
        assert(j.id() < v.len());
        assert(v.siblings[j.id()] == s);
        v.lemma_position(j, pos + 1);
        lemma_nd(j);
        lemma_complete_fwd(v, ls, j.id(), (k - 1) as nat);
    }
}

/// The links of a valid state form a forest.
pub proof fn lemma_complete<T>(v: ArenaView<T>, ls: Seq<Links>)
    requires
        v.valid(),
        v.agrees(ls),
    ensures
        forms_forest(ls),
{
    let n = ls.len();
    assert forall|i: int| 0 <= i < n implies {
        &&& opt_in(#[trigger] ls[i].parent, ls.len())
        &&& opt_in(ls[i].previous_sibling, ls.len())
        &&& opt_in(ls[i].next_sibling, ls.len())
        &&& opt_in(ls[i].first_child, ls.len())
        &&& opt_in(ls[i].last_child, ls.len())
    } by {
        assert(v.agrees_at(ls, i));
        v.lemma_links_in_range(nd(i));
    }
    assert forall|i: int| 0 <= i < n implies #[trigger] consistent_at(ls, i) by {
        let ni = nd(i);
        let s = v.siblings[i];
        assert(v.agrees_at(ls, i));
        assert(v.siblings_ok(i));
        assert(v.children_ok(i));
        lemma_index_of_contains(s, ni);
        let pos = v.position(ni);
        v.lemma_links_in_range(ni);
        if pos + 1 < s.len() {
            let j = s[pos + 1];
            assert(j.id() < n);
            assert(v.siblings[j.id()] == s);
            v.lemma_position(j, pos + 1);
            assert(v.agrees_at(ls, j.id()));
            lemma_nd(j);
        }
        if pos > 0 {
            let q = s[pos - 1];
            assert(q.id() < n);
            assert(v.siblings[q.id()] == s);
            v.lemma_position(q, pos - 1);
            assert(v.agrees_at(ls, q.id()));
            lemma_nd(q);
        }
        let ch = v.children[i];
        if ch.len() > 0 {
            let f = ch[0];
            let l = ch[ch.len() - 1];
            assert(f.id() < n && l.id() < n);
            assert(v.siblings_ok(f.id()));
            assert(v.siblings_ok(l.id()));
            assert(v.siblings[f.id()] == ch);
            assert(v.siblings[l.id()] == ch);
            v.lemma_position(f, 0);
            v.lemma_position(l, ch.len() - 1);
            assert(v.agrees_at(ls, f.id()));
            assert(v.agrees_at(ls, l.id()));
            lemma_nd(f);
            lemma_nd(l);
        }
        if let Some(p) = v.parent[i] {
            assert(v.agrees_at(ls, p.id()));
            assert(s == v.children[p.id()]);
        }
    }
    assert forall|i: int| 0 <= i < n implies #[trigger] acyclic_at(ls, i) by {
        v.lemma_depth_bound(i);
        lemma_complete_up(v, ls, i, n);
        let s = v.siblings[i];
        assert(v.siblings_ok(i));
        lemma_index_of_contains(s, nd(i));
        crate::model::lemma_distinct_bounded(s, n);
        lemma_complete_back(v, ls, i, n);
        lemma_complete_fwd(v, ls, i, n);
    }
}


/// In a valid state, the sibling list of `i` is a whole sibling list of its links.
proof fn lemma_siblings_full<T>(v: ArenaView<T>, ls: Seq<Links>, i: int)
    requires
        v.valid(),
        v.agrees(ls),
        0 <= i < v.len(),
    ensures
        full_chain(ls, v.siblings[i]),
        v.siblings[i][v.position(nd(i))] == nd(i),
        0 <= v.position(nd(i)) < v.siblings[i].len(),
{
    let s = v.siblings[i];
    assert(v.siblings_ok(i));
    lemma_index_of_contains(s, nd(i));
    assert forall|k: int| 0 <= k < s.len() implies {
        &&& v.position(#[trigger] s[k]) == k
        &&& v.agrees_at(ls, s[k].id())
        &&& nd(s[k].id()) == s[k]
    } by {
        assert(s[k].id() < v.len());
        assert(v.siblings[s[k].id()] == s);
        v.lemma_position(s[k], k);
        lemma_nd(s[k]);
    }
    assert forall|k: int| 0 <= k < s.len() - 1 implies #[trigger] ls[s[k].id()].next_sibling
        == Some(s[k + 1]) by {
        assert(v.position(s[k]) == k);
    }
    assert forall|k: int| 0 < k < s.len() implies #[trigger] ls[s[k].id()].previous_sibling
        == Some(s[k - 1]) by {
        assert(v.position(s[k]) == k);
    }
    assert(v.position(s[0]) == 0);
    assert(v.position(s[s.len() - 1]) == s.len() - 1);
}

/// In a valid state, following parents from `i` for `k` nodes, `k` at least
/// the number of its ancestors, gives its ancestors.
proof fn lemma_up_ancestors<T>(v: ArenaView<T>, ls: Seq<Links>, i: int, k: nat)
    requires
        v.valid(),
        v.agrees(ls),
        0 <= i < v.len(),
        v.ancestors[i].len() <= k,
    ensures
        up(ls, i, k) == v.ancestors[i],
    decreases k,
{
    v.lemma_node_facts(i);
    assert(v.agrees_at(ls, i));
    assert(v.ancestors_ok(i));
    if let Some(p) = v.parent[i] {
        lemma_up_ancestors(v, ls, p.id(), (k - 1) as nat);
    }
}

/// A valid state is the one its links describe.
pub proof fn lemma_unique<T>(v: ArenaView<T>, ls: Seq<Links>)
    requires
        v.valid(),
        v.agrees(ls),
    ensures
        shape_of(ls, v.data) == v,
{
    let n = ls.len();
    let w = shape_of(ls, v.data);
    lemma_complete(v, ls);
    assert(w.parent =~= v.parent) by {
        assert forall|i: int| 0 <= i < n implies w.parent[i] == v.parent[i] by {
            assert(v.agrees_at(ls, i));
        }
    }
    assert forall|i: int| 0 <= i < n implies chain(ls, i) == v.siblings[i] by {
        lemma_chain(ls, i);
        lemma_siblings_full(v, ls, i);
        lemma_chain_unique(
            ls,
            chain(ls, i),
            v.siblings[i],
            back(ls, i, n).len() - 1,
            v.position(nd(i)),
        );
    }
    assert(w.siblings =~= v.siblings);
    assert(w.children =~= v.children) by {
        assert forall|p: int| 0 <= p < n implies w.children[p] == v.children[p] by {
            assert(v.agrees_at(ls, p));
            assert(v.children_ok(p));
            let c = v.children[p];
            if c.len() > 0 {
                let f = c[0];
                assert(f.id() < n);
                v.lemma_node_facts(f.id());
                assert(chain(ls, f.id()) == v.siblings[f.id()]);
            }
        }
    }
    assert(w.ancestors =~= v.ancestors) by {
        assert forall|i: int| 0 <= i < n implies w.ancestors[i] == v.ancestors[i] by {
            v.lemma_depth_bound(i);
            lemma_up_ancestors(v, ls, i, n);
        }
    }
}

/// Whether two optional nodes are the same.
fn same(a: Option<Node>, b: Option<Node>) -> (r: bool)
    ensures
        r == (a == b),
{
    match (a, b) {
        (Some(x), Some(y)) => x.index == y.index,
        (None, None) => true,
        _ => false,
    }
}

fn link_of(ls: &Vec<Links>, which: u8, i: usize) -> (r: Option<Node>)
    requires
        i < ls@.len(),
        which <= 2,
    ensures
        r == link(ls@, which as nat, i as int),
{
    if which == 0 {
        ls[i].parent
    } else if which == 1 {
        ls[i].previous_sibling
    } else {
        ls[i].next_sibling
    }
}

/// Whether following link `which` from `i` ends within as many nodes as there are.
fn walk_ends(ls: &Vec<Links>, which: u8, i: usize) -> (r: bool)
    requires
        in_range(ls@),
        i < ls@.len(),
        which <= 2,
    ensures
        r == reaches_end(ls@, which as nat, i as int, ls@.len()),
{
    let n = ls.len();
    let mut cur = i;
    let mut left = n;
    loop
        invariant
            in_range(ls@),
            n == ls@.len(),
            which <= 2,
            cur < n,
            left <= n,
            reaches_end(ls@, which as nat, i as int, n as nat) == reaches_end(
                ls@,
                which as nat,
                cur as int,
                left as nat,
            ),
        decreases left,
    {
        if left == 0 {
            return false;
        }
        assert(opt_in(ls@[cur as int].parent, ls@.len()));
        match link_of(ls, which, cur) {
            None => {
                return true;
            },
            Some(j) => {
                cur = j.index;
                left = left - 1;
            },
        }
    }
}

/// Whether an optional link names one of the first `n` nodes.
fn opt_below(o: Option<Node>, n: usize) -> (r: bool)
    ensures
        r == opt_in(o, n as nat),
{
    match o {
        Some(x) => x.index < n,
        None => true,
    }
}

/// Whether the links of `i` agree with those of its neighbours.
fn consistent_exec(ls: &Vec<Links>, i: usize) -> (r: bool)
    requires
        in_range(ls@),
        i < ls@.len(),
    ensures
        r == consistent_at(ls@, i as int),
{
    let l = ls[i];
    let me = Some(Node { index: i });
    assert(opt_in(ls@[i as int].parent, ls@.len()));
    if let Some(j) = l.next_sibling {
        if !same(ls[j.index].previous_sibling, me) || !same(ls[j.index].parent, l.parent) {
            return false;
        }
    }
    if let Some(q) = l.previous_sibling {
        if !same(ls[q.index].next_sibling, me) {
            return false;
        }
    }
    if let Some(c) = l.first_child {
        if !same(ls[c.index].parent, me) || ls[c.index].previous_sibling.is_some() {
            return false;
        }
    }
    if let Some(c) = l.last_child {
        if !same(ls[c.index].parent, me) || ls[c.index].next_sibling.is_some() {
            return false;
        }
    }
    if let Some(p) = l.parent {
        if l.previous_sibling.is_none() && !same(ls[p.index].first_child, me) {
            return false;
        }
        if l.next_sibling.is_none() && !same(ls[p.index].last_child, me) {
            return false;
        }
    }
    l.first_child.is_none() == l.last_child.is_none()
}

/// Whether the links describe a forest.
pub(crate) fn is_forest(ls: &Vec<Links>) -> (r: bool)
    ensures
        r == forms_forest(ls@),
{
    let n = ls.len();
    if n == usize::MAX {
        return false;
    }
    let mut i: usize = 0;
    while i < n
        invariant
            n == ls@.len(),
            n < usize::MAX,
            i <= n,
            forall|x: int|
                0 <= x < i ==> {
                    &&& opt_in(#[trigger] ls@[x].parent, ls@.len())
                    &&& opt_in(ls@[x].previous_sibling, ls@.len())
                    &&& opt_in(ls@[x].next_sibling, ls@.len())
                    &&& opt_in(ls@[x].first_child, ls@.len())
                    &&& opt_in(ls@[x].last_child, ls@.len())
                },
        decreases n - i,
    {
        let l = ls[i];
        if !(opt_below(l.parent, n) && opt_below(l.previous_sibling, n) && opt_below(
            l.next_sibling,
            n,
        ) && opt_below(l.first_child, n) && opt_below(l.last_child, n)) {
            assert(!in_range(ls@)) by {
                assert(opt_in(ls@[i as int].parent, ls@.len()) ==> !(opt_in(
                    ls@[i as int].previous_sibling,
                    ls@.len(),
                ) && opt_in(ls@[i as int].next_sibling, ls@.len()) && opt_in(
                    ls@[i as int].first_child,
                    ls@.len(),
                ) && opt_in(ls@[i as int].last_child, ls@.len())));
            }
            return false;
        }
        i = i + 1;
    }
    assert(in_range(ls@));
    let mut i: usize = 0;
    while i < n
        invariant
            n == ls@.len(),
            in_range(ls@),
            i <= n,
            forall|x: int| 0 <= x < i ==> #[trigger] consistent_at(ls@, x),
        decreases n - i,
    {
        if !consistent_exec(ls, i) {
            assert(!consistent_at(ls@, i as int));
            return false;
        }
        i = i + 1;
    }
    let mut i: usize = 0;
    while i < n
        invariant
            n == ls@.len(),
            in_range(ls@),
            forall|x: int| 0 <= x < n ==> #[trigger] consistent_at(ls@, x),
            i <= n,
            forall|x: int| 0 <= x < i ==> #[trigger] acyclic_at(ls@, x),
        decreases n - i,
    {
        if !(walk_ends(ls, 0, i) && walk_ends(ls, 1, i) && walk_ends(ls, 2, i)) {
            assert(!acyclic_at(ls@, i as int));
            return false;
        }
        i = i + 1;
    }
    true
}

} // verus!
