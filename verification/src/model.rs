use vstd::prelude::*;

verus! {

/// A handle to a node of an [`Arena`](crate::arena::Arena): the position of
/// the node in the arena.
#[derive(Clone, Copy, Debug, PartialEq, Eq, Structural)]
pub struct Node {
    pub index: usize,
}

impl Node {
    /// The position of the node, as a mathematical integer.
    pub open spec fn id(self) -> int {
        self.index as int
    }
}

/// The links of one node: its parent, its previous and next sibling, its
/// first and last child.
#[derive(Clone, Copy)]
pub struct Links {
    pub parent: Option<Node>,
    pub previous_sibling: Option<Node>,
    pub next_sibling: Option<Node>,
    pub first_child: Option<Node>,
    pub last_child: Option<Node>,
}

/// The first element of `s`, if any.
pub open spec fn first_of(s: Seq<Node>) -> Option<Node> {
    if s.len() > 0 {
        Some(s[0])
    } else {
        None
    }
}

/// The last element of `s`, if any.
pub open spec fn last_of(s: Seq<Node>) -> Option<Node> {
    if s.len() > 0 {
        Some(s[s.len() - 1])
    } else {
        None
    }
}

/// `a` ends with `b`.
pub open spec fn ends_with(a: Seq<Node>, b: Seq<Node>) -> bool {
    &&& b.len() <= a.len()
    &&& a.subrange(a.len() - b.len(), a.len() as int) == b
}

/// The abstract state of an arena.
///
/// For the node at position `i`:
/// - `data[i]` is its data,
/// - `parent[i]` its parent,
/// - `children[i]` its children, in order,
/// - `siblings[i]` the sibling list it belongs to, itself included, in order
///   (for a node with a parent, the children of that parent),
/// - `ancestors[i]` the node itself followed by its ancestors, nearest first.
pub struct ArenaView<T> {
    pub data: Seq<T>,
    pub parent: Seq<Option<Node>>,
    pub children: Seq<Seq<Node>>,
    pub siblings: Seq<Seq<Node>>,
    pub ancestors: Seq<Seq<Node>>,
}

impl<T> ArenaView<T> {
    /// The number of nodes.
    pub open spec fn len(self) -> nat {
        self.data.len()
    }

    /// `n` is a node of this arena.
    pub open spec fn has(self, n: Node) -> bool {
        n.id() < self.len()
    }

    /// The position of `n` in its sibling list.
    pub open spec fn position(self, n: Node) -> int {
        self.siblings[n.id()].index_of(n)
    }

    /// The sibling just before `n`, if any.
    pub open spec fn previous_sibling(self, n: Node) -> Option<Node> {
        let k = self.position(n);
        if k > 0 {
            Some(self.siblings[n.id()][k - 1])
        } else {
            None
        }
    }

    /// The sibling just after `n`, if any.
    pub open spec fn next_sibling(self, n: Node) -> Option<Node> {
        let s = self.siblings[n.id()];
        let k = self.position(n);
        if k + 1 < s.len() {
            Some(s[k + 1])
        } else {
            None
        }
    }

    /// The first child of `n`, if any.
    pub open spec fn first_child(self, n: Node) -> Option<Node> {
        first_of(self.children[n.id()])
    }

    /// The last child of `n`, if any.
    pub open spec fn last_child(self, n: Node) -> Option<Node> {
        last_of(self.children[n.id()])
    }

    /// `x` is `c` or a descendant of `c`: the ancestors of `x` end with those
    /// of `c` (equivalently, `c` is among the ancestors of `x`; see
    /// `lemma_in_subtree_contains`).
    pub open spec fn in_subtree(self, x: Node, c: Node) -> bool {
        ends_with(self.ancestors[x.id()], self.ancestors[c.id()])
    }

    /// The sibling list of `n` is consistent: it holds `n` once, its members are
    /// nodes that share it and share `n`'s parent, and it is that parent's
    /// list of children.
    pub open spec fn siblings_ok(self, i: int) -> bool {
        let s = self.siblings[i];
        &&& s.contains(Node { index: i as usize })
        &&& s.no_duplicates()
        &&& forall|j: int|
            0 <= j < s.len() ==> {
                &&& #[trigger] s[j].id() < self.len()
                &&& self.siblings[s[j].id()] == s
                &&& self.parent[s[j].id()] == self.parent[i]
            }
        &&& match self.parent[i] {
            Some(p) => p.id() < self.len() && s == self.children[p.id()],
            None => true,
        }
    }

    /// Every child of `i` is a node whose parent is `i`.
    pub open spec fn children_ok(self, i: int) -> bool {
        let c = self.children[i];
        forall|j: int|
            0 <= j < c.len() ==> #[trigger] c[j].id() < self.len() && self.parent[c[j].id()]
                == Some(Node { index: i as usize })
    }

    /// The ancestor list of `i` starts with `i` and continues with that of its parent.
    pub open spec fn ancestors_ok(self, i: int) -> bool {
        match self.parent[i] {
            Some(p) => self.ancestors[i] == seq![Node { index: i as usize }] + self.ancestors[p.id()],
            None => self.ancestors[i] == seq![Node { index: i as usize }],
        }
    }

    /// The state is a forest of ordered trees whose roots may also be linked
    /// as siblings.
    pub open spec fn valid(self) -> bool {
        &&& self.len() < usize::MAX
        &&& self.parent.len() == self.len()
        &&& self.children.len() == self.len()
        &&& self.siblings.len() == self.len()
        &&& self.ancestors.len() == self.len()
        &&& forall|i: int| 0 <= i < self.len() ==> #[trigger] self.siblings_ok(i)
        &&& forall|i: int| 0 <= i < self.len() ==> #[trigger] self.children_ok(i)
        &&& forall|i: int| 0 <= i < self.len() ==> #[trigger] self.ancestors_ok(i)
    }

    /// The state after `c` is detached from its parent and siblings; its
    /// children stay with it.
    pub open spec fn detached(self, c: Node) -> Self {
        let s = self.siblings[c.id()];
        let rest = s.remove(s.index_of(c));
        let cut = self.ancestors[c.id()].len();
        ArenaView {
            data: self.data,
            parent: self.parent.update(c.id(), None),
            children: match self.parent[c.id()] {
                Some(p) => self.children.update(p.id(), rest),
                None => self.children,
            },
            siblings: Seq::new(
                self.len(),
                |x: int|
                    if x == c.id() {
                        seq![c]
                    } else if s.contains(Node { index: x as usize }) {
                        rest
                    } else {
                        self.siblings[x]
                    },
            ),
            ancestors: Seq::new(
                self.len(),
                |x: int|
                    if ends_with(self.ancestors[x], self.ancestors[c.id()]) {
                        self.ancestors[x].take(self.ancestors[x].len() - cut + 1)
                    } else {
                        self.ancestors[x]
                    },
            ),
        }
    }

    /// The state after the lone node `c` takes `par` as parent and `list` as
    /// its sibling list; the nodes under `c` take the ancestors of `par` as
    /// their further ancestors.
    pub open spec fn spliced(self, c: Node, par: Option<Node>, list: Seq<Node>) -> Self {
        let tail = match par {
            Some(p) => self.ancestors[p.id()],
            None => Seq::empty(),
        };
        ArenaView {
            data: self.data,
            parent: self.parent.update(c.id(), par),
            children: match par {
                Some(p) => self.children.update(p.id(), list),
                None => self.children,
            },
            siblings: Seq::new(
                self.len(),
                |x: int|
                    if list.contains(Node { index: x as usize }) {
                        list
                    } else {
                        self.siblings[x]
                    },
            ),
            ancestors: Seq::new(
                self.len(),
                |x: int|
                    if ends_with(self.ancestors[x], self.ancestors[c.id()]) {
                        self.ancestors[x] + tail
                    } else {
                        self.ancestors[x]
                    },
            ),
        }
    }

    /// `list` is the sibling list into which a node goes under parent `par`:
    /// the children of `par`, or the sibling list of a root.
    pub open spec fn is_sibling_list(self, par: Option<Node>, list: Seq<Node>) -> bool {
        match par {
            Some(p) => self.has(p) && list == self.children[p.id()],
            None => list.len() > 0 && self.has(list[0]) && self.parent[list[0].id()] is None
                && list == self.siblings[list[0].id()],
        }
    }

    /// `c` can go into `list` under `par` at position `m`: `c` stands alone,
    /// and `par` does not lie under `c`.
    pub open spec fn can_splice(self, c: Node, par: Option<Node>, list: Seq<Node>, m: int) -> bool {
        &&& self.has(c)
        &&& self.parent[c.id()] is None
        &&& self.siblings[c.id()] == seq![c]
        &&& self.is_sibling_list(par, list)
        &&& !list.contains(c)
        &&& 0 <= m <= list.len()
        &&& (par matches Some(p) ==> !self.in_subtree(p, c))
    }

    /// The state after `c` is detached and appended as the last child of `p`.
    pub open spec fn appended(self, p: Node, c: Node) -> Self {
        let w = self.detached(c);
        w.spliced(c, Some(p), w.children[p.id()].push(c))
    }

    /// The state after `c` is detached and prepended as the first child of `p`.
    pub open spec fn prepended(self, p: Node, c: Node) -> Self {
        let w = self.detached(c);
        w.spliced(c, Some(p), seq![c] + w.children[p.id()])
    }

    /// The state after `s` is detached and put right after `a` among its siblings.
    pub open spec fn inserted_after(self, a: Node, s: Node) -> Self {
        let w = self.detached(s);
        w.spliced(s, w.parent[a.id()], w.siblings[a.id()].insert(w.position(a) + 1, s))
    }

    /// The state after `s` is detached and put right before `a` among its siblings.
    pub open spec fn inserted_before(self, a: Node, s: Node) -> Self {
        let w = self.detached(s);
        w.spliced(s, w.parent[a.id()], w.siblings[a.id()].insert(w.position(a), s))
    }

    /// The state after each node of `cs`, in order, is appended to `p`.
    pub open spec fn appended_all(self, p: Node, cs: Seq<Node>) -> Self
        decreases cs.len(),
    {
        if cs.len() == 0 {
            self
        } else {
            self.appended_all(p, cs.drop_last()).appended(p, cs.last())
        }
    }

    /// `ls` holds, for every node, the links of this state.
    pub open spec fn agrees(self, ls: Seq<Links>) -> bool {
        &&& ls.len() == self.len()
        &&& forall|i: int| 0 <= i < ls.len() ==> #[trigger] self.agrees_at(ls, i)
    }

    pub open spec fn agrees_at(self, ls: Seq<Links>, i: int) -> bool {
        let n = Node { index: i as usize };
        &&& ls[i].parent == self.parent[i]
        &&& ls[i].previous_sibling == self.previous_sibling(n)
        &&& ls[i].next_sibling == self.next_sibling(n)
        &&& ls[i].first_child == self.first_child(n)
        &&& ls[i].last_child == self.last_child(n)
    }

    /// A new node holding `d`, with no relatives.
    pub open spec fn pushed(self, d: T) -> Self {
        let n = Node { index: self.len() as usize };
        ArenaView {
            data: self.data.push(d),
            parent: self.parent.push(None),
            children: self.children.push(Seq::empty()),
            siblings: self.siblings.push(seq![n]),
            ancestors: self.ancestors.push(seq![n]),
        }
    }
}

/// In a list without repeats, the position of the element at `j` is `j`.
pub proof fn lemma_index_of<A>(s: Seq<A>, j: int)
    requires
        s.no_duplicates(),
        0 <= j < s.len(),
    ensures
        s.contains(s[j]),
        s.index_of(s[j]) == j,
{
    assert(s.contains(s[j]));
    let k = s.index_of(s[j]);
    assert(0 <= k < s.len() && s[k] == s[j]);
}

/// In a list without repeats that holds `x`, `x` stands at `index_of(x)`.
pub proof fn lemma_index_of_contains<A>(s: Seq<A>, x: A)
    requires
        s.contains(x),
    ensures
        0 <= s.index_of(x) < s.len(),
        s[s.index_of(x)] == x,
{
}

impl<T> ArenaView<T> {
    /// Adding a node keeps the state valid, leaves the other nodes as they
    /// were and gives the new node no relatives.
    pub proof fn lemma_pushed(self, d: T)
        requires
            self.valid(),
            self.len() + 1 < usize::MAX,
        ensures
            self.pushed(d).valid(),
            forall|n: Node|
                #![trigger self.pushed(d).previous_sibling(n)]
                #![trigger self.pushed(d).next_sibling(n)]
                #![trigger self.pushed(d).first_child(n)]
                #![trigger self.pushed(d).last_child(n)]
                n.id() < self.len() ==> {
                    &&& self.pushed(d).previous_sibling(n) == self.previous_sibling(n)
                    &&& self.pushed(d).next_sibling(n) == self.next_sibling(n)
                    &&& self.pushed(d).first_child(n) == self.first_child(n)
                    &&& self.pushed(d).last_child(n) == self.last_child(n)
                },
            ({
                let n = Node { index: self.len() as usize };
                &&& self.pushed(d).previous_sibling(n) is None
                &&& self.pushed(d).next_sibling(n) is None
                &&& self.pushed(d).first_child(n) is None
                &&& self.pushed(d).last_child(n) is None
            }),
    {
        let w = self.pushed(d);
        let m = self.len() as int;
        let nn = Node { index: m as usize };
        assert forall|i: int| 0 <= i < w.len() implies #[trigger] w.siblings_ok(i) by {
            if i < m {
                assert(self.siblings_ok(i));
                assert(w.siblings[i] == self.siblings[i]);
            } else {
                assert(w.siblings[i] =~= seq![nn]);
                assert(w.siblings[i][0] == nn);
                assert(seq![nn].no_duplicates());
            }
        }
        assert forall|i: int| 0 <= i < w.len() implies #[trigger] w.children_ok(i) by {
            if i < m {
                assert(self.children_ok(i));
            }
        }
        assert forall|i: int| 0 <= i < w.len() implies #[trigger] w.ancestors_ok(i) by {
            if i < m {
                assert(self.ancestors_ok(i));
                if let Some(p) = self.parent[i] {
                    assert(self.siblings_ok(i));
                }
            }
        }
        lemma_index_of(seq![nn], 0);
    }
}


/// If `a` is `x` followed by `b`, and `cs` starts with some node other than
/// `x`, then `a` ends with `cs` exactly when `b` does, and cutting `a` just
/// after where `cs` begins keeps `x` in front of the same cut of `b`.
pub proof fn lemma_ends_with_step(a: Seq<Node>, b: Seq<Node>, cs: Seq<Node>, x: Node)
    requires
        a == seq![x] + b,
        cs.len() >= 1,
        cs[0] != x,
    ensures
        ends_with(a, cs) <==> ends_with(b, cs),
        ends_with(b, cs) ==> a.take(a.len() - cs.len() + 1) == seq![x] + b.take(
            b.len() - cs.len() + 1,
        ),
{
    if ends_with(a, cs) {
        if cs.len() == a.len() {
            assert(a.subrange(0, a.len() as int) =~= a);
            assert(a[0] == x);
            assert(false);
        }
        assert(b.subrange(b.len() - cs.len(), b.len() as int) =~= a.subrange(
            a.len() - cs.len(),
            a.len() as int,
        ));
    }
    if ends_with(b, cs) {
        assert(b.subrange(b.len() - cs.len(), b.len() as int) =~= a.subrange(
            a.len() - cs.len(),
            a.len() as int,
        ));
        assert(a.take(a.len() - cs.len() + 1) =~= seq![x] + b.take(b.len() - cs.len() + 1));
    }
}

impl<T> ArenaView<T> {
    /// Basic facts of a valid state about node `i`.
    pub proof fn lemma_node_facts(self, i: int)
        requires
            self.valid(),
            0 <= i < self.len(),
        ensures
            self.ancestors[i].len() >= 1,
            self.ancestors[i][0] == (Node { index: i as usize }),
            self.siblings[i].contains(Node { index: i as usize }),
            self.parent[i] matches Some(p) ==> {
                &&& p.id() < self.len()
                &&& p.id() != i
                &&& self.ancestors[i].len() == self.ancestors[p.id()].len() + 1
                &&& self.siblings[i] == self.children[p.id()]
            },
    {
        assert(self.ancestors_ok(i));
        assert(self.siblings_ok(i));
        if let Some(p) = self.parent[i] {
            assert(self.ancestors_ok(p.id()));
            if p.id() == i {
                assert(self.ancestors[i].len() == self.ancestors[i].len() + 1);
            }
        }
    }

    /// Detaching keeps the state valid.
    pub proof fn lemma_detached_valid(self, c: Node)
        requires
            self.valid(),
            self.has(c),
        ensures
            self.detached(c).valid(),
    {
        let w = self.detached(c);
        let s = self.siblings[c.id()];
        let k = s.index_of(c);
        let rest = s.remove(k);
        let pc = self.parent[c.id()];
        self.lemma_node_facts(c.id());
        assert(self.siblings_ok(c.id()));
        lemma_index_of_contains(s, c);
        assert forall|j: int| 0 <= j < rest.len() implies #[trigger] rest[j] == (if j < k {
            s[j]
        } else {
            s[j + 1]
        }) && rest[j] != c && s.contains(rest[j]) by {
            if j < k {
                assert(s[j] != s[k]);
            } else {
                assert(s[j + 1] != s[k]);
                assert(s.contains(s[j + 1]));
            }
        }
        assert(rest.no_duplicates()) by {
            assert forall|a: int, b: int|
                0 <= a < rest.len() && 0 <= b < rest.len() && a != b implies rest[a] != rest[b] by {
                let aa = if a < k {
                    a
                } else {
                    a + 1
                };
                let bb = if b < k {
                    b
                } else {
                    b + 1
                };
                assert(rest[a] == s[aa]);
                assert(rest[b] == s[bb]);
            }
        }
        assert forall|i: int| 0 <= i < w.len() implies #[trigger] w.siblings_ok(i) by {
            let ni = Node { index: i as usize };
            assert(self.siblings_ok(i));
            if i == c.id() {
                assert(w.siblings[i] == seq![c]);
                assert(seq![c][0] == c);
                assert(seq![c].no_duplicates());
            } else if s.contains(ni) {
                let j = s.index_of(ni);
                lemma_index_of_contains(s, ni);
                assert(j != k);
                let jj = if j < k {
                    j
                } else {
                    j - 1
                };
                assert(rest[jj] == ni);
                assert(rest.contains(ni));
                assert(s[j].id() < self.len());
                assert(self.parent[i] == pc);
                assert forall|j2: int| 0 <= j2 < rest.len() implies {
                    &&& #[trigger] rest[j2].id() < w.len()
                    &&& w.siblings[rest[j2].id()] == rest
                    &&& w.parent[rest[j2].id()] == w.parent[i]
                } by {
                    let jj2 = if j2 < k {
                        j2
                    } else {
                        j2 + 1
                    };
                    assert(rest[j2] == s[jj2]);
                    assert(s.contains(rest[j2]));
                }
            } else {
                let si = self.siblings[i];
                assert(w.siblings[i] == si);
                assert forall|j2: int| 0 <= j2 < si.len() implies {
                    &&& #[trigger] si[j2].id() < w.len()
                    &&& w.siblings[si[j2].id()] == si
                    &&& w.parent[si[j2].id()] == w.parent[i]
                } by {
                    let y = si[j2];
                    assert(self.siblings[y.id()] == si);
                    if y == c {
                        assert(s == si);
                        assert(s.contains(ni));
                    }
                    if s.contains(y) {
                        let m = s.index_of(y);
                        lemma_index_of_contains(s, y);
                        assert(self.siblings[y.id()] == s);
                        assert(s.contains(ni));
                    }
                    assert(y.id() != c.id());
                }
                if let Some(p) = self.parent[i] {
                    if pc == Some(p) {
                        assert(s == self.children[p.id()]);
                        assert(s.contains(ni));
                    }
                }
            }
        }
        assert forall|i: int| 0 <= i < w.len() implies #[trigger] w.children_ok(i) by {
            assert(self.children_ok(i));
            let ni = Node { index: i as usize };
            if pc == Some(ni) {
                assert(w.children[i] == rest);
                assert forall|j: int| 0 <= j < rest.len() implies #[trigger] rest[j].id() < w.len()
                    && w.parent[rest[j].id()] == Some(ni) by {
                    let y = rest[j];
                    assert(s.contains(y));
                    let m = s.index_of(y);
                    lemma_index_of_contains(s, y);
                    assert(self.parent[y.id()] == pc);
                }
            } else {
                let ci = self.children[i];
                assert(w.children[i] == ci);
                assert forall|j: int| 0 <= j < ci.len() implies #[trigger] ci[j].id() < w.len()
                    && w.parent[ci[j].id()] == Some(ni) by {
                    if ci[j] == c {
                        assert(self.parent[c.id()] == Some(ni));
                    }
                }
            }
        }
        let ac = self.ancestors[c.id()];
        assert forall|i: int| 0 <= i < w.len() implies #[trigger] w.ancestors_ok(i) by {
            let ni = Node { index: i as usize };
            self.lemma_node_facts(i);
            assert(self.ancestors_ok(i));
            let ai = self.ancestors[i];
            if i == c.id() {
                assert(ends_with(ai, ac)) by {
                    assert(ai.subrange(0, ai.len() as int) =~= ai);
                }
                assert(ai.take(1) =~= seq![c]);
            } else {
                match self.parent[i] {
                    None => {
                        if ends_with(ai, ac) {
                            assert(ai.subrange(ai.len() - ac.len(), ai.len() as int) =~= ai);
                            assert(ac[0] == c);
                        }
                    },
                    Some(p) => {
                        self.lemma_node_facts(p.id());
                        lemma_ends_with_step(ai, self.ancestors[p.id()], ac, ni);
                    },
                }
            }
        }
    }
}


impl<T> ArenaView<T> {
    /// Positions in a sibling list: a member sits at its own position.
    pub proof fn lemma_position(self, n: Node, j: int)
        requires
            self.valid(),
            self.has(n),
            0 <= j < self.siblings[n.id()].len(),
            self.siblings[n.id()][j] == n,
        ensures
            self.position(n) == j,
    {
        assert(self.siblings_ok(n.id()));
        lemma_index_of(self.siblings[n.id()], j);
    }

    /// How detaching `c` changes the links of every node: the neighbours of
    /// `c` are joined to each other, and the parent of `c` takes them as
    /// first or last child where `c` stood there.
    pub proof fn lemma_detached_links(self, c: Node)
        requires
            self.valid(),
            self.has(c),
        ensures
            forall|n: Node|
                #![trigger self.detached(c).previous_sibling(n)]
                #![trigger self.detached(c).next_sibling(n)]
                #![trigger self.detached(c).first_child(n)]
                #![trigger self.detached(c).last_child(n)]
                self.has(n) ==> {
                    &&& self.detached(c).previous_sibling(n) == if n == c {
                        None
                    } else if self.next_sibling(c) == Some(n) {
                        self.previous_sibling(c)
                    } else {
                        self.previous_sibling(n)
                    }
                    &&& self.detached(c).next_sibling(n) == if n == c {
                        None
                    } else if self.previous_sibling(c) == Some(n) {
                        self.next_sibling(c)
                    } else {
                        self.next_sibling(n)
                    }
                    &&& self.detached(c).first_child(n) == if self.parent[c.id()] == Some(n)
                        && self.previous_sibling(c) is None {
                        self.next_sibling(c)
                    } else {
                        self.first_child(n)
                    }
                    &&& self.detached(c).last_child(n) == if self.parent[c.id()] == Some(n)
                        && self.next_sibling(c) is None {
                        self.previous_sibling(c)
                    } else {
                        self.last_child(n)
                    }
                },
    {
        let w = self.detached(c);
        let s = self.siblings[c.id()];
        let k = s.index_of(c);
        let rest = s.remove(k);
        let pc = self.parent[c.id()];
        self.lemma_detached_valid(c);
        self.lemma_node_facts(c.id());
        assert(self.siblings_ok(c.id()));
        lemma_index_of_contains(s, c);
        assert forall|j: int| 0 <= j < rest.len() implies #[trigger] rest[j] == (if j < k {
            s[j]
        } else {
            s[j + 1]
        }) by {}
        assert forall|n: Node| self.has(n) implies {
            &&& w.previous_sibling(n) == if n == c {
                None
            } else if self.next_sibling(c) == Some(n) {
                self.previous_sibling(c)
            } else {
                self.previous_sibling(n)
            }
            &&& w.next_sibling(n) == if n == c {
                None
            } else if self.previous_sibling(c) == Some(n) {
                self.next_sibling(c)
            } else {
                self.next_sibling(n)
            }
        } by {
            if n == c {
                assert(w.siblings[c.id()] == seq![c]);
                w.lemma_position(c, 0);
            } else if s.contains(n) {
                let j = s.index_of(n);
                lemma_index_of_contains(s, n);
                assert(s[j].id() < self.len());
                assert(self.siblings[n.id()] == s);
                self.lemma_position(n, j);
                assert(j != k);
                let jj = if j < k {
                    j
                } else {
                    j - 1
                };
                assert(rest[jj] == n);
                assert(w.siblings[n.id()] == rest);
                w.lemma_position(n, jj);
                if j + 1 < s.len() {
                    assert(s[j + 1].id() < self.len());
                    self.lemma_position(s[j + 1], j + 1);
                }
                if j > 0 {
                    assert(s[j - 1].id() < self.len());
                    self.lemma_position(s[j - 1], j - 1);
                }
                if k + 1 < s.len() {
                    assert(s[k + 1] != s[k]);
                }
                if k > 0 {
                    assert(s[k - 1] != s[k]);
                }
            } else {
                assert(w.siblings[n.id()] == self.siblings[n.id()]);
                if k + 1 < s.len() {
                    assert(s.contains(s[k + 1]));
                }
                if k > 0 {
                    assert(s.contains(s[k - 1]));
                }
            }
        }
        assert forall|n: Node| self.has(n) implies {
            &&& w.first_child(n) == if pc == Some(n) && self.previous_sibling(c) is None {
                self.next_sibling(c)
            } else {
                self.first_child(n)
            }
            &&& w.last_child(n) == if pc == Some(n) && self.next_sibling(c) is None {
                self.previous_sibling(c)
            } else {
                self.last_child(n)
            }
        } by {
            if pc == Some(n) {
                assert(w.children[n.id()] == rest);
                assert(self.children[n.id()] == s);
            } else {
                assert(w.children[n.id()] == self.children[n.id()]);
            }
        }
    }
}


impl<T> ArenaView<T> {
    /// Every relative of a node is a node of the arena.
    pub proof fn lemma_links_in_range(self, n: Node)
        requires
            self.valid(),
            self.has(n),
        ensures
            self.parent[n.id()] matches Some(p) ==> self.has(p),
            self.previous_sibling(n) matches Some(p) ==> self.has(p),
            self.next_sibling(n) matches Some(p) ==> self.has(p),
            self.first_child(n) matches Some(p) ==> self.has(p),
            self.last_child(n) matches Some(p) ==> self.has(p),
            self.previous_sibling(n) != Some(n),
            self.next_sibling(n) != Some(n),
            self.previous_sibling(n) is Some ==> self.previous_sibling(n) != self.next_sibling(n),
    {
        let s = self.siblings[n.id()];
        assert(self.siblings_ok(n.id()));
        assert(self.children_ok(n.id()));
        lemma_index_of_contains(s, n);
        let k = self.position(n);
        if k > 0 {
            assert(s[k - 1].id() < self.len());
            assert(s[k - 1] != s[k]);
        }
        if k + 1 < s.len() {
            assert(s[k + 1].id() < self.len());
            assert(s[k + 1] != s[k]);
        }
        if k > 0 && k + 1 < s.len() {
            assert(s[k + 1] != s[k - 1]);
        }
        let c = self.children[n.id()];
        if c.len() > 0 {
            assert(c[0].id() < self.len());
            assert(c[c.len() - 1].id() < self.len());
        }
    }
}


impl<T> ArenaView<T> {
    /// The members of a sibling list under `par` have parent `par` and share the list.
    pub proof fn lemma_sibling_list_members(self, par: Option<Node>, list: Seq<Node>, j: int)
        requires
            self.valid(),
            self.is_sibling_list(par, list),
            0 <= j < list.len(),
        ensures
            self.has(list[j]),
            self.parent[list[j].id()] == par,
            self.siblings[list[j].id()] == list,
            list.no_duplicates(),
    {
        match par {
            Some(p) => {
                assert(self.children_ok(p.id()));
                let y = list[j];
                assert(y.id() < self.len());
                assert(self.siblings_ok(y.id()));
            },
            None => {
                let a = list[0];
                assert(self.siblings_ok(a.id()));
                assert(list[j].id() < self.len());
            },
        }
    }

    /// Splicing a lone node into a sibling list keeps the state valid.
    pub proof fn lemma_spliced_valid(self, c: Node, par: Option<Node>, list: Seq<Node>, m: int)
        requires
            self.valid(),
            self.can_splice(c, par, list, m),
        ensures
            self.spliced(c, par, list.insert(m, c)).valid(),
    {
        let nl = list.insert(m, c);
        let w = self.spliced(c, par, nl);
        list.insert_ensures(m, c);
        self.lemma_node_facts(c.id());
        assert(self.ancestors_ok(c.id()));
        let ac = self.ancestors[c.id()];
        assert(ac == seq![c]);
        assert forall|j: int| 0 <= j < nl.len() implies #[trigger] nl[j] == (if j < m {
            list[j]
        } else if j == m {
            c
        } else {
            list[j - 1]
        }) by {}
        assert forall|j: int| 0 <= j < nl.len() implies {
            &&& self.has(#[trigger] nl[j])
            &&& w.parent[nl[j].id()] == par
            &&& (nl[j] != c ==> self.siblings[nl[j].id()] == list && list.contains(nl[j]))
        } by {
            if j != m {
                let jj = if j < m {
                    j
                } else {
                    j - 1
                };
                self.lemma_sibling_list_members(par, list, jj);
                assert(nl[j] == list[jj]);
                assert(list[jj] != c);
            }
        }
        if list.len() > 0 {
            self.lemma_sibling_list_members(par, list, 0);
        }
        assert(nl.no_duplicates()) by {
            assert forall|a: int, b: int|
                0 <= a < nl.len() && 0 <= b < nl.len() && a != b implies nl[a] != nl[b] by {
                if a != m && b != m {
                    let aa = if a < m {
                        a
                    } else {
                        a - 1
                    };
                    let bb = if b < m {
                        b
                    } else {
                        b - 1
                    };
                    assert(nl[a] == list[aa]);
                    assert(nl[b] == list[bb]);
                } else if a == m {
                    let bb = if b < m {
                        b
                    } else {
                        b - 1
                    };
                    assert(nl[b] == list[bb]);
                } else {
                    let aa = if a < m {
                        a
                    } else {
                        a - 1
                    };
                    assert(nl[a] == list[aa]);
                }
            }
        }
        assert(nl[m] == c);
        assert forall|i: int| 0 <= i < w.len() implies #[trigger] w.siblings_ok(i) by {
            let ni = Node { index: i as usize };
            assert(self.siblings_ok(i));
            if nl.contains(ni) {
                assert(w.siblings[i] == nl);
                let j = nl.index_of(ni);
                lemma_index_of_contains(nl, ni);
                assert(w.parent[i] == par);
                assert forall|j2: int| 0 <= j2 < nl.len() implies {
                    &&& #[trigger] nl[j2].id() < w.len()
                    &&& w.siblings[nl[j2].id()] == nl
                    &&& w.parent[nl[j2].id()] == w.parent[i]
                } by {
                    assert(self.has(nl[j2]));
                    assert(nl.contains(nl[j2]));
                }
            } else {
                let si = self.siblings[i];
                assert(w.siblings[i] == si);
                assert(i != c.id()) by {
                    assert(nl.contains(c));
                }
                assert forall|j2: int| 0 <= j2 < si.len() implies {
                    &&& #[trigger] si[j2].id() < w.len()
                    &&& w.siblings[si[j2].id()] == si
                    &&& w.parent[si[j2].id()] == w.parent[i]
                } by {
                    let y = si[j2];
                    assert(self.siblings[y.id()] == si);
                    if nl.contains(y) {
                        let jy = nl.index_of(y);
                        lemma_index_of_contains(nl, y);
                        if y == c {
                            assert(si == seq![c]);
                            assert(si[0] == c);
                            assert(si.contains(ni));
                            assert(false);
                        } else {
                            assert(self.siblings[y.id()] == list);
                            let ji = si.index_of(ni);
                            lemma_index_of_contains(si, ni);
                            let ki = list.index_of(ni);
                            assert(list.contains(ni));
                            lemma_index_of_contains(list, ni);
                            let kk = if ki < m {
                                ki
                            } else {
                                ki + 1
                            };
                            assert(nl[kk] == ni);
                            assert(false);
                        }
                    }
                    if y == c {
                        assert(nl.contains(c));
                    }
                }
                if let Some(p) = self.parent[i] {
                    if par == Some(p) {
                        assert(si == self.children[p.id()]);
                        let ji = si.index_of(ni);
                        lemma_index_of_contains(si, ni);
                        let kk = if ji < m {
                            ji
                        } else {
                            ji + 1
                        };
                        assert(nl[kk] == ni);
                        assert(false);
                    }
                }
            }
        }
        assert forall|i: int| 0 <= i < w.len() implies #[trigger] w.children_ok(i) by {
            assert(self.children_ok(i));
            let ni = Node { index: i as usize };
            if par == Some(ni) {
                assert(w.children[i] == nl);
                assert forall|j: int| 0 <= j < nl.len() implies #[trigger] nl[j].id() < w.len()
                    && w.parent[nl[j].id()] == Some(ni) by {
                    assert(self.has(nl[j]));
                }
            } else {
                let ci = self.children[i];
                assert(w.children[i] == ci);
                assert forall|j: int| 0 <= j < ci.len() implies #[trigger] ci[j].id() < w.len()
                    && w.parent[ci[j].id()] == Some(ni) by {
                    if ci[j] == c {
                        assert(self.parent[c.id()] == Some(ni));
                    }
                }
            }
        }
        assert forall|i: int| 0 <= i < w.len() implies #[trigger] w.ancestors_ok(i) by {
            let ni = Node { index: i as usize };
            self.lemma_node_facts(i);
            assert(self.ancestors_ok(i));
            let ai = self.ancestors[i];
            if i == c.id() {
                assert(ends_with(ai, ac)) by {
                    assert(ai.subrange(0, ai.len() as int) =~= ai);
                }
                if let Some(p) = par {
                    self.lemma_node_facts(p.id());
                    assert(w.ancestors[p.id()] == self.ancestors[p.id()]);
                }
            } else {
                match self.parent[i] {
                    None => {
                        if ends_with(ai, ac) {
                            assert(ai.subrange(ai.len() - ac.len(), ai.len() as int) =~= ai);
                            assert(ac[0] == c);
                        }
                    },
                    Some(q) => {
                        self.lemma_node_facts(q.id());
                        lemma_ends_with_step(ai, self.ancestors[q.id()], ac, ni);
                        if ends_with(ai, ac) {
                            let tail = match par {
                                Some(p) => self.ancestors[p.id()],
                                None => Seq::<Node>::empty(),
                            };
                            assert(ai + tail =~= seq![ni] + (self.ancestors[q.id()] + tail));
                        }
                    },
                }
            }
        }
    }
}


impl<T> ArenaView<T> {
    /// How splicing `c` into `list` at `m` changes the links of every node.
    pub proof fn lemma_spliced_links(self, c: Node, par: Option<Node>, list: Seq<Node>, m: int)
        requires
            self.valid(),
            self.can_splice(c, par, list, m),
        ensures
            forall|n: Node|
                #![trigger self.spliced(c, par, list.insert(m, c)).previous_sibling(n)]
                #![trigger self.spliced(c, par, list.insert(m, c)).next_sibling(n)]
                #![trigger self.spliced(c, par, list.insert(m, c)).first_child(n)]
                #![trigger self.spliced(c, par, list.insert(m, c)).last_child(n)]
                self.has(n) ==> {
                    &&& self.spliced(c, par, list.insert(m, c)).previous_sibling(n) == if n == c {
                        if m > 0 {
                            Some(list[m - 1])
                        } else {
                            None
                        }
                    } else if m < list.len() && n == list[m] {
                        Some(c)
                    } else {
                        self.previous_sibling(n)
                    }
                    &&& self.spliced(c, par, list.insert(m, c)).next_sibling(n) == if n == c {
                        if m < list.len() {
                            Some(list[m])
                        } else {
                            None
                        }
                    } else if m > 0 && n == list[m - 1] {
                        Some(c)
                    } else {
                        self.next_sibling(n)
                    }
                    &&& self.spliced(c, par, list.insert(m, c)).first_child(n) == if par == Some(n)
                        && m == 0 {
                        Some(c)
                    } else {
                        self.first_child(n)
                    }
                    &&& self.spliced(c, par, list.insert(m, c)).last_child(n) == if par == Some(n)
                        && m == list.len() {
                        Some(c)
                    } else {
                        self.last_child(n)
                    }
                },
    {
        let nl = list.insert(m, c);
        let w = self.spliced(c, par, nl);
        self.lemma_spliced_valid(c, par, list, m);
        list.insert_ensures(m, c);
        assert forall|j: int| 0 <= j < nl.len() implies #[trigger] nl[j] == (if j < m {
            list[j]
        } else if j == m {
            c
        } else {
            list[j - 1]
        }) by {}
        if list.len() > 0 {
            self.lemma_sibling_list_members(par, list, 0);
        }
        assert forall|n: Node| self.has(n) implies {
            &&& w.previous_sibling(n) == if n == c {
                if m > 0 {
                    Some(list[m - 1])
                } else {
                    None
                }
            } else if m < list.len() && n == list[m] {
                Some(c)
            } else {
                self.previous_sibling(n)
            }
            &&& w.next_sibling(n) == if n == c {
                if m < list.len() {
                    Some(list[m])
                } else {
                    None
                }
            } else if m > 0 && n == list[m - 1] {
                Some(c)
            } else {
                self.next_sibling(n)
            }
        } by {
            if n == c {
                assert(w.siblings[c.id()] == nl) by {
                    assert(nl.contains(c));
                }
                w.lemma_position(c, m);
            } else if list.contains(n) {
                let j = list.index_of(n);
                lemma_index_of_contains(list, n);
                self.lemma_sibling_list_members(par, list, j);
                self.lemma_position(n, j);
                let jj = if j < m {
                    j
                } else {
                    j + 1
                };
                assert(nl[jj] == n);
                assert(w.siblings[n.id()] == nl);
                w.lemma_position(n, jj);
                if j + 1 < list.len() {
                    self.lemma_sibling_list_members(par, list, j + 1);
                }
                if j > 0 {
                    self.lemma_sibling_list_members(par, list, j - 1);
                }
                if m < list.len() {
                    self.lemma_sibling_list_members(par, list, m);
                }
                if m > 0 {
                    self.lemma_sibling_list_members(par, list, m - 1);
                }
            } else {
                assert(!nl.contains(n)) by {
                    if nl.contains(n) {
                        let j = nl.index_of(n);
                        lemma_index_of_contains(nl, n);
                        if j < m {
                            assert(list.contains(list[j]));
                        } else if j > m {
                            assert(list.contains(list[j - 1]));
                        }
                    }
                }
                assert(w.siblings[n.id()] == self.siblings[n.id()]);
                if m < list.len() {
                    assert(list.contains(list[m]));
                }
                if m > 0 {
                    assert(list.contains(list[m - 1]));
                }
            }
        }
        assert forall|n: Node| self.has(n) implies {
            &&& w.first_child(n) == if par == Some(n) && m == 0 {
                Some(c)
            } else {
                self.first_child(n)
            }
            &&& w.last_child(n) == if par == Some(n) && m == list.len() {
                Some(c)
            } else {
                self.last_child(n)
            }
        } by {
            if par == Some(n) {
                assert(w.children[n.id()] == nl);
                assert(self.children[n.id()] == list);
            } else {
                assert(w.children[n.id()] == self.children[n.id()]);
            }
        }
    }
}


impl<T> ArenaView<T> {
    /// The last of the ancestors of a node is a root.
    pub proof fn lemma_top_is_root(self, x: int)
        requires
            self.valid(),
            0 <= x < self.len(),
        ensures
            ({
                let a = self.ancestors[x];
                let r = a[a.len() - 1];
                &&& self.has(r)
                &&& self.parent[r.id()] is None
                &&& self.ancestors[r.id()] == seq![r]
            }),
        decreases self.ancestors[x].len(),
    {
        self.lemma_node_facts(x);
        assert(self.ancestors_ok(x));
        if let Some(q) = self.parent[x] {
            self.lemma_node_facts(q.id());
            self.lemma_top_is_root(q.id());
            let aq = self.ancestors[q.id()];
            assert(self.ancestors[x][self.ancestors[x].len() - 1] == aq[aq.len() - 1]);
        }
    }

    /// Detaching `c` leaves the ancestors of every node outside the subtree
    /// of `c` as they were, makes `c` a lone root, and keeps the subtree of
    /// `c` and that of any node outside it as they were.
    pub proof fn lemma_detached_lone(self, c: Node)
        requires
            self.valid(),
            self.has(c),
        ensures
            self.detached(c).parent[c.id()] is None,
            self.detached(c).siblings[c.id()] == seq![c],
            self.detached(c).ancestors[c.id()] == seq![c],
            forall|x: Node|
                #![trigger self.detached(c).ancestors[x.id()]]
                self.has(x) && !self.in_subtree(x, c) ==> self.detached(c).ancestors[x.id()]
                    == self.ancestors[x.id()] && !self.detached(c).in_subtree(x, c),
            forall|x: Node|
                #![trigger self.detached(c).in_subtree(x, c)]
                self.has(x) ==> (self.detached(c).in_subtree(x, c) <==> self.in_subtree(x, c)),
    {
        let w = self.detached(c);
        self.lemma_detached_valid(c);
        self.lemma_node_facts(c.id());
        let ac = self.ancestors[c.id()];
        assert(ends_with(ac, ac)) by {
            assert(ac.subrange(0, ac.len() as int) =~= ac);
        }
        assert(ac.take(1) =~= seq![c]);
        assert forall|x: Node| self.has(x) implies (w.in_subtree(x, c) <==> self.in_subtree(x, c))
            && (!self.in_subtree(x, c) ==> w.ancestors[x.id()] == self.ancestors[x.id()]) by {
            let ax = self.ancestors[x.id()];
            self.lemma_node_facts(x.id());
            self.lemma_top_is_root(x.id());
            if self.in_subtree(x, c) {
                let cut = ax.len() - ac.len();
                assert(ax.subrange(cut, ax.len() as int) == ac);
                assert(ax[cut] == ac[0]);
                let t = ax.take(cut + 1);
                assert(w.ancestors[x.id()] == t);
                assert(t[t.len() - 1] == c);
                assert(t.subrange(t.len() - 1, t.len() as int) =~= seq![c]);
            } else {
                assert(w.ancestors[x.id()] == ax);
                if ends_with(ax, seq![c]) {
                    assert(ax[ax.len() - 1] == ax.subrange(ax.len() - 1, ax.len() as int)[0]);
                    assert(ax[ax.len() - 1] == c);
                    assert(ac == seq![c]);
                }
            }
        }
    }

    /// Before a node goes into a sibling list, it is detached: the detached
    /// state is ready for the splice that each editing operation performs.
    pub proof fn lemma_ready(self, par: Option<Node>, c: Node, list: Seq<Node>, m: int)
        requires
            self.valid(),
            self.has(c),
            self.detached(c).is_sibling_list(par, list),
            !list.contains(c),
            0 <= m <= list.len(),
            par matches Some(p) ==> self.has(p) && !self.in_subtree(p, c),
        ensures
            self.detached(c).valid(),
            self.detached(c).can_splice(c, par, list, m),
    {
        self.lemma_detached_valid(c);
        self.lemma_detached_lone(c);
        if let Some(p) = par {
            assert(self.detached(c).ancestors[p.id()] == self.ancestors[p.id()]);
        }
    }
}


impl<T> ArenaView<T> {
    /// From position `j` on, the ancestor list of `x` is that of the node at `j`.
    pub proof fn lemma_ancestors_suffix(self, x: int, j: int)
        requires
            self.valid(),
            0 <= x < self.len(),
            0 <= j < self.ancestors[x].len(),
        ensures
            self.has(self.ancestors[x][j]),
            self.ancestors[x].skip(j) == self.ancestors[self.ancestors[x][j].id()],
        decreases j,
    {
        self.lemma_node_facts(x);
        assert(self.ancestors_ok(x));
        if j == 0 {
            assert(self.ancestors[x].skip(0) =~= self.ancestors[x]);
        } else {
            let q = self.parent[x].unwrap();
            self.lemma_node_facts(q.id());
            self.lemma_ancestors_suffix(q.id(), j - 1);
            assert(self.ancestors[x].skip(j) =~= self.ancestors[q.id()].skip(j - 1));
        }
    }

    /// `x` lies in the subtree of `c` exactly when `c` is among the ancestors of `x`.
    pub proof fn lemma_in_subtree_contains(self, x: Node, c: Node)
        requires
            self.valid(),
            self.has(x),
            self.has(c),
        ensures
            self.in_subtree(x, c) <==> self.ancestors[x.id()].contains(c),
    {
        let ax = self.ancestors[x.id()];
        let ac = self.ancestors[c.id()];
        self.lemma_node_facts(c.id());
        if self.in_subtree(x, c) {
            let cut = ax.len() - ac.len();
            assert(ax.subrange(cut, ax.len() as int)[0] == ax[cut]);
        }
        if ax.contains(c) {
            let j = ax.index_of(c);
            lemma_index_of_contains(ax, c);
            self.lemma_ancestors_suffix(x.id(), j);
            assert(ax.skip(j) =~= ax.subrange(j, ax.len() as int));
        }
    }

    /// Appending `c` to `p`, where `p` is outside the subtree of `c`, keeps
    /// the state valid and the ancestors of `p` as they were.
    pub proof fn lemma_appended_keeps(self, p: Node, c: Node)
        requires
            self.valid(),
            self.has(p),
            self.has(c),
            !self.in_subtree(p, c),
        ensures
            self.appended(p, c).valid(),
            self.appended(p, c).len() == self.len(),
            self.appended(p, c).ancestors[p.id()] == self.ancestors[p.id()],
    {
        let w = self.detached(c);
        let list = w.children[p.id()];
        self.lemma_detached_valid(c);
        self.lemma_detached_lone(c);
        w.lemma_node_facts(c.id());
        assert(!list.contains(c)) by {
            assert(w.children_ok(p.id()));
            if list.contains(c) {
                let j = list.index_of(c);
                lemma_index_of_contains(list, c);
            }
        }
        self.lemma_ready(Some(p), c, list, list.len() as int);
        w.lemma_spliced_valid(c, Some(p), list, list.len() as int);
        assert(list.insert(list.len() as int, c) =~= list.push(c));
    }
}


/// A list of distinct nodes, all below `n`, holds at most `n` nodes.
pub proof fn lemma_distinct_bounded(s: Seq<Node>, n: nat)
    requires
        s.no_duplicates(),
        forall|i: int| 0 <= i < s.len() ==> #[trigger] s[i].id() < n,
    ensures
        s.len() <= n,
    decreases n,
{
    if n == 0 {
        if s.len() > 0 {
            assert(s[0].id() < 0);
        }
    } else {
        let top = Node { index: (n - 1) as usize };
        if s.contains(top) {
            let j = s.index_of(top);
            lemma_index_of_contains(s, top);
            let t = s.remove(j);
            assert forall|i: int| 0 <= i < t.len() implies #[trigger] t[i].id() < n - 1 by {
                let ii = if i < j {
                    i
                } else {
                    i + 1
                };
                assert(t[i] == s[ii]);
                assert(s[ii] != s[j]);
            }
            assert(t.no_duplicates()) by {
                assert forall|a: int, b: int|
                    0 <= a < t.len() && 0 <= b < t.len() && a != b implies t[a] != t[b] by {
                    let aa = if a < j {
                        a
                    } else {
                        a + 1
                    };
                    let bb = if b < j {
                        b
                    } else {
                        b + 1
                    };
                    assert(t[a] == s[aa]);
                    assert(t[b] == s[bb]);
                }
            }
            lemma_distinct_bounded(t, (n - 1) as nat);
        } else {
            assert forall|i: int| 0 <= i < s.len() implies #[trigger] s[i].id() < n - 1 by {
                assert(s.contains(s[i]));
                if s[i].id() == n - 1 {
                    assert(s[i] == top);
                }
            }
            lemma_distinct_bounded(s, (n - 1) as nat);
        }
    }
}

impl<T> ArenaView<T> {
    /// The ancestors of a node are distinct nodes, so there are at most as
    /// many as there are nodes.
    pub proof fn lemma_depth_bound(self, x: int)
        requires
            self.valid(),
            0 <= x < self.len(),
        ensures
            self.ancestors[x].no_duplicates(),
            1 <= self.ancestors[x].len() <= self.len(),
        decreases self.ancestors[x].len(),
    {
        let a = self.ancestors[x];
        self.lemma_node_facts(x);
        assert(self.ancestors_ok(x));
        if let Some(q) = self.parent[x] {
            self.lemma_node_facts(q.id());
            self.lemma_depth_bound(q.id());
            let aq = self.ancestors[q.id()];
            let nx = Node { index: x as usize };
            assert(!aq.contains(nx)) by {
                if aq.contains(nx) {
                    let j = aq.index_of(nx);
                    lemma_index_of_contains(aq, nx);
                    self.lemma_ancestors_suffix(q.id(), j);
                    assert(aq.skip(j).len() < a.len());
                }
            }
            assert(a.no_duplicates()) by {
                assert forall|i: int, j: int|
                    0 <= i < a.len() && 0 <= j < a.len() && i != j implies a[i] != a[j] by {
                    if i == 0 {
                        assert(aq.contains(a[j]));
                    } else if j == 0 {
                        assert(aq.contains(a[i]));
                    } else {
                        assert(a[i] == aq[i - 1] && a[j] == aq[j - 1]);
                    }
                }
            }
        } else {
            assert(a.no_duplicates()) by {
                assert(a =~= seq![crate::forest::nd(x)]);
            }
        }
        assert forall|i: int| 0 <= i < a.len() implies #[trigger] a[i].id() < self.len() by {
            self.lemma_ancestors_suffix(x, i);
        }
        lemma_distinct_bounded(a, self.len());
    }
}

impl<T> ArenaView<T> {
    /// After `s` is detached, the sibling list of `a` is ready to take `s`
    /// right before or right after `a`.
    pub proof fn lemma_sibling_target(self, a: Node, s: Node)
        requires
            self.valid(),
            self.has(a),
            self.has(s),
            !self.in_subtree(a, s),
        ensures
            ({
                let w = self.detached(s);
                let list = w.siblings[a.id()];
                let k = w.position(a);
                &&& 0 <= k < list.len()
                &&& list[k] == a
                &&& self.detached(s).valid()
                &&& w.can_splice(s, w.parent[a.id()], list, k)
                &&& w.can_splice(s, w.parent[a.id()], list, k + 1)
                &&& w.previous_sibling(a) == (if k > 0 {
                    Some(list[k - 1])
                } else {
                    None
                })
                &&& w.next_sibling(a) == (if k + 1 < list.len() {
                    Some(list[k + 1])
                } else {
                    None
                })
            }),
    {
        let w = self.detached(s);
        let list = w.siblings[a.id()];
        self.lemma_detached_valid(s);
        self.lemma_detached_lone(s);
        w.lemma_node_facts(a.id());
        assert(w.siblings_ok(a.id()));
        lemma_index_of_contains(list, a);
        let k = w.position(a);
        assert(a != s) by {
            self.lemma_node_facts(a.id());
            let aa = self.ancestors[a.id()];
            assert(aa.subrange(0, aa.len() as int) =~= aa);
        }
        assert(!list.contains(s)) by {
            if list.contains(s) {
                let j = list.index_of(s);
                lemma_index_of_contains(list, s);
                assert(list[j].id() < w.len());
                assert(w.siblings[s.id()] == list);
                assert(list[k] == a);
            }
        }
        let par = w.parent[a.id()];
        assert(w.is_sibling_list(par, list)) by {
            if par is None {
                assert(list[0].id() < w.len());
            }
        }
        if let Some(p) = par {
            assert(self.parent[a.id()] == Some(p));
            self.lemma_node_facts(a.id());
            self.lemma_node_facts(p.id());
            assert(self.ancestors_ok(a.id()));
            self.lemma_node_facts(s.id());
            lemma_ends_with_step(self.ancestors[a.id()], self.ancestors[p.id()], self.ancestors[s.id()], a);
            assert(!self.in_subtree(p, s));
        }
        self.lemma_ready(par, s, list, k);
        self.lemma_ready(par, s, list, k + 1);
    }
}

} // verus!
