//! The shape of a binary search tree kept in an arena: nodes are arena indices, each with a
//! left and a right link (-1 for none), and the tree is ordered by the nodes' names.

use vstd::prelude::*;
use crate::text::{lex_less, lemma_lex_asymmetric, lemma_lex_irreflexive, lemma_lex_total, lemma_lex_transitive};

verus! {

/// A tree over arena indices.
pub enum Shape {
    Leaf,
    Node(nat, Box<Shape>, Box<Shape>),
}

/// The names of `s`'s nodes strictly increase from left to right.
pub open spec fn ordered(s: Seq<nat>, keys: Seq<Seq<char>>) -> bool {
    forall|a: int, b: int| 0 <= a < b < s.len() ==> lex_less(#[trigger] keys[s[a] as int], #[trigger] keys[s[b] as int])
}

/// Every index in `s` is below `n`.
pub open spec fn all_below(s: Seq<nat>, n: int) -> bool {
    forall|p: int| 0 <= p < s.len() ==> #[trigger] s[p] < n
}

impl Shape {
    /// The arena index of the root, or -1 for an empty tree.
    pub open spec fn root(self) -> int {
        match self {
            Shape::Leaf => -1,
            Shape::Node(i, _, _) => i as int,
        }
    }

    pub open spec fn height(self) -> nat
        decreases self,
    {
        match self {
            Shape::Leaf => 0,
            Shape::Node(_, l, r) => {
                let hl = l.height();
                let hr = r.height();
                1 + if hl >= hr {
                    hl
                } else {
                    hr
                }
            },
        }
    }

    /// The nodes from left to right.
    pub open spec fn inorder(self) -> Seq<nat>
        decreases self,
    {
        match self {
            Shape::Leaf => Seq::empty(),
            Shape::Node(i, l, r) => l.inorder().push(i) + r.inorder(),
        }
    }

    /// The arena's links agree with the tree: each node links to the roots of its subtrees.
    pub open spec fn linked(self, links: Seq<(int, int)>) -> bool
        decreases self,
    {
        match self {
            Shape::Leaf => true,
            Shape::Node(i, l, r) => {
                &&& i < links.len()
                &&& links[i as int] == (l.root(), r.root())
                &&& l.linked(links)
                &&& r.linked(links)
            },
        }
    }

    /// Where a search for the name `k` ends: the node holding `k`, or -1.
    pub open spec fn find(self, keys: Seq<Seq<char>>, k: Seq<char>) -> int
        decreases self,
    {
        match self {
            Shape::Leaf => -1,
            Shape::Node(i, l, r) => {
                if k == keys[i as int] {
                    i as int
                } else if lex_less(k, keys[i as int]) {
                    l.find(keys, k)
                } else {
                    r.find(keys, k)
                }
            },
        }
    }

    /// The nodes a search for `k` compares with and passes, from the root down.
    pub open spec fn path(self, keys: Seq<Seq<char>>, k: Seq<char>) -> Seq<nat>
        decreases self,
    {
        match self {
            Shape::Leaf => Seq::empty(),
            Shape::Node(i, l, r) => {
                if k == keys[i as int] {
                    Seq::empty()
                } else if lex_less(k, keys[i as int]) {
                    seq![i].add(l.path(keys, k))
                } else {
                    seq![i].add(r.path(keys, k))
                }
            },
        }
    }

    /// The tree with a new leaf `n` for the name `k` where a search for `k` ends.
    pub open spec fn insert_leaf(self, keys: Seq<Seq<char>>, k: Seq<char>, n: nat) -> Shape
        decreases self,
    {
        match self {
            Shape::Leaf => Shape::Node(n, Box::new(Shape::Leaf), Box::new(Shape::Leaf)),
            Shape::Node(i, l, r) => {
                if lex_less(k, keys[i as int]) {
                    Shape::Node(i, Box::new(l.insert_leaf(keys, k, n)), r)
                } else {
                    Shape::Node(i, l, Box::new(r.insert_leaf(keys, k, n)))
                }
            },
        }
    }

    /// The subtree rooted at node `x`, or a leaf if `x` is not in the tree.
    pub open spec fn subtree_at(self, x: nat) -> Shape
        decreases self,
    {
        match self {
            Shape::Leaf => Shape::Leaf,
            Shape::Node(i, l, r) => {
                if i == x {
                    self
                } else if l.inorder().contains(x) {
                    l.subtree_at(x)
                } else {
                    r.subtree_at(x)
                }
            },
        }
    }

    /// The node whose child `x` is, or -1.
    pub open spec fn parent_of(self, x: nat) -> int
        decreases self,
    {
        match self {
            Shape::Leaf => -1,
            Shape::Node(i, l, r) => {
                if i == x {
                    -1
                } else if l.root() == x || r.root() == x {
                    i as int
                } else if l.inorder().contains(x) {
                    l.parent_of(x)
                } else {
                    r.parent_of(x)
                }
            },
        }
    }

    /// Node `x` is passed or reached by a search for `k` from the root.
    pub open spec fn reached(self, keys: Seq<Seq<char>>, k: Seq<char>, x: nat) -> bool
        decreases self,
    {
        match self {
            Shape::Leaf => false,
            Shape::Node(i, l, r) => {
                ||| i == x
                ||| (k != keys[i as int] && lex_less(k, keys[i as int]) && l.reached(keys, k, x))
                ||| (k != keys[i as int] && !lex_less(k, keys[i as int]) && r.reached(keys, k, x))
            },
        }
    }

    /// The tree with the subtree rooted at `x` replaced by `t`.
    pub open spec fn replace_at(self, x: nat, t: Shape) -> Shape
        decreases self,
    {
        match self {
            Shape::Leaf => Shape::Leaf,
            Shape::Node(i, l, r) => {
                if i == x {
                    t
                } else if l.inorder().contains(x) {
                    Shape::Node(i, Box::new(l.replace_at(x, t)), r)
                } else {
                    Shape::Node(i, l, Box::new(r.replace_at(x, t)))
                }
            },
        }
    }
}

/// The nodes of an ordered tree are distinct.
pub proof fn lemma_ordered_distinct(s: Seq<nat>, keys: Seq<Seq<char>>)
    requires
        ordered(s, keys),
    ensures
        s.no_duplicates(),
{
    assert forall|a: int, b: int| 0 <= a < s.len() && 0 <= b < s.len() && a != b implies s[a] != s[b] by {
        if a < b {
            assert(lex_less(keys[s[a] as int], keys[s[b] as int]));
        } else {
            assert(lex_less(keys[s[b] as int], keys[s[a] as int]));
        }
        if s[a] == s[b] {
            lemma_lex_irreflexive(keys[s[a] as int]);
        }
    }
}

/// An ordered tree splits into ordered subtrees, with smaller names left of the root and
/// larger ones right of it.
pub proof fn lemma_ordered_node(i: nat, l: Shape, r: Shape, keys: Seq<Seq<char>>)
    requires
        ordered(Shape::Node(i, Box::new(l), Box::new(r)).inorder(), keys),
    ensures
        ordered(l.inorder(), keys),
        ordered(r.inorder(), keys),
        forall|p: int| 0 <= p < l.inorder().len() ==> lex_less(#[trigger] keys[l.inorder()[p] as int], keys[i as int]),
        forall|p: int| 0 <= p < r.inorder().len() ==> lex_less(keys[i as int], #[trigger] keys[r.inorder()[p] as int]),
{
    let s = Shape::Node(i, Box::new(l), Box::new(r)).inorder();
    let li = l.inorder();
    let ri = r.inorder();
    assert(s =~= li.push(i) + ri);
    assert forall|a: int, b: int| 0 <= a < b < li.len() implies lex_less(#[trigger] keys[li[a] as int], #[trigger] keys[li[b] as int]) by {
        assert(s[a] == li[a] && s[b] == li[b]);
    }
    assert forall|a: int, b: int| 0 <= a < b < ri.len() implies lex_less(#[trigger] keys[ri[a] as int], #[trigger] keys[ri[b] as int]) by {
        assert(s[li.len() + 1 + a] == ri[a] && s[li.len() + 1 + b] == ri[b]);
    }
    assert forall|p: int| 0 <= p < li.len() implies lex_less(#[trigger] keys[li[p] as int], keys[i as int]) by {
        assert(s[p] == li[p] && s[li.len() as int] == i);
    }
    assert forall|p: int| 0 <= p < ri.len() implies lex_less(keys[i as int], #[trigger] keys[ri[p] as int]) by {
        assert(s[li.len() + 1 + p] == ri[p] && s[li.len() as int] == i);
    }
}

/// Whether some node of `s` holds the name `k`.
pub open spec fn holds_key(s: Seq<nat>, keys: Seq<Seq<char>>, k: Seq<char>) -> bool {
    exists|p: int| 0 <= p < s.len() && keys[s[p] as int] == k
}

/// In an ordered tree, the search for `k` ends at the node holding `k` if there is one,
/// and at -1 otherwise.
pub proof fn lemma_find(t: Shape, keys: Seq<Seq<char>>, k: Seq<char>)
    requires
        ordered(t.inorder(), keys),
    ensures
        t.find(keys, k) >= -1,
        t.find(keys, k) == -1 <==> !holds_key(t.inorder(), keys, k),
        t.find(keys, k) != -1 ==> t.inorder().contains(t.find(keys, k) as nat) && keys[t.find(keys, k)] == k,
    decreases t,
{
    match t {
        Shape::Leaf => {},
        Shape::Node(i, l, r) => {
            lemma_ordered_node(i, *l, *r, keys);
            lemma_find(*l, keys, k);
            lemma_find(*r, keys, k);
            let li = l.inorder();
            let ri = r.inorder();
            let s = t.inorder();
            assert(s =~= li.push(i) + ri);
            if k == keys[i as int] {
                assert(s[li.len() as int] == i);
            } else if lex_less(k, keys[i as int]) {
                if holds_key(s, keys, k) {
                    let p = choose|p: int| 0 <= p < s.len() && keys[s[p] as int] == k;
                    if p > li.len() {
                        let q = p - li.len() - 1;
                        assert(s[p] == ri[q]);
                        assert(lex_less(keys[i as int], keys[ri[q] as int]));
                        lemma_lex_asymmetric(k, keys[i as int]);
                    } else if p == li.len() {
                    } else {
                        assert(s[p] == li[p]);
                    }
                }
                if holds_key(li, keys, k) {
                    let p = choose|p: int| 0 <= p < li.len() && keys[li[p] as int] == k;
                    assert(s[p] == li[p]);
                }
                if l.find(keys, k) != -1 {
                    let f = l.find(keys, k) as nat;
                    let p = choose|p: int| 0 <= p < li.len() && li[p] == f;
                    assert(s[p] == li[p]);
                }
            } else {
                lemma_lex_total(k, keys[i as int]);
                if holds_key(s, keys, k) {
                    let p = choose|p: int| 0 <= p < s.len() && keys[s[p] as int] == k;
                    if p < li.len() {
                        assert(s[p] == li[p]);
                        assert(lex_less(keys[li[p] as int], keys[i as int]));
                        lemma_lex_asymmetric(k, keys[i as int]);
                    } else if p == li.len() {
                    } else {
                        assert(s[p] == ri[p - li.len() - 1]);
                    }
                }
                if holds_key(ri, keys, k) {
                    let p = choose|p: int| 0 <= p < ri.len() && keys[ri[p] as int] == k;
                    assert(s[li.len() + 1 + p] == ri[p]);
                }
                if r.find(keys, k) != -1 {
                    let f = r.find(keys, k) as nat;
                    let p = choose|p: int| 0 <= p < ri.len() && ri[p] == f;
                    assert(s[li.len() + 1 + p] == ri[p]);
                }
            }
        },
    }
}

/// The links with the child link to `x` pointing at `y` instead.
pub open spec fn relink(p: (int, int), x: int, y: int) -> (int, int) {
    (if p.0 == x { y } else { p.0 }, if p.1 == x { y } else { p.1 })
}

proof fn lemma_inorder_node(i: nat, l: Shape, r: Shape)
    ensures
        Shape::Node(i, Box::new(l), Box::new(r)).inorder() == l.inorder().push(i) + r.inorder(),
        forall|y: nat| #[trigger] Shape::Node(i, Box::new(l), Box::new(r)).inorder().contains(y) <==> (y == i || l.inorder().contains(y) || r.inorder().contains(y)),
{
    let s = Shape::Node(i, Box::new(l), Box::new(r)).inorder();
    let li = l.inorder();
    let ri = r.inorder();
    assert forall|y: nat| #[trigger] s.contains(y) <==> (y == i || li.contains(y) || ri.contains(y)) by {
        if s.contains(y) {
            let p = choose|p: int| 0 <= p < s.len() && s[p] == y;
            if p < li.len() {
                assert(li[p] == y);
            } else if p > li.len() {
                assert(ri[p - li.len() - 1] == y);
            }
        }
        if li.contains(y) {
            let p = choose|p: int| 0 <= p < li.len() && li[p] == y;
            assert(s[p] == y);
        }
        if ri.contains(y) {
            let p = choose|p: int| 0 <= p < ri.len() && ri[p] == y;
            assert(s[li.len() + 1 + p] == y);
        }
        if y == i {
            assert(s[li.len() as int] == y);
        }
    }
}

/// A node's nodes: itself and those of its two subtrees.
pub proof fn lemma_node_contains(t: Shape)
    ensures
        t matches Shape::Node(i, l, r) ==> (forall|y: nat| #[trigger] t.inorder().contains(y) <==> (y == i || l.inorder().contains(y) || r.inorder().contains(y))),
        t matches Shape::Node(i, l, r) ==> t.inorder() == l.inorder().push(i) + r.inorder(),
        t is Leaf ==> t.inorder() == Seq::<nat>::empty(),
{
    match t {
        Shape::Leaf => {},
        Shape::Node(i, l, r) => {
            lemma_inorder_node(i, *l, *r);
        },
    }
}

/// A node of a tree whose nodes are distinct is in exactly one of the root, the left
/// subtree and the right subtree.
pub proof fn lemma_distinct_node(i: nat, l: Shape, r: Shape)
    requires
        Shape::Node(i, Box::new(l), Box::new(r)).inorder().no_duplicates(),
    ensures
        l.inorder().no_duplicates(),
        r.inorder().no_duplicates(),
        !l.inorder().contains(i),
        !r.inorder().contains(i),
        forall|y: nat| l.inorder().contains(y) ==> !r.inorder().contains(y),
{
    lemma_inorder_node(i, l, r);
    let s = Shape::Node(i, Box::new(l), Box::new(r)).inorder();
    let li = l.inorder();
    let ri = r.inorder();
    assert forall|a: int, b: int| 0 <= a < b < li.len() implies li[a] != li[b] by {
        assert(s[a] == li[a] && s[b] == li[b]);
    }
    assert forall|a: int, b: int| 0 <= a < b < ri.len() implies ri[a] != ri[b] by {
        assert(s[li.len() + 1 + a] == ri[a] && s[li.len() + 1 + b] == ri[b]);
    }
    if li.contains(i) {
        let p = choose|p: int| 0 <= p < li.len() && li[p] == i;
        assert(s[p] == i && s[li.len() as int] == i);
    }
    if ri.contains(i) {
        let p = choose|p: int| 0 <= p < ri.len() && ri[p] == i;
        assert(s[li.len() + 1 + p] == i && s[li.len() as int] == i);
    }
    assert forall|y: nat| li.contains(y) implies !ri.contains(y) by {
        let p = choose|p: int| 0 <= p < li.len() && li[p] == y;
        if ri.contains(y) {
            let q = choose|q: int| 0 <= q < ri.len() && ri[q] == y;
            assert(s[p] == y && s[li.len() + 1 + q] == y);
        }
    }
}

/// The links agree at the nodes `s`.
pub open spec fn agree_on(s: Seq<nat>, links: Seq<(int, int)>, links2: Seq<(int, int)>) -> bool {
    forall|p: int| 0 <= p < s.len() ==> #[trigger] s[p] < links2.len() && links2[s[p] as int] == links[s[p] as int]
}

/// Links that agree on a tree's nodes keep it linked.
pub proof fn lemma_linked_frame(t: Shape, links: Seq<(int, int)>, links2: Seq<(int, int)>)
    requires
        t.linked(links),
        agree_on(t.inorder(), links, links2),
    ensures
        t.linked(links2),
    decreases t,
{
    match t {
        Shape::Leaf => {},
        Shape::Node(i, l, r) => {
            lemma_node_contains(t);
            let s = t.inorder();
            let li = l.inorder();
            let ri = r.inorder();
            assert forall|p: int| 0 <= p < li.len() implies #[trigger] li[p] < links2.len() && links2[li[p] as int] == links[li[p] as int] by {
                assert(s[p] == li[p]);
            }
            assert forall|p: int| 0 <= p < ri.len() implies #[trigger] ri[p] < links2.len() && links2[ri[p] as int] == links[ri[p] as int] by {
                assert(s[li.len() + 1 + p] == ri[p]);
            }
            assert(s[li.len() as int] == i);
            lemma_linked_frame(*l, links, links2);
            lemma_linked_frame(*r, links, links2);
        },
    }
}

/// Facts about the subtree at a node `x` of a tree with distinct nodes.
pub proof fn lemma_subtree_at(t: Shape, x: nat)
    requires
        t.inorder().no_duplicates(),
        t.inorder().contains(x),
    ensures
        t.subtree_at(x).root() == x,
        t.replace_at(x, t.subtree_at(x)) == t,
        forall|y: nat| t.subtree_at(x).inorder().contains(y) ==> t.inorder().contains(y),
        t.subtree_at(x).inorder().no_duplicates(),
        t.subtree_at(x).height() <= t.height(),
    decreases t,
{
    match t {
        Shape::Leaf => {},
        Shape::Node(i, l, r) => {
            lemma_inorder_node(i, *l, *r);
            lemma_distinct_node(i, *l, *r);
            if i == x {
            } else if l.inorder().contains(x) {
                lemma_subtree_at(*l, x);
            } else {
                lemma_subtree_at(*r, x);
            }
        },
    }
}

/// The subtree at node `x`, one level down: the subtrees of `x`'s children.
pub proof fn lemma_subtree_children(t: Shape, x: nat)
    requires
        t.inorder().no_duplicates(),
        t.inorder().contains(x),
    ensures
        t.subtree_at(x) matches Shape::Node(_, l, r) && (l.root() != -1 ==> t.inorder().contains(
            l.root() as nat,
        ) && t.subtree_at(l.root() as nat) == *l && t.parent_of(l.root() as nat) == x) && (
        r.root() != -1 ==> t.inorder().contains(r.root() as nat) && t.subtree_at(r.root() as nat)
            == *r && t.parent_of(r.root() as nat) == x),
    decreases t,
{
    match t {
        Shape::Leaf => {},
        Shape::Node(i, l, r) => {
            lemma_inorder_node(i, *l, *r);
            lemma_distinct_node(i, *l, *r);
            lemma_root_in(*l);
            lemma_root_in(*r);
            if i == x {
                if r.root() != -1 {
                    assert(!l.inorder().contains(r.root() as nat));
                    assert(r.subtree_at(r.root() as nat) == *r);
                    assert(i != r.root());
                    assert(t.subtree_at(r.root() as nat) == *r);
                }
                if l.root() != -1 {
                    assert(l.subtree_at(l.root() as nat) == *l);
                    assert(t.subtree_at(l.root() as nat) == *l);
                }
            } else if l.inorder().contains(x) {
                lemma_subtree_children(*l, x);
                lemma_subtree_at(*l, x);
                let sub = l.subtree_at(x);
                match sub {
                    Shape::Node(_, sl, sr) => {
                        lemma_root_in(*r);
                        if sl.root() != -1 {
                            assert(l.root() != sl.root()) by {
                                lemma_parent_not_root(*l, sl.root() as nat);
                            }
                            assert(r.root() != sl.root());
                        }
                        if sr.root() != -1 {
                            assert(l.root() != sr.root()) by {
                                lemma_parent_not_root(*l, sr.root() as nat);
                            }
                            assert(r.root() != sr.root());
                        }
                    },
                    _ => {},
                }
                if r.root() != -1 {
                    lemma_root_in(*r);
                }
            } else {
                lemma_subtree_children(*r, x);
                lemma_subtree_at(*r, x);
                let sub = r.subtree_at(x);
                match sub {
                    Shape::Node(_, sl, sr) => {
                        if sl.root() != -1 {
                            assert(r.root() != sl.root()) by {
                                lemma_parent_not_root(*r, sl.root() as nat);
                            }
                            if l.root() == sl.root() {
                                lemma_root_in(*l);
                            }
                        }
                        if sr.root() != -1 {
                            assert(r.root() != sr.root()) by {
                                lemma_parent_not_root(*r, sr.root() as nat);
                            }
                            if l.root() == sr.root() {
                                lemma_root_in(*l);
                            }
                        }
                    },
                    _ => {},
                }
            }
        },
    }
}

/// A nonempty tree holds its root.
pub proof fn lemma_root_in(t: Shape)
    ensures
        t.root() != -1 ==> t.inorder().contains(t.root() as nat),
{
    match t {
        Shape::Leaf => {},
        Shape::Node(i, l, r) => {
            lemma_inorder_node(i, *l, *r);
        },
    }
}

/// A child of a node below the root of a tree with distinct nodes is not the root.
proof fn lemma_parent_not_root(t: Shape, y: nat)
    requires
        t.inorder().no_duplicates(),
        t.inorder().contains(y),
        t.parent_of(y) != -1,
    ensures
        t.root() != y,
{
}

/// Replacing a subtree changes the root only when the subtree is the whole tree.
pub proof fn lemma_replace_root(t: Shape, x: nat, tn: Shape)
    ensures
        t.root() != -1 ==> t.replace_at(x, tn).root() == if t.root() == x {
            tn.root()
        } else {
            t.root()
        },
{
}

/// The parent of a node other than the root is a node of the tree, on the same side.
pub proof fn lemma_parent_in(t: Shape, x: nat)
    requires
        t.inorder().no_duplicates(),
        t.inorder().contains(x),
        t.root() != x,
    ensures
        t.parent_of(x) != -1,
        t.inorder().contains(t.parent_of(x) as nat),
        !t.subtree_at(x).inorder().contains(t.parent_of(x) as nat),
    decreases t,
{
    match t {
        Shape::Leaf => {},
        Shape::Node(i, l, r) => {
            lemma_node_contains(t);
            lemma_distinct_node(i, *l, *r);
            lemma_root_in(*l);
            lemma_root_in(*r);
            if l.root() == x || r.root() == x {
                if l.root() == x {
                    lemma_subtree_at(*l, x);
                    assert(t.subtree_at(x) == *l) by {
                        assert(l.subtree_at(x) == *l);
                    }
                } else {
                    lemma_subtree_at(*r, x);
                    assert(!l.inorder().contains(x));
                    assert(t.subtree_at(x) == *r);
                }
            } else if l.inorder().contains(x) {
                lemma_parent_in(*l, x);
            } else {
                lemma_parent_in(*r, x);
            }
        },
    }
}

/// The nodes of `s` outside the subtree `sub`, other than `parent`, keep their links.
pub open spec fn agree_outside(s: Seq<nat>, sub: Seq<nat>, parent: int, links: Seq<(int, int)>, links2: Seq<(int, int)>) -> bool {
    forall|p: int|
        0 <= p < s.len() && !sub.contains(#[trigger] s[p]) && s[p] != parent ==> s[p] < links2.len()
            && links2[s[p] as int] == links[s[p] as int]
}

/// Replacing the subtree at `x` by a linked tree `tn`, with the parent's link redirected to
/// `tn`'s root and other links outside the subtree unchanged, leaves the whole tree linked.
#[verifier::rlimit(80)]
pub proof fn lemma_replace_linked(t: Shape, x: nat, tn: Shape, links: Seq<(int, int)>, links2: Seq<(int, int)>)
    requires
        t.linked(links),
        t.inorder().no_duplicates(),
        t.inorder().contains(x),
        tn.linked(links2),
        agree_outside(t.inorder(), t.subtree_at(x).inorder(), t.parent_of(x), links, links2),
        t.parent_of(x) != -1 ==> t.parent_of(x) < links2.len() && links2[t.parent_of(x)] == relink(
            links[t.parent_of(x)],
            x as int,
            tn.root(),
        ),
    ensures
        t.replace_at(x, tn).linked(links2),
    decreases t,
{
    lemma_node_contains(t);
    match t {
        Shape::Leaf => {},
        Shape::Node(i, l, r) => {
            lemma_node_contains(t);
            lemma_distinct_node(i, *l, *r);
            lemma_root_in(*l);
            lemma_root_in(*r);
            let s = t.inorder();
            let li = l.inorder();
            let ri = r.inorder();
            if i == x {
            } else if li.contains(x) {
                lemma_subtree_at(*l, x);
                let sub = t.subtree_at(x).inorder();
                assert(t.subtree_at(x) == l.subtree_at(x));
                // the right subtree keeps its links
                assert forall|p: int| 0 <= p < ri.len() implies #[trigger] ri[p] < links2.len() && links2[ri[p] as int] == links[ri[p] as int] by {
                    assert(s[li.len() + 1 + p] == ri[p]);
                    assert(!li.contains(ri[p]));
                    if sub.contains(ri[p]) {
                        assert(li.contains(ri[p]));
                    }
                    if l.root() == x {
                    } else {
                        lemma_parent_in(*l, x);
                    }
                }
                lemma_linked_frame(*r, links, links2);
                if l.root() == x {
                    assert(t.parent_of(x) == i);
                    assert(r.root() != x as int);
                } else {
                    lemma_parent_in(*l, x);
                    assert(t.parent_of(x) == l.parent_of(x));
                    assert(s[li.len() as int] == i);
                    assert(!sub.contains(i));
                    assert(links2[i as int] == links[i as int]);
                    assert forall|p: int|
                        0 <= p < li.len() && !l.subtree_at(x).inorder().contains(#[trigger] li[p]) && li[p] != l.parent_of(x)
                        implies li[p] < links2.len() && links2[li[p] as int] == links[li[p] as int] by {
                        assert(s[p] == li[p]);
                    }
                    lemma_replace_linked(*l, x, tn, links, links2);
                }
            } else {
                assert(ri.contains(x));
                lemma_subtree_at(*r, x);
                let sub = t.subtree_at(x).inorder();
                assert(t.subtree_at(x) == r.subtree_at(x));
                assert forall|p: int| 0 <= p < li.len() implies #[trigger] li[p] < links2.len() && links2[li[p] as int] == links[li[p] as int] by {
                    assert(s[p] == li[p]);
                    if sub.contains(li[p]) {
                        assert(ri.contains(li[p]));
                    }
                    if r.root() == x {
                    } else {
                        lemma_parent_in(*r, x);
                    }
                }
                lemma_linked_frame(*l, links, links2);
                if r.root() == x {
                    assert(t.parent_of(x) == i);
                    assert(l.root() != x as int);
                } else {
                    lemma_parent_in(*r, x);
                    assert(l.root() != x as int);
                    assert(t.parent_of(x) == r.parent_of(x));
                    assert(s[li.len() as int] == i);
                    assert(!sub.contains(i));
                    assert(links2[i as int] == links[i as int]);
                    assert forall|p: int|
                        0 <= p < ri.len() && !r.subtree_at(x).inorder().contains(#[trigger] ri[p]) && ri[p] != r.parent_of(x)
                        implies ri[p] < links2.len() && links2[ri[p] as int] == links[ri[p] as int] by {
                        assert(s[li.len() + 1 + p] == ri[p]);
                    }
                    lemma_replace_linked(*r, x, tn, links, links2);
                }
            }
        },
    }
}

/// Replacing a subtree by one with the same nodes in the same order keeps the tree's order.
pub proof fn lemma_replace_inorder(t: Shape, x: nat, t1: Shape, t2: Shape)
    requires
        t1.inorder() == t2.inorder(),
    ensures
        t.replace_at(x, t1).inorder() == t.replace_at(x, t2).inorder(),
    decreases t,
{
    match t {
        Shape::Leaf => {},
        Shape::Node(i, l, r) => {
            lemma_replace_inorder(*l, x, t1, t2);
            lemma_replace_inorder(*r, x, t1, t2);
            lemma_node_contains(t.replace_at(x, t1));
            lemma_node_contains(t.replace_at(x, t2));
            if i == x {
            } else if l.inorder().contains(x) {
                lemma_node_contains(Shape::Node(i, Box::new(l.replace_at(x, t1)), r));
                lemma_node_contains(Shape::Node(i, Box::new(l.replace_at(x, t2)), r));
            } else {
                lemma_node_contains(Shape::Node(i, l, Box::new(r.replace_at(x, t1))));
                lemma_node_contains(Shape::Node(i, l, Box::new(r.replace_at(x, t2))));
            }
        },
    }
}

/// A node reached by a search is in the tree.
pub proof fn lemma_reached_in(t: Shape, keys: Seq<Seq<char>>, k: Seq<char>, x: nat)
    requires
        t.reached(keys, k, x),
    ensures
        t.inorder().contains(x),
    decreases t,
{
    match t {
        Shape::Leaf => {},
        Shape::Node(i, l, r) => {
            lemma_node_contains(t);
            if i != x {
                if l.reached(keys, k, x) && k != keys[i as int] && lex_less(k, keys[i as int]) {
                    lemma_reached_in(*l, keys, k, x);
                } else {
                    lemma_reached_in(*r, keys, k, x);
                }
            }
        },
    }
}

/// From a node reached by a search for `k` that does not hold `k`, the search goes on to
/// the child on `k`'s side; and where it ends is where it ends from that node.
pub proof fn lemma_reached_step(t: Shape, keys: Seq<Seq<char>>, k: Seq<char>, x: nat)
    requires
        t.reached(keys, k, x),
        t.inorder().no_duplicates(),
    ensures
        t.find(keys, k) == t.subtree_at(x).find(keys, k),
        t.subtree_at(x) matches Shape::Node(_, l, r) && (k != keys[x as int] && lex_less(k, keys[x as int]) && l.root() != -1 ==> t.reached(keys, k, l.root() as nat))
            && (k != keys[x as int] && !lex_less(k, keys[x as int]) && r.root() != -1 ==> t.reached(keys, k, r.root() as nat)),
    decreases t,
{
    lemma_reached_in(t, keys, k, x);
    lemma_node_contains(t);
    match t {
        Shape::Leaf => {
            assert(!t.reached(keys, k, x));
        },
        Shape::Node(i, l, r) => {
            lemma_node_contains(t);
            lemma_distinct_node(i, *l, *r);
            if i == x {
                if l.root() != -1 {
                    assert(l.reached(keys, k, l.root() as nat));
                }
                if r.root() != -1 {
                    assert(r.reached(keys, k, r.root() as nat));
                }
            } else if k != keys[i as int] && lex_less(k, keys[i as int]) && l.reached(keys, k, x) {
                lemma_reached_in(*l, keys, k, x);
                lemma_reached_step(*l, keys, k, x);
            } else {
                lemma_reached_in(*r, keys, k, x);
                assert(!l.inorder().contains(x));
                lemma_reached_step(*r, keys, k, x);
            }
        },
    }
}

/// Inserting a leaf below a node reached by the search is inserting it in the whole tree.
pub proof fn lemma_reached_insert(t: Shape, keys: Seq<Seq<char>>, k: Seq<char>, n: nat, x: nat)
    requires
        t.reached(keys, k, x),
        t.inorder().no_duplicates(),
    ensures
        t.replace_at(x, t.subtree_at(x).insert_leaf(keys, k, n)) == t.insert_leaf(keys, k, n)
            || t.find(keys, k) != -1,
    decreases t,
{
    match t {
        Shape::Leaf => {},
        Shape::Node(i, l, r) => {
            lemma_node_contains(t);
            lemma_distinct_node(i, *l, *r);
            if i == x {
            } else if k == keys[i as int] {
            } else if lex_less(k, keys[i as int]) {
                lemma_reached_in(*l, keys, k, x);
                lemma_reached_insert(*l, keys, k, n, x);
            } else {
                lemma_reached_in(*r, keys, k, x);
                assert(!l.inorder().contains(x));
                lemma_reached_insert(*r, keys, k, n, x);
            }
        },
    }
}

/// Names that agree on the nodes of an ordered sequence keep it ordered.
pub proof fn lemma_ordered_frame(s: Seq<nat>, keys: Seq<Seq<char>>, keys2: Seq<Seq<char>>)
    requires
        ordered(s, keys),
        forall|p: int| 0 <= p < s.len() ==> #[trigger] keys2[s[p] as int] == keys[s[p] as int],
    ensures
        ordered(s, keys2),
{
    assert forall|a: int, b: int| 0 <= a < b < s.len() implies lex_less(#[trigger] keys2[s[a] as int], #[trigger] keys2[s[b] as int]) by {
        assert(keys2[s[a] as int] == keys[s[a] as int]);
        assert(keys2[s[b] as int] == keys[s[b] as int]);
    }
}

/// Names that agree on a tree's nodes give the same searches.
pub proof fn lemma_find_frame(t: Shape, keys: Seq<Seq<char>>, keys2: Seq<Seq<char>>, k: Seq<char>)
    requires
        forall|p: int| 0 <= p < t.inorder().len() ==> #[trigger] keys2[t.inorder()[p] as int] == keys[t.inorder()[p] as int],
    ensures
        t.find(keys2, k) == t.find(keys, k),
    decreases t,
{
    match t {
        Shape::Leaf => {},
        Shape::Node(i, l, r) => {
            lemma_node_contains(t);
            let s = t.inorder();
            let li = l.inorder();
            let ri = r.inorder();
            assert(s[li.len() as int] == i);
            assert forall|p: int| 0 <= p < li.len() implies #[trigger] keys2[li[p] as int] == keys[li[p] as int] by {
                assert(s[p] == li[p]);
            }
            assert forall|p: int| 0 <= p < ri.len() implies #[trigger] keys2[ri[p] as int] == keys[ri[p] as int] by {
                assert(s[li.len() + 1 + p] == ri[p]);
            }
            lemma_find_frame(*l, keys, keys2, k);
            lemma_find_frame(*r, keys, keys2, k);
        },
    }
}

/// Inserting a leaf for a name the ordered tree lacks keeps it ordered, with the new node
/// added to its nodes.
#[verifier::rlimit(80)]
pub proof fn lemma_insert_leaf_ordered(t: Shape, keys: Seq<Seq<char>>, k: Seq<char>, n: nat)
    requires
        ordered(t.inorder(), keys),
        !holds_key(t.inorder(), keys, k),
        n < keys.len(),
        keys[n as int] == k,
        !t.inorder().contains(n),
    ensures
        ordered(t.insert_leaf(keys, k, n).inorder(), keys),
        forall|y: nat| #[trigger] t.insert_leaf(keys, k, n).inorder().contains(y) <==> (y == n || t.inorder().contains(y)),
        t.insert_leaf(keys, k, n).inorder().len() == t.inorder().len() + 1,
    decreases t,
{
    let t2 = t.insert_leaf(keys, k, n);
    lemma_node_contains(t2);
    match t {
        Shape::Leaf => {
            lemma_node_contains(Shape::Leaf);
        },
        Shape::Node(i, l, r) => {
            lemma_node_contains(t);
            lemma_ordered_node(i, *l, *r, keys);
            let s = t.inorder();
            let li = l.inorder();
            let ri = r.inorder();
            assert(s[li.len() as int] == i);
            assert(k != keys[i as int]);
            assert(!holds_key(li, keys, k)) by {
                if holds_key(li, keys, k) {
                    let p = choose|p: int| 0 <= p < li.len() && keys[li[p] as int] == k;
                    assert(s[p] == li[p]);
                }
            }
            assert(!holds_key(ri, keys, k)) by {
                if holds_key(ri, keys, k) {
                    let p = choose|p: int| 0 <= p < ri.len() && keys[ri[p] as int] == k;
                    assert(s[li.len() + 1 + p] == ri[p]);
                }
            }
            if lex_less(k, keys[i as int]) {
                lemma_insert_leaf_ordered(*l, keys, k, n);
                let l2 = l.insert_leaf(keys, k, n);
                let l2i = l2.inorder();
                let s2 = t2.inorder();
                assert(s2 =~= l2i.push(i) + ri);
                assert forall|a: int, b: int| 0 <= a < b < s2.len() implies lex_less(#[trigger] keys[s2[a] as int], #[trigger] keys[s2[b] as int]) by {
                    // every name left of the root is below it, every name right above it
                    if b < l2i.len() {
                        assert(s2[a] == l2i[a] && s2[b] == l2i[b]);
                    } else if a > l2i.len() {
                        assert(s2[a] == ri[a - l2i.len() - 1] && s2[b] == ri[b - l2i.len() - 1]);
                    } else {
                        assert forall|q: int| 0 <= q < l2i.len() implies lex_less(#[trigger] keys[l2i[q] as int], keys[i as int]) by {
                            assert(l2i.contains(l2i[q]));
                            if l2i[q] == n {
                            } else {
                                assert(li.contains(l2i[q]));
                                let p = choose|p: int| 0 <= p < li.len() && li[p] == l2i[q];
                            }
                        }
                        if a < l2i.len() {
                            assert(s2[a] == l2i[a]);
                            if b == l2i.len() {
                            } else {
                                assert(s2[b] == ri[b - l2i.len() - 1]);
                                lemma_lex_transitive(keys[s2[a] as int], keys[i as int], keys[s2[b] as int]);
                            }
                        } else {
                            assert(s2[b] == ri[b - l2i.len() - 1]);
                        }
                    }
                }
            } else {
                lemma_lex_total(k, keys[i as int]);
                lemma_insert_leaf_ordered(*r, keys, k, n);
                let r2 = r.insert_leaf(keys, k, n);
                let r2i = r2.inorder();
                let s2 = t2.inorder();
                assert(s2 =~= li.push(i) + r2i);
                assert forall|a: int, b: int| 0 <= a < b < s2.len() implies lex_less(#[trigger] keys[s2[a] as int], #[trigger] keys[s2[b] as int]) by {
                    if b < li.len() {
                        assert(s2[a] == li[a] && s2[b] == li[b]);
                    } else if a > li.len() {
                        assert(s2[a] == r2i[a - li.len() - 1] && s2[b] == r2i[b - li.len() - 1]);
                    } else {
                        assert forall|q: int| 0 <= q < r2i.len() implies lex_less(keys[i as int], #[trigger] keys[r2i[q] as int]) by {
                            assert(r2i.contains(r2i[q]));
                            if r2i[q] == n {
                            } else {
                                assert(ri.contains(r2i[q]));
                                let p = choose|p: int| 0 <= p < ri.len() && ri[p] == r2i[q];
                            }
                        }
                        if a < li.len() {
                            assert(s2[a] == li[a]);
                            if b == li.len() {
                            } else {
                                assert(s2[b] == r2i[b - li.len() - 1]);
                                lemma_lex_transitive(keys[s2[a] as int], keys[i as int], keys[s2[b] as int]);
                            }
                        } else {
                            assert(s2[b] == r2i[b - li.len() - 1]);
                        }
                    }
                }
            }
        },
    }
}

/// Every node's balance is the height of its right subtree less that of its left one, and
/// lies in -1..=1.
pub open spec fn avl_ok(t: Shape, bals: Seq<int>) -> bool
    decreases t,
{
    match t {
        Shape::Leaf => true,
        Shape::Node(i, l, r) => {
            &&& i < bals.len()
            &&& bals[i as int] == r.height() - l.height()
            &&& -1 <= bals[i as int] <= 1
            &&& avl_ok(*l, bals)
            &&& avl_ok(*r, bals)
        },
    }
}

/// Every node's two subtrees differ in height by at most one.
pub open spec fn height_balanced(t: Shape) -> bool
    decreases t,
{
    match t {
        Shape::Leaf => true,
        Shape::Node(_, l, r) => {
            &&& -1 <= r.height() - l.height() <= 1
            &&& height_balanced(*l)
            &&& height_balanced(*r)
        },
    }
}

/// A tree whose balances are right is height-balanced.
pub proof fn lemma_avl_ok_balanced(t: Shape, bals: Seq<int>)
    requires
        avl_ok(t, bals),
    ensures
        height_balanced(t),
    decreases t,
{
    match t {
        Shape::Leaf => {},
        Shape::Node(_, l, r) => {
            lemma_avl_ok_balanced(*l, bals);
            lemma_avl_ok_balanced(*r, bals);
        },
    }
}

/// Balances that agree on a tree's nodes keep it balanced.
pub proof fn lemma_avl_frame(t: Shape, bals: Seq<int>, bals2: Seq<int>)
    requires
        avl_ok(t, bals),
        forall|p: int| 0 <= p < t.inorder().len() ==> #[trigger] t.inorder()[p] < bals2.len() && bals2[t.inorder()[p] as int] == bals[t.inorder()[p] as int],
    ensures
        avl_ok(t, bals2),
    decreases t,
{
    match t {
        Shape::Leaf => {},
        Shape::Node(i, l, r) => {
            lemma_node_contains(t);
            let s = t.inorder();
            let li = l.inorder();
            let ri = r.inorder();
            assert(s[li.len() as int] == i);
            assert forall|p: int| 0 <= p < li.len() implies #[trigger] li[p] < bals2.len() && bals2[li[p] as int] == bals[li[p] as int] by {
                assert(s[p] == li[p]);
            }
            assert forall|p: int| 0 <= p < ri.len() implies #[trigger] ri[p] < bals2.len() && bals2[ri[p] as int] == bals[ri[p] as int] by {
                assert(s[li.len() + 1 + p] == ri[p]);
            }
            lemma_avl_frame(*l, bals, bals2);
            lemma_avl_frame(*r, bals, bals2);
        },
    }
}

/// The subtree at a node of a linked tree is linked.
pub proof fn lemma_subtree_linked(t: Shape, x: nat, links: Seq<(int, int)>)
    requires
        t.linked(links),
    ensures
        t.subtree_at(x).linked(links),
    decreases t,
{
    match t {
        Shape::Leaf => {},
        Shape::Node(i, l, r) => {
            lemma_subtree_linked(*l, x, links);
            lemma_subtree_linked(*r, x, links);
        },
    }
}

/// The nodes of a linked tree all have links.
pub proof fn lemma_linked_bound(t: Shape, links: Seq<(int, int)>)
    requires
        t.linked(links),
    ensures
        forall|p: int| 0 <= p < t.inorder().len() ==> #[trigger] t.inorder()[p] < links.len(),
    decreases t,
{
    match t {
        Shape::Leaf => {},
        Shape::Node(i, l, r) => {
            lemma_linked_bound(*l, links);
            lemma_linked_bound(*r, links);
            lemma_node_contains(t);
            let s = t.inorder();
            let li = l.inorder();
            assert forall|p: int| 0 <= p < s.len() implies #[trigger] s[p] < links.len() by {
                if p < li.len() {
                    assert(s[p] == li[p]);
                } else if p > li.len() {
                    assert(s[p] == r.inorder()[p - li.len() - 1]);
                }
            }
        },
    }
}

/// The nodes of a tree with a subtree replaced include the new subtree's nodes.
pub proof fn lemma_replace_contains(t: Shape, x: nat, tn: Shape)
    requires
        t.inorder().contains(x),
    ensures
        forall|y: nat| tn.inorder().contains(y) ==> #[trigger] t.replace_at(x, tn).inorder().contains(y),
    decreases t,
{
    lemma_node_contains(t);
    match t {
        Shape::Leaf => {},
        Shape::Node(i, l, r) => {
            if i == x {
            } else if l.inorder().contains(x) {
                lemma_replace_contains(*l, x, tn);
                lemma_node_contains(t.replace_at(x, tn));
            } else {
                lemma_replace_contains(*r, x, tn);
                lemma_node_contains(t.replace_at(x, tn));
            }
        },
    }
}

/// In a tree with distinct nodes, the subtree at the root of a subtree put in is that subtree.
pub proof fn lemma_replace_subtree(t: Shape, x: nat, tn: Shape)
    requires
        t.inorder().contains(x),
        tn is Node,
        t.replace_at(x, tn).inorder().no_duplicates(),
    ensures
        t.replace_at(x, tn).subtree_at(tn.root() as nat) == tn,
    decreases t,
{
    lemma_node_contains(t);
    lemma_root_in(tn);
    match t {
        Shape::Leaf => {},
        Shape::Node(i, l, r) => {
            let res = t.replace_at(x, tn);
            if i == x {
            } else if l.inorder().contains(x) {
                let l2 = l.replace_at(x, tn);
                lemma_distinct_node(i, l2, *r);
                lemma_replace_contains(*l, x, tn);
                lemma_replace_subtree(*l, x, tn);
                assert(l2.inorder().contains(tn.root() as nat));
            } else {
                let r2 = r.replace_at(x, tn);
                lemma_distinct_node(i, *l, r2);
                lemma_replace_contains(*r, x, tn);
                lemma_replace_subtree(*r, x, tn);
                assert(r2.inorder().contains(tn.root() as nat));
                assert(!l.inorder().contains(tn.root() as nat));
            }
        },
    }
}

/// Replacing the subtree at a child of `x` is replacing the subtree at `x` by `x` with that
/// child's subtree replaced.
pub proof fn lemma_replace_nested(t: Shape, x: nat, left: bool, tn: Shape)
    requires
        t.inorder().no_duplicates(),
        t.inorder().contains(x),
        t.subtree_at(x) matches Shape::Node(_, l, r) && (if left { l.root() } else { r.root() }) != -1,
    ensures
        t.subtree_at(x) matches Shape::Node(j, l, r) && t.replace_at(
            (if left { l.root() } else { r.root() }) as nat,
            tn,
        ) == t.replace_at(
            x,
            if left {
                Shape::Node(j, Box::new(tn), r)
            } else {
                Shape::Node(j, l, Box::new(tn))
            },
        ),
    decreases t,
{
    lemma_node_contains(t);
    lemma_subtree_at(t, x);
    match t {
        Shape::Leaf => {},
        Shape::Node(i, l, r) => {
            lemma_distinct_node(i, *l, *r);
            lemma_root_in(*l);
            lemma_root_in(*r);
            if i == x {
                if !left {
                    assert(!l.inorder().contains(r.root() as nat));
                    assert(r.replace_at(r.root() as nat, tn) == tn);
                    assert(t.replace_at(r.root() as nat, tn) == Shape::Node(i, l, Box::new(tn)));
                } else {
                    assert(l.replace_at(l.root() as nat, tn) == tn);
                    assert(i != l.root());
                    assert(t.replace_at(l.root() as nat, tn) == Shape::Node(i, Box::new(tn), r));
                }
            } else if l.inorder().contains(x) {
                lemma_subtree_children(*l, x);
                lemma_replace_nested(*l, x, left, tn);
                let sub = l.subtree_at(x);
                match sub {
                    Shape::Node(_, sl, sr) => {
                        let cc = (if left { sl.root() } else { sr.root() }) as nat;
                        assert(l.inorder().contains(cc));
                        assert(cc != i);
                    },
                    Shape::Leaf => {},
                }
            } else {
                lemma_subtree_children(*r, x);
                lemma_replace_nested(*r, x, left, tn);
                let sub = r.subtree_at(x);
                match sub {
                    Shape::Node(_, sl, sr) => {
                        let cc = (if left { sl.root() } else { sr.root() }) as nat;
                        assert(r.inorder().contains(cc));
                        assert(cc != i);
                        assert(!l.inorder().contains(cc));
                    },
                    Shape::Leaf => {},
                }
            }
        },
    }
}

/// Two ordered trees with the same nodes in the same order end every search at the same node.
pub proof fn lemma_find_same(t1: Shape, t2: Shape, keys: Seq<Seq<char>>, k: Seq<char>)
    requires
        ordered(t1.inorder(), keys),
        t1.inorder() == t2.inorder(),
    ensures
        t1.find(keys, k) == t2.find(keys, k),
{
    lemma_find(t1, keys, k);
    lemma_find(t2, keys, k);
    let s = t1.inorder();
    let f1 = t1.find(keys, k);
    let f2 = t2.find(keys, k);
    if f1 != -1 {
        let p1 = choose|p: int| 0 <= p < s.len() && s[p] == f1 as nat;
        assert(keys[s[p1] as int] == k);
        assert(holds_key(s, keys, k));
    }
    if f2 != -1 {
        let p2 = choose|p: int| 0 <= p < s.len() && s[p] == f2 as nat;
        assert(keys[s[p2] as int] == k);
        assert(holds_key(s, keys, k));
    }
    if f1 != -1 && f2 != -1 && f1 != f2 {
        let p1 = choose|p: int| 0 <= p < s.len() && s[p] == f1 as nat;
        let p2 = choose|p: int| 0 <= p < s.len() && s[p] == f2 as nat;
        assert(p1 != p2);
        if p1 < p2 {
            assert(lex_less(keys[s[p1] as int], keys[s[p2] as int]));
        } else {
            assert(lex_less(keys[s[p2] as int], keys[s[p1] as int]));
        }
        lemma_lex_irreflexive(k);
    }
}

/// Names that agree on a tree's nodes give the same searches and insertions.
pub proof fn lemma_keys_frame(t: Shape, keys: Seq<Seq<char>>, keys2: Seq<Seq<char>>, k: Seq<char>, x: nat, n: nat)
    requires
        forall|y: nat| #[trigger] t.inorder().contains(y) ==> keys2[y as int] == keys[y as int],
    ensures
        t.reached(keys2, k, x) == t.reached(keys, k, x),
        t.insert_leaf(keys2, k, n) == t.insert_leaf(keys, k, n),
        t.find(keys2, k) == t.find(keys, k),
        t.path(keys2, k) == t.path(keys, k),
    decreases t,
{
    lemma_node_contains(t);
    match t {
        Shape::Leaf => {},
        Shape::Node(i, l, r) => {
            assert forall|y: nat| #[trigger] l.inorder().contains(y) implies keys2[y as int] == keys[y as int] by {
                assert(t.inorder().contains(y));
            }
            assert forall|y: nat| #[trigger] r.inorder().contains(y) implies keys2[y as int] == keys[y as int] by {
                assert(t.inorder().contains(y));
            }
            assert(t.inorder().contains(i));
            lemma_keys_frame(*l, keys, keys2, k, x, n);
            lemma_keys_frame(*r, keys, keys2, k, x, n);
        },
    }
}

/// A tree whose ordered nodes extend another's, the added ones lacking the name `k`, ends a
/// search for `k` where the other does.
pub proof fn lemma_find_extend(t1: Shape, t2: Shape, keys1: Seq<Seq<char>>, keys2: Seq<Seq<char>>, k: Seq<char>)
    requires
        ordered(t1.inorder(), keys1),
        ordered(t2.inorder(), keys2),
        forall|y: nat| #[trigger] t1.inorder().contains(y) ==> t2.inorder().contains(y) && keys2[y as int] == keys1[y as int],
        forall|y: nat| #[trigger] t2.inorder().contains(y) && !t1.inorder().contains(y) ==> keys2[y as int] != k,
    ensures
        t2.find(keys2, k) == t1.find(keys1, k),
{
    lemma_find(t1, keys1, k);
    lemma_find(t2, keys2, k);
    let s1 = t1.inorder();
    let s2 = t2.inorder();
    let f1 = t1.find(keys1, k);
    let f2 = t2.find(keys2, k);
    if f1 != -1 {
        assert(s2.contains(f1 as nat));
        let p = choose|p: int| 0 <= p < s2.len() && s2[p] == f1 as nat;
        assert(keys2[s2[p] as int] == k);
        assert(holds_key(s2, keys2, k));
    }
    if f2 != -1 {
        if !s1.contains(f2 as nat) {
            assert(keys2[f2] != k);
        }
        let p = choose|p: int| 0 <= p < s1.len() && s1[p] == f2 as nat;
        assert(keys1[s1[p] as int] == k);
        assert(holds_key(s1, keys1, k));
    }
    if f1 != -1 && f2 != -1 && f1 != f2 {
        let p1 = choose|p: int| 0 <= p < s2.len() && s2[p] == f1 as nat;
        let p2 = choose|p: int| 0 <= p < s2.len() && s2[p] == f2 as nat;
        assert(p1 != p2);
        assert(keys2[f1] == k);
        if p1 < p2 {
            assert(lex_less(keys2[s2[p1] as int], keys2[s2[p2] as int]));
        } else {
            assert(lex_less(keys2[s2[p2] as int], keys2[s2[p1] as int]));
        }
        lemma_lex_irreflexive(k);
    }
}

/// The parent of a node links to it on exactly one side.
pub proof fn lemma_parent_link(t: Shape, x: nat, links: Seq<(int, int)>)
    requires
        t.linked(links),
        t.inorder().no_duplicates(),
        t.inorder().contains(x),
        t.parent_of(x) != -1,
    ensures
        0 <= t.parent_of(x) < links.len(),
        links[t.parent_of(x)].0 == x || links[t.parent_of(x)].1 == x,
        !(links[t.parent_of(x)].0 == x && links[t.parent_of(x)].1 == x),
    decreases t,
{
    lemma_node_contains(t);
    match t {
        Shape::Leaf => {},
        Shape::Node(i, l, r) => {
            lemma_distinct_node(i, *l, *r);
            lemma_root_in(*l);
            lemma_root_in(*r);
            if i == x {
            } else if l.root() == x || r.root() == x {
                if l.root() == x && r.root() == x {
                    assert(l.inorder().contains(x) && r.inorder().contains(x));
                }
            } else if l.inorder().contains(x) {
                lemma_parent_link(*l, x, links);
            } else {
                lemma_parent_link(*r, x, links);
            }
        },
    }
}

/// The node without a parent is the root.
pub proof fn lemma_no_parent_root(t: Shape, x: nat)
    requires
        t.inorder().no_duplicates(),
        t.inorder().contains(x),
        t.parent_of(x) == -1,
    ensures
        t.root() == x,
{
    lemma_node_contains(t);
    match t {
        Shape::Leaf => {},
        Shape::Node(i, l, r) => {
            if i != x {
                lemma_parent_in(t, x);
            }
        },
    }
}

/// The nodes before the subtree at `x`, in order.
pub open spec fn before_at(t: Shape, x: nat) -> Seq<nat>
    decreases t,
{
    match t {
        Shape::Leaf => Seq::empty(),
        Shape::Node(i, l, r) => {
            if i == x {
                Seq::empty()
            } else if l.inorder().contains(x) {
                before_at(*l, x)
            } else {
                l.inorder().push(i) + before_at(*r, x)
            }
        },
    }
}

/// The nodes after the subtree at `x`, in order.
pub open spec fn after_at(t: Shape, x: nat) -> Seq<nat>
    decreases t,
{
    match t {
        Shape::Leaf => Seq::empty(),
        Shape::Node(i, l, r) => {
            if i == x {
                Seq::empty()
            } else if l.inorder().contains(x) {
                after_at(*l, x).push(i) + r.inorder()
            } else {
                after_at(*r, x)
            }
        },
    }
}

/// A tree's nodes are those before the subtree at `x`, the subtree's, and those after; and
/// replacing the subtree keeps those before and after.
pub proof fn lemma_replace_split(t: Shape, x: nat, tn: Shape)
    requires
        t.inorder().contains(x),
    ensures
        t.inorder() == before_at(t, x) + t.subtree_at(x).inorder() + after_at(t, x),
        t.replace_at(x, tn).inorder() == before_at(t, x) + tn.inorder() + after_at(t, x),
    decreases t,
{
    lemma_node_contains(t);
    match t {
        Shape::Leaf => {},
        Shape::Node(i, l, r) => {
            if i == x {
                assert(t.inorder() =~= before_at(t, x) + t.inorder() + after_at(t, x));
                assert(tn.inorder() =~= before_at(t, x) + tn.inorder() + after_at(t, x));
            } else if l.inorder().contains(x) {
                lemma_replace_split(*l, x, tn);
                let l2 = l.replace_at(x, tn);
                lemma_node_contains(Shape::Node(i, Box::new(l2), r));
                let pre = before_at(*l, x);
                let suf = after_at(*l, x);
                let sub = l.subtree_at(x).inorder();
                assert(before_at(t, x) == pre);
                assert(after_at(t, x) == suf.push(i) + r.inorder());
                assert(t.subtree_at(x) == l.subtree_at(x));
                lemma_concat_split(pre, sub, suf, i, r.inorder());
                lemma_concat_split(pre, tn.inorder(), suf, i, r.inorder());
            } else {
                lemma_replace_split(*r, x, tn);
                let r2 = r.replace_at(x, tn);
                lemma_node_contains(Shape::Node(i, l, Box::new(r2)));
                let pre = before_at(*r, x);
                let suf = after_at(*r, x);
                let sub = r.subtree_at(x).inorder();
                assert(before_at(t, x) == l.inorder().push(i) + pre);
                assert(after_at(t, x) == suf);
                assert(t.subtree_at(x) == r.subtree_at(x));
                lemma_concat_split2(l.inorder(), i, pre, sub, suf);
                lemma_concat_split2(l.inorder(), i, pre, tn.inorder(), suf);
            }
        },
    }
}

/// In a tree with distinct nodes after replacing the subtree at `x`, the nodes outside that
/// subtree are outside the new one, and stay in the tree.
pub proof fn lemma_replace_disjoint(t: Shape, x: nat, tn: Shape)
    requires
        t.inorder().contains(x),
        t.inorder().no_duplicates(),
        t.replace_at(x, tn).inorder().no_duplicates(),
    ensures
        forall|y: nat| #[trigger] t.inorder().contains(y) && !t.subtree_at(x).inorder().contains(y) ==> !tn.inorder().contains(y)
            && t.replace_at(x, tn).inorder().contains(y),
        forall|y: nat| #[trigger] t.replace_at(x, tn).inorder().contains(y) ==> tn.inorder().contains(y) || (t.inorder().contains(y)
            && !t.subtree_at(x).inorder().contains(y)),
{
    lemma_replace_split(t, x, tn);
    let pre = before_at(t, x);
    let suf = after_at(t, x);
    let sub = t.subtree_at(x).inorder();
    let s = t.inorder();
    let s2 = t.replace_at(x, tn).inorder();
    let tni = tn.inorder();
    assert forall|y: nat| #[trigger] s.contains(y) && !sub.contains(y) implies !tni.contains(y) && s2.contains(y) by {
        let p = choose|p: int| 0 <= p < s.len() && s[p] == y;
        if p < pre.len() {
            assert(s2[p] == y);
            if tni.contains(y) {
                let q = choose|q: int| 0 <= q < tni.len() && tni[q] == y;
                assert(s2[pre.len() + q] == y);
            }
        } else if p >= pre.len() + sub.len() {
            let q0 = p - pre.len() - sub.len();
            assert(suf[q0] == y);
            assert(s2[pre.len() + tni.len() + q0] == y);
            if tni.contains(y) {
                let q = choose|q: int| 0 <= q < tni.len() && tni[q] == y;
                assert(s2[pre.len() + q] == y);
            }
        } else {
            assert(sub[p - pre.len()] == y);
        }
    }
    assert forall|y: nat| #[trigger] s2.contains(y) implies tni.contains(y) || (s.contains(y) && !sub.contains(y)) by {
        let p = choose|p: int| 0 <= p < s2.len() && s2[p] == y;
        if p < pre.len() {
            assert(s[p] == y);
            if sub.contains(y) {
                let q = choose|q: int| 0 <= q < sub.len() && sub[q] == y;
                assert(s[pre.len() + q] == y);
                lemma_no_dup_pre(pre, sub, suf, p, q);
            }
        } else if p >= pre.len() + tni.len() {
            let q0 = p - pre.len() - tni.len();
            assert(s[pre.len() + sub.len() + q0] == y);
            if sub.contains(y) {
                let q = choose|q: int| 0 <= q < sub.len() && sub[q] == y;
                lemma_no_dup_suf(pre, sub, suf, q0, q);
            }
        } else {
            assert(tni[p - pre.len()] == y);
        }
    }
}

proof fn lemma_concat_split(pre: Seq<nat>, sub: Seq<nat>, suf: Seq<nat>, i: nat, rest: Seq<nat>)
    ensures
        (pre + sub + suf).push(i) + rest == pre + sub + (suf.push(i) + rest),
{
    assert((pre + sub + suf).push(i) + rest =~= pre + sub + (suf.push(i) + rest));
}

proof fn lemma_concat_split2(left: Seq<nat>, i: nat, pre: Seq<nat>, sub: Seq<nat>, suf: Seq<nat>)
    ensures
        left.push(i) + (pre + sub + suf) == (left.push(i) + pre) + sub + suf,
{
    assert(left.push(i) + (pre + sub + suf) =~= (left.push(i) + pre) + sub + suf);
}

proof fn lemma_no_dup_pre(pre: Seq<nat>, sub: Seq<nat>, suf: Seq<nat>, p: int, q: int)
    requires
        0 <= p < pre.len(),
        0 <= q < sub.len(),
    ensures
        pre[p] == sub[q] ==> !(pre + sub + suf).no_duplicates(),
{
    let s = pre + sub + suf;
    if pre[p] == sub[q] {
        assert(s[p] == s[pre.len() + q]);
    }
}

proof fn lemma_no_dup_suf(pre: Seq<nat>, sub: Seq<nat>, suf: Seq<nat>, p: int, q: int)
    requires
        0 <= p < suf.len(),
        0 <= q < sub.len(),
    ensures
        suf[p] == sub[q] ==> !(pre + sub + suf).no_duplicates(),
{
    let s = pre + sub + suf;
    if suf[p] == sub[q] {
        assert(s[pre.len() + sub.len() + p] == s[pre.len() + q]);
    }
}

/// Side `s` (0 left, 1 right) of a pair of links.
pub open spec fn side(p: (int, int), s: int) -> int {
    if s == 0 {
        p.0
    } else {
        p.1
    }
}

/// The links with side `s` set to `v`.
pub open spec fn set_side(p: (int, int), s: int, v: int) -> (int, int) {
    if s == 0 {
        (v, p.1)
    } else {
        (p.0, v)
    }
}

/// The root's subtree on side `s`, as stored.
pub open spec fn child_box(t: Shape, s: int) -> Box<Shape> {
    match t {
        Shape::Leaf => Box::new(Shape::Leaf),
        Shape::Node(_, l, r) => if s == 0 {
            l
        } else {
            r
        },
    }
}

/// The root's subtree on side `s`.
pub open spec fn child(t: Shape, s: int) -> Shape {
    match t {
        Shape::Leaf => Shape::Leaf,
        Shape::Node(_, l, r) => if s == 0 {
            *l
        } else {
            *r
        },
    }
}

/// The tree with the root's subtree on side `s` replaced by `c`.
pub open spec fn with_child(t: Shape, s: int, c: Shape) -> Shape {
    match t {
        Shape::Leaf => Shape::Leaf,
        Shape::Node(o, l, r) => if s == 0 {
            Shape::Node(o, Box::new(c), r)
        } else {
            Shape::Node(o, l, Box::new(c))
        },
    }
}

/// A search passes no more nodes than the tree has.
pub proof fn lemma_path_len(t: Shape, keys: Seq<Seq<char>>, k: Seq<char>)
    ensures
        t.path(keys, k).len() <= t.inorder().len(),
    decreases t,
{
    lemma_node_contains(t);
    match t {
        Shape::Leaf => {},
        Shape::Node(i, l, r) => {
            lemma_path_len(*l, keys, k);
            lemma_path_len(*r, keys, k);
        },
    }
}

/// A subtree has no more nodes than the tree.
pub proof fn lemma_subtree_len(t: Shape, x: nat)
    ensures
        t.subtree_at(x).inorder().len() <= t.inorder().len(),
    decreases t,
{
    lemma_node_contains(t);
    match t {
        Shape::Leaf => {},
        Shape::Node(i, l, r) => {
            lemma_subtree_len(*l, x);
            lemma_subtree_len(*r, x);
        },
    }
}

/// A one-node tree.
pub open spec fn single(n: nat) -> Shape {
    Shape::Node(n, Box::new(Shape::Leaf), Box::new(Shape::Leaf))
}

/// Hanging a new leaf `n` for the name `k` on side `d` of the node `p`, where a search for
/// `k` ends with no node on that side, gives the tree with `k` inserted: ordered under the
/// names with `k` added, linked under the links with `p`'s link to the leaf and the leaf's
/// own, ending the search for `k` at `n` and every other search where it ended before.
#[verifier::rlimit(80)]
pub proof fn lemma_attach_leaf(
    t: Shape,
    keys: Seq<Seq<char>>,
    keys2: Seq<Seq<char>>,
    k: Seq<char>,
    links: Seq<(int, int)>,
    links2: Seq<(int, int)>,
    p: nat,
    d: int,
    n: nat,
)
    requires
        ordered(t.inorder(), keys),
        t.linked(links),
        all_below(t.inorder(), n as int),
        links.len() == n,
        keys.len() == n,
        t.reached(keys, k, p),
        keys[p as int] != k,
        d == if lex_less(k, keys[p as int]) { 0int } else { 1int },
        side(links[p as int], d) == -1,
        keys2 == keys.push(k),
        links2 == links.update(p as int, set_side(links[p as int], d, n as int)).push((-1int, -1int)),
    ensures
        t.find(keys, k) == -1,
        !holds_key(t.inorder(), keys, k),
        p < n,
        child(t.subtree_at(p), d) is Leaf,
        t.insert_leaf(keys2, k, n) == t.replace_at(p, with_child(t.subtree_at(p), d, single(n))),
        ordered(t.insert_leaf(keys2, k, n).inorder(), keys2),
        t.insert_leaf(keys2, k, n).linked(links2),
        forall|y: nat| #[trigger] t.insert_leaf(keys2, k, n).inorder().contains(y) <==> (y == n || t.inorder().contains(y)),
        t.insert_leaf(keys2, k, n).inorder().len() == t.inorder().len() + 1,
        t.insert_leaf(keys2, k, n).find(keys2, k) == n,
        forall|k2: Seq<char>| k2 != k ==> #[trigger] t.insert_leaf(keys2, k, n).find(keys2, k2) == t.find(keys, k2),
{
    let sh = t;
    let sub = sh.subtree_at(p);
    let leaf = single(n);
    let t1 = with_child(sub, d, leaf);
    lemma_ordered_distinct(sh.inorder(), keys);
    lemma_reached_in(sh, keys, k, p);
    lemma_subtree_at(sh, p);
    lemma_subtree_linked(sh, p, links);
    lemma_reached_step(sh, keys, k, p);
    lemma_find(sh, keys, k);
    lemma_node_contains(sub);
    lemma_linked_bound(sh, links);
    assert(p < n) by {
        let q = choose|q: int| 0 <= q < sh.inorder().len() && sh.inorder()[q] == p;
    }
    // the search for `k` ends below `p`, where there is no node
    match sub {
        Shape::Node(j, l, r) => {
            assert(j == p);
            assert(links[p as int] == (l.root(), r.root()));
            if d == 0 {
                assert(*l is Leaf);
                assert(l.find(keys, k) == -1);
            } else {
                assert(*r is Leaf);
                assert(r.find(keys, k) == -1);
            }
            assert(sub.find(keys, k) == -1);
        },
        Shape::Leaf => {},
    }
    assert forall|y: nat| #[trigger] sh.inorder().contains(y) implies y < n && keys2[y as int] == keys[y as int] by {
        let q = choose|q: int| 0 <= q < sh.inorder().len() && sh.inorder()[q] == y;
    }
    lemma_keys_frame(sh, keys, keys2, k, p, n);
    assert(sub.insert_leaf(keys2, k, n) == t1) by {
        match sub {
            Shape::Node(j, l, r) => {
                assert(keys2[p as int] == keys[p as int]);
                assert(Shape::Leaf.insert_leaf(keys2, k, n) == leaf);
                if d == 0 {
                    assert(*l is Leaf);
                } else {
                    assert(*r is Leaf);
                }
            },
            Shape::Leaf => {},
        }
    }
    lemma_reached_insert(sh, keys2, k, n, p);
    lemma_ordered_frame(sh.inorder(), keys, keys2);
    assert(!holds_key(sh.inorder(), keys2, k)) by {
        if holds_key(sh.inorder(), keys2, k) {
            let q = choose|q: int| 0 <= q < sh.inorder().len() && keys2[sh.inorder()[q] as int] == k;
            assert(sh.inorder().contains(sh.inorder()[q]));
        }
    }
    assert(!sh.inorder().contains(n)) by {
        if sh.inorder().contains(n) {
            let q = choose|q: int| 0 <= q < sh.inorder().len() && sh.inorder()[q] == n;
        }
    }
    lemma_insert_leaf_ordered(sh, keys2, k, n);
    let sh2 = sh.insert_leaf(keys2, k, n);
    lemma_ordered_distinct(sh2.inorder(), keys2);
    // links
    let other = child(sub, 1 - d);
    lemma_node_contains(t1);
    lemma_node_contains(leaf);
    lemma_node_contains(Shape::Leaf);
    lemma_distinct_node(p, *child_box(sub, 0), *child_box(sub, 1));
    assert forall|q: int| 0 <= q < other.inorder().len() implies #[trigger] other.inorder()[q] < links2.len() && links2[other.inorder()[q] as int] == links[other.inorder()[q] as int] by {
        let y = other.inorder()[q];
        assert(other.inorder().contains(y));
        assert(sub.inorder().contains(y));
        assert(sh.inorder().contains(y));
    }
    lemma_linked_frame(other, links, links2);
    assert(Shape::Leaf.linked(links2));
    assert(links2[n as int] == (-1int, -1int));
    assert(leaf.linked(links2));
    assert(t1.linked(links2));
    let parent = sh.parent_of(p);
    assert(agree_outside(sh.inorder(), sub.inorder(), parent, links, links2)) by {
        assert forall|q: int|
            0 <= q < sh.inorder().len() && !sub.inorder().contains(#[trigger] sh.inorder()[q]) && sh.inorder()[q] != parent implies sh.inorder()[q]
            < links2.len() && links2[sh.inorder()[q] as int] == links[sh.inorder()[q] as int] by {
            let y = sh.inorder()[q];
            assert(sh.inorder().contains(y));
            assert(y != p);
        }
    }
    if parent != -1 {
        lemma_parent_in(sh, p);
        lemma_parent_link(sh, p, links);
        assert(sh.inorder().contains(parent as nat));
        assert(parent != p);
        assert(links2[parent] == links[parent]);
        assert(relink(links[parent], p as int, p as int) == links[parent]);
    }
    lemma_replace_linked(sh, p, t1, links, links2);
    // the searches
    assert forall|k2: Seq<char>| k2 != k implies #[trigger] sh2.find(keys2, k2) == sh.find(keys, k2) by {
        lemma_find(sh2, keys2, k2);
        lemma_find(sh, keys, k2);
        assert forall|y: nat| #[trigger] sh.inorder().contains(y) implies sh2.inorder().contains(y) && keys2[y as int] == keys[y as int] by {
        }
        assert forall|y: nat| #[trigger] sh2.inorder().contains(y) && !sh.inorder().contains(y) implies keys2[y as int] != k2 by {
        }
        lemma_find_extend(sh, sh2, keys, keys2, k2);
    }
    lemma_find(sh2, keys2, k);
    assert(sh2.inorder().contains(n));
    let q = choose|q: int| 0 <= q < sh2.inorder().len() && sh2.inorder()[q] == n;
    assert(holds_key(sh2.inorder(), keys2, k));
    let f = sh2.find(keys2, k);
    if f != n {
        assert(sh2.inorder().contains(f as nat));
        assert(sh.inorder().contains(f as nat));
        let q2 = choose|q2: int| 0 <= q2 < sh.inorder().len() && sh.inorder()[q2] == f as nat;
        assert(keys2[f] == keys[f]);
        assert(holds_key(sh.inorder(), keys, k));
    }
}

/// In a linked tree whose nodes are all below `n`, every node's links are -1 or below `n`.
pub proof fn lemma_linked_targets(t: Shape, links: Seq<(int, int)>, n: int)
    requires
        t.linked(links),
        all_below(t.inorder(), n),
    ensures
        forall|y: nat| #[trigger] t.inorder().contains(y) ==> (links[y as int].0 == -1 || 0 <= links[y as int].0 < n) && (links[y as int].1 == -1
            || 0 <= links[y as int].1 < n),
    decreases t,
{
    lemma_node_contains(t);
    match t {
        Shape::Leaf => {},
        Shape::Node(i, l, r) => {
            let s = t.inorder();
            let li = l.inorder();
            let ri = r.inorder();
            assert forall|p: int| 0 <= p < li.len() implies #[trigger] li[p] < n by {
                assert(s[p] == li[p]);
            }
            assert forall|p: int| 0 <= p < ri.len() implies #[trigger] ri[p] < n by {
                assert(s[li.len() + 1 + p] == ri[p]);
            }
            lemma_linked_targets(*l, links, n);
            lemma_linked_targets(*r, links, n);
            lemma_root_in(*l);
            lemma_root_in(*r);
            if l.root() != -1 {
                let q = choose|q: int| 0 <= q < li.len() && li[q] == l.root() as nat;
            }
            if r.root() != -1 {
                let q = choose|q: int| 0 <= q < ri.len() && ri[q] == r.root() as nat;
            }
        },
    }
}

/// The nodes a search passes run from the root down, each a child of the one before, and
/// all lie in the tree.
pub proof fn lemma_path_chain(t: Shape, keys: Seq<Seq<char>>, k: Seq<char>, links: Seq<(int, int)>)
    requires
        t.linked(links),
    ensures
        t.path(keys, k).len() > 0 ==> t.path(keys, k)[0] == t.root(),
        forall|i: int| 0 <= i < t.path(keys, k).len() ==> t.inorder().contains(#[trigger] t.path(keys, k)[i]),
        forall|i: int|
            1 <= i < t.path(keys, k).len() ==> links[t.path(keys, k)[i - 1] as int].0 == #[trigger] t.path(keys, k)[i]
                || links[t.path(keys, k)[i - 1] as int].1 == t.path(keys, k)[i],
    decreases t,
{
    lemma_node_contains(t);
    match t {
        Shape::Leaf => {},
        Shape::Node(i, l, r) => {
            if k != keys[i as int] {
                let c = if lex_less(k, keys[i as int]) {
                    *l
                } else {
                    *r
                };
                lemma_path_chain(c, keys, k, links);
                let pc = c.path(keys, k);
                let pt = t.path(keys, k);
                assert(pt =~= seq![i].add(pc));
                assert forall|j: int| 0 <= j < pt.len() implies t.inorder().contains(#[trigger] pt[j]) by {
                    if j > 0 {
                        assert(pt[j] == pc[j - 1]);
                        assert(c.inorder().contains(pc[j - 1]));
                    }
                }
                assert forall|j: int| 1 <= j < pt.len() implies links[pt[j - 1] as int].0 == #[trigger] pt[j] || links[pt[j - 1] as int].1 == pt[j] by {
                    assert(pt[j] == pc[j - 1]);
                    if j > 1 {
                        assert(pt[j - 1] == pc[j - 2]);
                    } else {
                        assert(pc[0] == c.root());
                    }
                }
            }
        },
    }
}

/// In a linked tree with distinct nodes, a node that links to `x` is `x`'s parent.
pub proof fn lemma_parent_unique(t: Shape, links: Seq<(int, int)>, x: nat, y: nat)
    requires
        t.linked(links),
        t.inorder().no_duplicates(),
        t.inorder().contains(y),
        links[y as int].0 == x || links[y as int].1 == x,
    ensures
        t.parent_of(x) == y,
        t.inorder().contains(x),
    decreases t,
{
    lemma_node_contains(t);
    match t {
        Shape::Leaf => {},
        Shape::Node(i, l, r) => {
            lemma_distinct_node(i, *l, *r);
            lemma_root_in(*l);
            lemma_root_in(*r);
            if i == y {
                assert(links[i as int] == (l.root(), r.root()));
            } else if l.inorder().contains(y) {
                lemma_parent_unique(*l, links, x, y);
                lemma_parent_not_root(*l, x);
                assert(!r.inorder().contains(x));
            } else {
                lemma_parent_unique(*r, links, x, y);
                lemma_parent_not_root(*r, x);
                assert(!l.inorder().contains(x));
            }
        },
    }
}

} // verus!
