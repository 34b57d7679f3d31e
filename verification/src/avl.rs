//! The AVL tree of banned players: an arena of nodes kept in search order by name, each with
//! a balance factor, rebalanced by rotations on the way back up from an insertion.

use vstd::prelude::*;
use crate::names::{
    ban_report, contains_id, griefer_rows, read_griefer_rows, record_after_rows, record_step,
    row_view, rows_parse, write_banned, write_not_banned, BanRecord, GrieferRow, NameContainer,
    RowSpec,
};
use crate::shape::{
    agree_outside, all_below, avl_ok, height_balanced, lemma_avl_ok_balanced, child, child_box, holds_key, lemma_attach_leaf,
    lemma_avl_frame, lemma_distinct_node, lemma_find, lemma_find_same, lemma_linked_bound,
    lemma_linked_frame, lemma_no_parent_root, lemma_node_contains, lemma_ordered_distinct,
    lemma_parent_in, lemma_parent_link, lemma_reached_in, lemma_reached_step,
    lemma_replace_contains, lemma_replace_disjoint, lemma_replace_inorder, lemma_replace_linked,
    lemma_replace_nested, lemma_replace_root, lemma_replace_subtree, lemma_root_in,
    lemma_subtree_at, lemma_subtree_children, lemma_subtree_linked, ordered, relink, set_side,
    side, single, with_child, Shape,
};
use crate::text::{
    chars_equal, chars_less, chars_of, lemma_lex_asymmetric, lemma_lex_total, lex_less,
    ws_tokens,
};

verus! {

/// A node of the AVL tree: a player, the servers that banned them, the latest ban time,
/// its two children (-1 for none), and the height of its right subtree less its left one.
pub struct NodeAVL {
    pub player_name_index: usize,
    pub sids: Vec<usize>,
    pub time_banned: usize,
    pub children: [isize; 2],
    pub balance: i8,
}

impl NodeAVL {
    /// A childless node for the player stored at `name_index`, banned once.
    pub fn new(name_index: usize, banned_time: usize, sid: usize) -> (node: Self)
        ensures
            node.player_name_index == name_index,
            node.sids@ == seq![sid],
            node.time_banned == banned_time,
            node.children@ == seq![-1isize, -1isize],
            node.balance == 0,
    {
        let mut new_node = NodeAVL {
            player_name_index: name_index,
            sids: Vec::new(),
            time_banned: banned_time,
            children: [-1, -1],
            balance: 0,
        };
        new_node.sids.push(sid);
        assert(new_node.sids@ =~= seq![sid]);
        new_node
    }
}

/// The AVL tree of banned players.
pub struct TreeAVL {
    nodes_in_tree: usize,
    root_index: usize,
    data: Vec<NodeAVL>,
    name_store: NameContainer,
    shape: Ghost<Shape>,
}

impl TreeAVL {
    /// Each node's links to its children.
    pub closed spec fn links(&self) -> Seq<(int, int)> {
        Seq::new(self.data@.len(), |i: int| (self.data@[i].children[0] as int, self.data@[i].children[1] as int))
    }

    /// Each node's player name.
    pub closed spec fn keys(&self) -> Seq<Seq<char>> {
        Seq::new(self.data@.len(), |i: int| self.name_store@[self.data@[i].player_name_index as int])
    }

    /// Each node's balance.
    pub closed spec fn bals(&self) -> Seq<int> {
        Seq::new(self.data@.len(), |i: int| self.data@[i].balance as int)
    }

    /// The index of the root node.
    pub closed spec fn root(&self) -> int {
        self.root_index as int
    }

    /// Every link is -1 or a node of the arena.
    pub closed spec fn links_valid(&self) -> bool {
        forall|i: int, s: int| 0 <= i < self.data@.len() && 0 <= s < 2 ==> #[trigger] self.data@[i].children[s] == -1 || 0 <= self.data@[i].children[s] < self.data@.len()
    }

    /// The two trees have the same nodes and names apart from links and balances.
    pub closed spec fn same_content(&self, other: &Self) -> bool {
        &&& self.name_store == other.name_store
        &&& self.nodes_in_tree == other.nodes_in_tree
        &&& self.shape == other.shape
        &&& self.data@.len() == other.data@.len()
        &&& forall|i: int| 0 <= i < self.data@.len() ==> (#[trigger] self.data@[i]).player_name_index == other.data@[i].player_name_index
            && self.data@[i].sids == other.data@[i].sids
            && self.data@[i].time_banned == other.data@[i].time_banned
    }

    /// The tree's shape.
    pub closed spec fn tree(&self) -> Shape {
        self.shape@
    }

    /// How many players the tree holds.
    pub closed spec fn count(&self) -> nat {
        self.data@.len()
    }

    /// What the tree records of player `k`.
    pub closed spec fn lookup(&self, k: Seq<char>) -> Option<BanRecord> {
        let f = self.shape@.find(self.keys(), k);
        if f == -1 {
            None
        } else {
            Some(BanRecord { sids: self.data@[f].sids@, time: self.data@[f].time_banned })
        }
    }

    /// The arena, the name store and the shape agree, apart from the balances.
    pub closed spec fn arranged(&self) -> bool {
        &&& self.name_store.wf()
        &&& self.nodes_in_tree == self.data@.len()
        &&& self.data@.len() < isize::MAX
        &&& forall|i: int| 0 <= i < self.data@.len() ==> (#[trigger] self.data@[i]).player_name_index == i
        &&& self.links_valid()
        &&& self.shape@.linked(self.links())
        &&& ordered(self.shape@.inorder(), self.keys())
        &&& self.shape@.inorder().len() == self.data@.len()
        &&& all_below(self.shape@.inorder(), self.data@.len() as int)
        &&& (forall|i: nat| i < self.data@.len() ==> #[trigger] self.shape@.inorder().contains(i))
        &&& (self.data@.len() == 0 ==> self.shape@ is Leaf && self.root_index == 0)
        &&& (self.data@.len() > 0 ==> self.shape@.root() == self.root_index)
        &&& self.name_store@.len() == self.data@.len()
    }

    /// A well-formed AVL tree: arranged, with every balance right.
    pub closed spec fn wf(&self) -> bool {
        &&& self.arranged()
        &&& avl_ok(self.shape@, self.bals())
    }

    /// Where the subtree that was at `curr` hangs from after an insertion: the root of the tree
    /// when `curr` had no parent, else the parent's link on the side that held `curr`.
    pub closed spec fn new_sub_root(&self, old: &Self, parent: isize, curr: usize) -> int {
        if parent == -1 {
            self.root()
        } else if side(old.links()[parent as int], 1) == curr as int {
            side(self.links()[parent as int], 1)
        } else {
            side(self.links()[parent as int], 0)
        }
    }

    /// `insert` may start at node `curr` below `parent`: the tree is arranged, `curr` lies on
    /// the path of a search for `name` with `parent` its parent, and its subtree is balanced.
    pub closed spec fn insert_ready(&self, name: Seq<char>, parent: isize, curr: usize) -> bool {
        &&& self.arranged()
        &&& self.data@.len() + 1 < isize::MAX
        &&& (self.data@.len() == 0 ==> parent == -1)
        &&& (self.data@.len() > 0 ==> {
            &&& self.shape@.reached(self.keys(), name, curr as nat)
            &&& self.shape@.parent_of(curr as nat) == parent as int
            &&& avl_ok(self.shape@.subtree_at(curr as nat), self.bals())
        })
    }

    /// What `insert` of a ban of `name` at `curr` below `parent` did to `old`: the ban is
    /// recorded, the subtree at `curr` is replaced by a balanced one at most one taller,
    /// hanging where the old one hung, and nothing outside it changed but that link.
    pub closed spec fn insert_done(&self, old: &Self, name: Seq<char>, time: usize, sid: usize, parent: isize, curr: usize) -> bool {
        let found = old.shape@.find(old.keys(), name) != -1;
        &&& self.arranged()
        &&& self.data@.len() == old.data@.len() + if found {
            0int
        } else {
            1int
        }
        &&& forall|k: Seq<char>| #[trigger] self.lookup(k) == record_step(old.lookup(k), k, name, time, sid)
        &&& self.keys() == if found {
            old.keys()
        } else {
            old.keys().push(name)
        }
        &&& (old.data@.len() == 0 ==> avl_ok(self.shape@, self.bals()) && self.shape@ == single(0))
        &&& (old.data@.len() > 0 ==> {
            let t = old.shape@.subtree_at(curr as nat);
            let nr = self.new_sub_root(old, parent, curr);
            let t2 = self.shape@.subtree_at(nr as nat);
            &&& nr >= 0
            &&& t2.root() == nr
            &&& self.shape@ == old.shape@.replace_at(curr as nat, t2)
            &&& t2 == avl_inserted(t, old.keys(), name, old.data@.len())
            &&& avl_ok(t2, self.bals())
            &&& (t2.height() == t.height() || t2.height() == t.height() + 1)
            &&& ((t2.height() == t.height() + 1) == (old.bals()[curr as int] == 0 && self.bals()[curr as int] != 0))
            &&& (t2.height() == t.height() + 1 ==> nr == curr)
            &&& (forall|y: int| 0 <= y < old.data@.len() && !t.inorder().contains(y as nat) ==> self.bals()[y] == old.bals()[y])
            &&& agree_outside(old.shape@.inorder(), t.inorder(), parent as int, old.links(), self.links())
            &&& (parent != -1 ==> self.links()[parent as int] == relink(old.links()[parent as int], curr as int, nr))
            &&& (parent != -1 ==> self.root() == old.root())
        })
    }

    /// Half-way through `insert` at `curr` below `parent`: the subtree on side `d` has taken
    /// the ban and become `child(t1, d)`; `curr`'s balance has followed its growth, and the
    /// rotation that may restore the balance at `curr` is still to come.
    pub closed spec fn pending(&self, old: &Self, name: Seq<char>, time: usize, sid: usize, parent: isize, curr: usize, d: int, t1: Shape) -> bool {
        let found = old.shape@.find(old.keys(), name) != -1;
        let t = old.shape@.subtree_at(curr as nat);
        let tc = child(t, d);
        let x = child(t1, d);
        let grew = x.height() == tc.height() + 1;
        &&& old.insert_ready(name, parent, curr)
        &&& old.data@.len() > 0
        &&& 0 <= d < 2
        &&& old.keys()[curr as int] != name
        &&& d == if lex_less(name, old.keys()[curr as int]) {
            0int
        } else {
            1int
        }
        &&& x == avl_inserted(tc, old.keys(), name, old.data@.len())
        &&& self.arranged()
        &&& self.data@.len() + 1 <= isize::MAX
        &&& self.data@.len() == old.data@.len() + if found {
            0int
        } else {
            1int
        }
        &&& forall|k: Seq<char>| #[trigger] self.lookup(k) == record_step(old.lookup(k), k, name, time, sid)
        &&& self.keys() == if found {
            old.keys()
        } else {
            old.keys().push(name)
        }
        &&& self.shape@ == old.shape@.replace_at(curr as nat, t1)
        &&& t1 == with_child(t, d, x)
        &&& t is Node
        &&& x is Node
        &&& avl_ok(x, self.bals())
        &&& avl_ok(child(t, 1 - d), self.bals())
        &&& (x.height() == tc.height() || grew)
        &&& self.bals()[curr as int] == old.bals()[curr as int] + if grew {
            if d == 1 {
                1int
            } else {
                -1int
            }
        } else {
            0int
        }
        &&& ((self.bals()[curr as int] < -1 || self.bals()[curr as int] > 1) ==> self.bals()[x.root()] != 0)
        &&& (forall|y: int| 0 <= y < old.data@.len() && !t.inorder().contains(y as nat) ==> self.bals()[y] == old.bals()[y])
        &&& agree_outside(old.shape@.inorder(), t.inorder(), parent as int, old.links(), self.links())
        &&& (parent != -1 ==> self.links()[parent as int] == old.links()[parent as int])
        &&& self.root() == old.root()
    }

    /// Completes `insert` after a rotation at `curr` that settled its subtree as `t2`, linked
    /// under `l2`, with the parent's link then pointed at `t2`'s root.
    #[verifier::rlimit(80)]
    proof fn lemma_settled(
        &self,
        before: &Self,
        mid: &Self,
        name: Seq<char>,
        time: usize,
        sid: usize,
        parent: isize,
        curr: usize,
        d: int,
        t1: Shape,
        t2: Shape,
        l2: Seq<(int, int)>,
        is_right: bool,
    )
        requires
            mid.pending(before, name, time, sid, parent, curr, d, t1),
            t1.inorder().no_duplicates(),
            forall|y: nat| #[trigger] t1.inorder().contains(y) ==> y < mid.data@.len(),
            self.shape@ == before.shape@.replace_at(curr as nat, t2),
            t2 is Node,
            t2 == rebalanced(t1),
            t2.inorder() == t1.inorder(),
            t2.linked(l2),
            avl_ok(t2, self.bals()),
            self.name_store == mid.name_store,
            self.nodes_in_tree == mid.nodes_in_tree,
            self.data@.len() == mid.data@.len(),
            forall|i: int| 0 <= i < self.data@.len() ==> (#[trigger] self.data@[i]).player_name_index == mid.data@[i].player_name_index
                && self.data@[i].sids == mid.data@[i].sids && self.data@[i].time_banned == mid.data@[i].time_banned,
            self.links_valid(),
            l2.len() == mid.data@.len(),
            forall|y: int| 0 <= y < l2.len() && !t1.inorder().contains(y as nat) ==> l2[y] == mid.links()[y],
            self.links() == if parent == -1 {
                l2
            } else {
                l2.update(parent as int, set_side(l2[parent as int], if is_right { 1 } else { 0 }, t2.root()))
            },
            forall|y: int| 0 <= y < self.data@.len() && !t1.inorder().contains(y as nat) ==> self.bals()[y] == mid.bals()[y],
            parent == -1 ==> self.root() == t2.root(),
            parent != -1 ==> self.root() == mid.root(),
            parent != -1 ==> is_right == (mid.links()[parent as int].1 == curr as int),
            parent != -1 ==> !t1.inorder().contains(parent as nat) && 0 <= parent < mid.data@.len(),
            parent != -1 ==> (mid.links()[parent as int].0 == curr || mid.links()[parent as int].1 == curr)
                && !(mid.links()[parent as int].0 == curr && mid.links()[parent as int].1 == curr),
            ({
                let t = before.shape@.subtree_at(curr as nat);
                &&& (t2.height() == t.height() || t2.height() == t.height() + 1)
                &&& ((t2.height() == t.height() + 1) == (before.bals()[curr as int] == 0 && self.bals()[curr as int] != 0))
                &&& (t2.height() == t.height() + 1 ==> t2.root() == curr)
            }),
        ensures
            self.insert_done(before, name, time, sid, parent, curr),
    {
        assert forall|p: int| 0 <= p < t2.inorder().len() implies #[trigger] t2.inorder()[p] < self.links().len() && self.links()[t2.inorder()[p] as int] == l2[t2.inorder()[p] as int] by {
            let y = t2.inorder()[p];
            assert(t1.inorder().contains(y));
        }
        lemma_linked_frame(t2, l2, self.links());
        if parent != -1 {
            assert(l2[parent as int] == mid.links()[parent as int]);
        }
        self.lemma_finish(before, mid, name, time, sid, parent, curr, d, t1, t2);
    }

    /// Completes `insert` once the subtree at `curr` has been settled as `t2`.
    #[verifier::rlimit(80)]
    proof fn lemma_finish(
        &self,
        before: &Self,
        mid: &Self,
        name: Seq<char>,
        time: usize,
        sid: usize,
        parent: isize,
        curr: usize,
        d: int,
        t1: Shape,
        t2: Shape,
    )
        requires
            mid.pending(before, name, time, sid, parent, curr, d, t1),
            self.shape@ == before.shape@.replace_at(curr as nat, t2),
            t2 is Node,
            t2 == rebalanced(t1),
            t2.inorder() == t1.inorder(),
            t2.linked(self.links()),
            avl_ok(t2, self.bals()),
            self.name_store == mid.name_store,
            self.nodes_in_tree == mid.nodes_in_tree,
            self.data@.len() == mid.data@.len(),
            forall|i: int| 0 <= i < self.data@.len() ==> (#[trigger] self.data@[i]).player_name_index == mid.data@[i].player_name_index
                && self.data@[i].sids == mid.data@[i].sids && self.data@[i].time_banned == mid.data@[i].time_banned,
            self.links_valid(),
            forall|y: int| 0 <= y < self.data@.len() && !t1.inorder().contains(y as nat) && y != parent ==> self.links()[y] == mid.links()[y],
            forall|y: int| 0 <= y < self.data@.len() && !t1.inorder().contains(y as nat) ==> self.bals()[y] == mid.bals()[y],
            parent == -1 ==> self.root() == t2.root(),
            parent != -1 ==> self.root() == mid.root() && self.links()[parent as int] == relink(mid.links()[parent as int], curr as int, t2.root()),
            ({
                let t = before.shape@.subtree_at(curr as nat);
                &&& (t2.height() == t.height() || t2.height() == t.height() + 1)
                &&& ((t2.height() == t.height() + 1) == (before.bals()[curr as int] == 0 && self.bals()[curr as int] != 0))
                &&& (t2.height() == t.height() + 1 ==> t2.root() == curr)
            }),
        ensures
            self.insert_done(before, name, time, sid, parent, curr),
    {
        let sh = before.shape@;
        let t = sh.subtree_at(curr as nat);
        let sh1 = mid.shape@;
        let sh2 = self.shape@;
        let keys = mid.keys();
        assert(self.keys() =~= keys);
        lemma_ordered_distinct(sh.inorder(), before.keys());
        lemma_ordered_distinct(sh1.inorder(), keys);
        lemma_reached_in(sh, before.keys(), name, curr as nat);
        lemma_replace_inorder(sh, curr as nat, t2, t1);
        lemma_ordered_distinct(sh2.inorder(), keys);
        lemma_replace_disjoint(sh, curr as nat, t1);
        lemma_replace_disjoint(sh, curr as nat, t2);
        lemma_subtree_at(sh, curr as nat);
        lemma_root_in(t2);
        // links outside the settled subtree
        assert(agree_outside(sh.inorder(), t.inorder(), parent as int, before.links(), self.links())) by {
            assert forall|p: int|
                0 <= p < sh.inorder().len() && !t.inorder().contains(#[trigger] sh.inorder()[p]) && sh.inorder()[p] != parent implies sh.inorder()[p]
                < self.links().len() && self.links()[sh.inorder()[p] as int] == before.links()[sh.inorder()[p] as int] by {
                let y = sh.inorder()[p];
                assert(sh.inorder().contains(y));
                assert(!t1.inorder().contains(y));
                assert(y < before.data@.len());
            }
        }
        if parent != -1 {
            lemma_parent_in(sh, curr as nat);
            lemma_parent_link(sh, curr as nat, before.links());
            assert(!t.inorder().contains(parent as nat));
            assert(mid.links()[parent as int] == before.links()[parent as int]);
            lemma_replace_root(sh, curr as nat, t2);
            assert(sh.root() != curr);
        } else {
            lemma_no_parent_root(sh, curr as nat);
        }
        lemma_replace_linked(sh, curr as nat, t2, before.links(), self.links());
        lemma_replace_subtree(sh, curr as nat, t2);
        // the settled subtree is the insertion into the old one
        match t {
            Shape::Node(j, l, r) => {
                assert(j == curr);
                if d == 0 {
                    assert(t1 == Shape::Node(j, Box::new(avl_inserted(*l, before.keys(), name, before.data@.len())), r));
                } else {
                    assert(t1 == Shape::Node(j, l, Box::new(avl_inserted(*r, before.keys(), name, before.data@.len()))));
                }
                assert(t2 == avl_inserted(t, before.keys(), name, before.data@.len()));
            },
            Shape::Leaf => {},
        }
        // the search for every name ends as before the rebalancing
        assert forall|k: Seq<char>| #[trigger] self.lookup(k) == mid.lookup(k) by {
            lemma_find_same(sh1, sh2, keys, k);
            lemma_find(sh2, keys, k);
        }
        assert forall|i: nat| i < self.data@.len() implies #[trigger] sh2.inorder().contains(i) by {
            assert(sh1.inorder().contains(i));
        }
        assert forall|y: int| 0 <= y < before.data@.len() && !t.inorder().contains(y as nat) implies self.bals()[y] == before.bals()[y] by {
            assert(sh.inorder().contains(y as nat));
            assert(!t1.inorder().contains(y as nat));
        }
    }

    /// What holds half-way through `insert` at `curr`.
    proof fn lemma_pending_facts(&self, before: &Self, name: Seq<char>, time: usize, sid: usize, parent: isize, curr: usize, d: int, t1: Shape)
        requires
            self.pending(before, name, time, sid, parent, curr, d, t1),
        ensures
            t1.root() == curr,
            t1 is Node,
            self.shape@.subtree_at(curr as nat) == t1,
            t1.inorder().no_duplicates(),
            t1.linked(self.links()),
            forall|y: nat| #[trigger] t1.inorder().contains(y) ==> y < self.data@.len(),
            t1.inorder().contains(child(t1, d).root() as nat),
            0 <= child(t1, d).root() < self.data@.len(),
            self.links()[curr as int] == (child(t1, 0).root(), child(t1, 1).root()),
            self.bals()[curr as int] == child(t1, 1).height() - child(t1, 0).height(),
            -2 <= self.bals()[curr as int] <= 2,
            -1 <= self.bals()[child(t1, d).root()] <= 1,
            child(t1, 1 - d) == child(before.shape@.subtree_at(curr as nat), 1 - d),
            avl_ok(child(t1, 0), self.bals()),
            avl_ok(child(t1, 1), self.bals()),
            before.bals()[curr as int] == child(before.shape@.subtree_at(curr as nat), 1).height() - child(
                before.shape@.subtree_at(curr as nat),
                0,
            ).height(),
            -1 <= before.bals()[curr as int] <= 1,
            parent != -1 ==> !t1.inorder().contains(parent as nat) && 0 <= parent < self.data@.len(),
            parent != -1 ==> (self.links()[parent as int].0 == curr || self.links()[parent as int].1 == curr)
                && !(self.links()[parent as int].0 == curr && self.links()[parent as int].1 == curr),
    {
        let sh = before.shape@;
        let t = sh.subtree_at(curr as nat);
        let x = child(t1, d);
        lemma_ordered_distinct(sh.inorder(), before.keys());
        lemma_reached_in(sh, before.keys(), name, curr as nat);
        lemma_subtree_at(sh, curr as nat);
        lemma_ordered_distinct(self.shape@.inorder(), self.keys());
        lemma_replace_subtree(sh, curr as nat, t1);
        lemma_subtree_linked(self.shape@, curr as nat, self.links());
        lemma_subtree_at(self.shape@, curr as nat);
        lemma_replace_disjoint(sh, curr as nat, t1);
        lemma_root_in(x);
        lemma_node_contains(t1);
        lemma_avl_bound(x, self.bals());
        lemma_replace_contains(sh, curr as nat, t1);
        assert forall|y: nat| #[trigger] t1.inorder().contains(y) implies y < self.data@.len() by {
            let s1 = self.shape@.inorder();
            assert(s1.contains(y));
            let p = choose|p: int| 0 <= p < s1.len() && s1[p] == y;
        }
        assert(x.inorder().contains(x.root() as nat));
        if parent != -1 {
            lemma_parent_in(sh, curr as nat);
            lemma_parent_link(sh, curr as nat, before.links());
            assert(!t.inorder().contains(parent as nat));
            assert(sh.inorder().contains(parent as nat));
            assert(!t1.inorder().contains(parent as nat));
        }
    }

    /// Single rotation at `curr` towards side `1 - d`, then the parent's link.
    #[verifier::rlimit(80)]
    fn settle_single(
        &mut self,
        parent_index: isize,
        curr_index: usize,
        d: usize,
        is_right: bool,
        Ghost(before): Ghost<TreeAVL>,
        Ghost(name): Ghost<Seq<char>>,
        Ghost(time): Ghost<usize>,
        Ghost(sid): Ghost<usize>,
        Ghost(t1): Ghost<Shape>,
    )
        requires
            d < 2,
            old(self).pending(&before, name, time, sid, parent_index, curr_index, d as int, t1),
            old(self).bals()[curr_index as int] == if d == 0 { -2int } else { 2int },
            old(self).bals()[child(t1, d as int).root()] == if d == 0 { -1int } else { 1int },
            parent_index != -1 ==> is_right == (old(self).links()[parent_index as int].1 == curr_index as int),
        ensures
            final(self).insert_done(&before, name, time, sid, parent_index, curr_index),
    {
        let ghost mid = *self;
        proof {
            mid.lemma_pending_facts(&before, name, time, sid, parent_index, curr_index, d as int, t1);
        }
        let new_root = self.rotate(curr_index, 1 - d, true);
        self.update_proper_parent(parent_index, is_right, new_root);
        proof {
            let t2 = rotate_shape(t1, 1 - d);
            self.shape = Ghost(before.shape@.replace_at(curr_index as nat, t2));
            let x = child(t1, d as int);
            assert(tilt(t1) == mid.bals()[curr_index as int]);
            assert(tilt(x) == mid.bals()[x.root()]);
            assert(t2 == rebalanced(t1));
            lemma_rotate_linked(t1, mid.links(), 1 - d);
            lemma_single_rotation_avl(t1, mid.bals(), d as int);
            lemma_root_in(t1);
            let c = child(t1, d as int).root();
            assert(side(mid.links()[curr_index as int], d as int) == c);
            assert forall|y: int| 0 <= y < mid.data@.len() && !t1.inorder().contains(y as nat) implies rotated_links(mid.links(), curr_index as int, 1 - d)[y] == mid.links()[y] by {
                assert(y != curr_index);
                assert(y != c);
            }
            self.lemma_settled(&before, &mid, name, time, sid, parent_index, curr_index, d as int, t1, t2,
                rotated_links(mid.links(), curr_index as int, 1 - d), is_right);
        }
    }

    /// Double rotation at `curr` for an insertion below its child on side `d`, then the
    /// parent's link.
    #[verifier::rlimit(80)]
    fn settle_double(
        &mut self,
        parent_index: isize,
        curr_index: usize,
        d: usize,
        is_right: bool,
        Ghost(before): Ghost<TreeAVL>,
        Ghost(name): Ghost<Seq<char>>,
        Ghost(time): Ghost<usize>,
        Ghost(sid): Ghost<usize>,
        Ghost(t1): Ghost<Shape>,
    )
        requires
            d < 2,
            old(self).pending(&before, name, time, sid, parent_index, curr_index, d as int, t1),
            old(self).bals()[curr_index as int] == if d == 0 { -2int } else { 2int },
            old(self).bals()[child(t1, d as int).root()] == if d == 0 { 1int } else { -1int },
            parent_index != -1 ==> is_right == (old(self).links()[parent_index as int].1 == curr_index as int),
        ensures
            final(self).insert_done(&before, name, time, sid, parent_index, curr_index),
    {
        let ghost mid = *self;
        proof {
            mid.lemma_pending_facts(&before, name, time, sid, parent_index, curr_index, d as int, t1);
            lemma_double_ready(t1, mid.links(), mid.bals(), d as int);
        }
        let new_root = self.multi_rotate(curr_index, d);
        self.update_proper_parent(parent_index, is_right, new_root);
        proof {
            let t2 = double_rotate_shape(t1, d as int);
            self.shape = Ghost(before.shape@.replace_at(curr_index as nat, t2));
            let x = child(t1, d as int);
            assert(tilt(t1) == mid.bals()[curr_index as int]);
            assert(tilt(x) == mid.bals()[x.root()]);
            assert(t2 == rebalanced(t1));
            lemma_double_rotation_linked(t1, mid.links(), d as int);
            lemma_double_rotation_root(mid.links(), curr_index as int, d as int);
            lemma_double_rotation_avl(t1, mid.bals(), d as int);
            lemma_root_in(t1);
            let c = child(t1, d as int);
            let g = child(c, 1 - d as int).root();
            lemma_node_contains(t1);
            lemma_node_contains(c);
            lemma_root_in(c);
            lemma_root_in(child(c, 1 - d as int));
            assert(t1.inorder().contains(g as nat));
            assert forall|y: int| 0 <= y < mid.data@.len() && !t1.inorder().contains(y as nat) implies self.bals()[y] == mid.bals()[y] by {
                assert(y != curr_index);
                assert(y != c.root());
                assert(y != g);
            }
            assert forall|y: int| 0 <= y < mid.data@.len() && !t1.inorder().contains(y as nat) implies double_rotated_links(mid.links(), curr_index as int, d as int)[y] == mid.links()[y] by {
                assert(y != curr_index);
                assert(y != c.root());
                assert(y != g);
            }
            self.lemma_settled(&before, &mid, name, time, sid, parent_index, curr_index, d as int, t1, t2,
                double_rotated_links(mid.links(), curr_index as int, d as int), is_right);
        }
    }

    /// Restores the balance at `curr` after an insertion below it on side `left_right_index`,
    /// rotating when `curr`'s balance has reached -2 or 2, and hangs the settled subtree where
    /// `curr` hung.
    #[verifier::rlimit(80)]
    fn rebalance(
        &mut self,
        parent_index: isize,
        curr_index: usize,
        left_right_index: usize,
        Ghost(before): Ghost<TreeAVL>,
        Ghost(name): Ghost<Seq<char>>,
        Ghost(time): Ghost<usize>,
        Ghost(sid): Ghost<usize>,
        Ghost(t1): Ghost<Shape>,
    )
        requires
            old(self).pending(&before, name, time, sid, parent_index, curr_index, left_right_index as int, t1),
        ensures
            final(self).insert_done(&before, name, time, sid, parent_index, curr_index),
    {
        let ghost mid = *self;
        let ghost d = left_right_index as int;
        proof {
            mid.lemma_pending_facts(&before, name, time, sid, parent_index, curr_index, d, t1);
        }
        let curr_bal = self.data[curr_index].balance;
        let child_link = self.data[curr_index].children[left_right_index];
        assert(child_link as int == child(t1, d).root());
        let child_bal = self.data[child_link as usize].balance;
        let needs_right_rot = curr_bal < -1 && child_bal <= -1;
        let needs_left_rot = curr_bal > 1 && child_bal >= 1;
        let needs_left_right_rot = curr_bal < -1 && child_bal >= 1;
        let needs_right_left_rot = curr_bal > 1 && child_bal <= -1;
        let old_root_is_right_child_of_parent: bool = if parent_index != -1 {
            self.data[parent_index as usize].children[1] == curr_index as isize
        } else {
            false
        };
        if needs_right_rot {
            self.settle_single(parent_index, curr_index, 0, old_root_is_right_child_of_parent,
                Ghost(before), Ghost(name), Ghost(time), Ghost(sid), Ghost(t1));
        }
        if needs_left_rot {
            self.settle_single(parent_index, curr_index, 1, old_root_is_right_child_of_parent,
                Ghost(before), Ghost(name), Ghost(time), Ghost(sid), Ghost(t1));
        }
        if needs_left_right_rot {
            self.settle_double(parent_index, curr_index, 0, old_root_is_right_child_of_parent,
                Ghost(before), Ghost(name), Ghost(time), Ghost(sid), Ghost(t1));
        }
        if needs_right_left_rot {
            self.settle_double(parent_index, curr_index, 1, old_root_is_right_child_of_parent,
                Ghost(before), Ghost(name), Ghost(time), Ghost(sid), Ghost(t1));
        }
        if !needs_right_rot && !needs_left_rot && !needs_left_right_rot && !needs_right_left_rot {
            proof {
                if parent_index == -1 {
                    lemma_ordered_distinct(before.shape@.inorder(), before.keys());
                    lemma_reached_in(before.shape@, before.keys(), name, curr_index as nat);
                    lemma_no_parent_root(before.shape@, curr_index as nat);
                }
                let x = child(t1, d);
                assert(tilt(t1) == mid.bals()[curr_index as int]);
                assert(tilt(x) == mid.bals()[x.root()]);
                assert(t1 == rebalanced(t1));
                self.lemma_finish(&before, &mid, name, time, sid, parent_index, curr_index, d, t1, t1);
            }
        }
    }

    /// Records a ban of `player_name` on server `sid` at `banned_time` in the subtree at
    /// `curr_index`, whose parent is `parent_index` (-1 at the root): a new player gets a new
    /// leaf, and the tree is rebalanced on the way back up; a known player gets the server
    /// added if new and the later of the two times.
    #[verifier::rlimit(80)]
    pub fn insert(&mut self, player_name: &str, banned_time: usize, sid: usize, parent_index: isize, curr_index: usize)
        requires
            old(self).insert_ready(player_name@, parent_index, curr_index),
        ensures
            final(self).insert_done(old(self), player_name@, banned_time, sid, parent_index, curr_index),
            final(self).count() == old(self).count() + if old(self).lookup(player_name@) is Some {
                0int
            } else {
                1int
            },
            forall|k: Seq<char>| #[trigger] final(self).lookup(k) == record_step(old(self).lookup(k), k, player_name@, banned_time, sid),
            final(self).keys() == if old(self).lookup(player_name@) is Some {
                old(self).keys()
            } else {
                old(self).keys().push(player_name@)
            },
            old(self).count() == 0 ==> final(self).tree() == single(0),
            old(self).count() > 0 ==> final(self).tree() == old(self).tree().replace_at(
                curr_index as nat,
                avl_inserted(old(self).tree().subtree_at(curr_index as nat), old(self).keys(), player_name@, old(self).count()),
            ),
        decreases old(self).tree().subtree_at(curr_index as nat).height(),
    {
        let ghost before = *self;
        let ghost name = player_name@;
        let ghost sh = self.shape@;
        let ghost keys = self.keys();
        let plus_minus_arr: [i8; 2] = [-1, 1];
        if self.nodes_in_tree == 0 {
            let idx = self.name_store.insert(player_name);
            self.data.push(NodeAVL::new(idx, banned_time, sid));
            self.nodes_in_tree += 1;
            proof {
                let leaf = Shape::Node(0, Box::new(Shape::Leaf), Box::new(Shape::Leaf));
                self.shape = Ghost(leaf);
                lemma_node_contains(leaf);
                lemma_node_contains(Shape::Leaf);
                assert(leaf.inorder() =~= seq![0nat]);
                assert(self.keys() =~= seq![name]);
                assert(self.keys() =~= before.keys().push(name));
                assert(before.shape@ is Leaf);
                assert(self.data@.len() == 1);
                assert(self.data@[0].sids@ == seq![sid]);
                assert(self.data@[0].time_banned == banned_time);
                assert(self.name_store.wf());
                assert(self.links_valid());
                assert(self.data@[0].children@ == seq![-1isize, -1isize]);
                assert(self.links()[0] == (-1int, -1int));
                assert(Shape::Leaf.linked(self.links()));
                assert(self.shape@.linked(self.links()));
                assert(ordered(self.shape@.inorder(), self.keys()));
                assert(all_below(self.shape@.inorder(), 1));
                assert(self.shape@.root() == self.root_index);
                assert(self.arranged());
                assert(avl_ok(Shape::Leaf, self.bals()));
                assert(Shape::Leaf.height() == 0);
                assert(avl_ok(self.shape@, self.bals()));
                assert forall|k: Seq<char>| #[trigger] self.lookup(k) == record_step(before.lookup(k), k, name, banned_time, sid) by {
                    assert(before.lookup(k) is None);
                    if k == name {
                        assert(leaf.find(self.keys(), k) == 0);
                    } else {
                        assert(Shape::Leaf.find(self.keys(), k) == -1);
                        assert(leaf.find(self.keys(), k) == -1);
                    }
                }
            }
            return;
        }
        proof {
            lemma_ordered_distinct(sh.inorder(), keys);
            lemma_reached_in(sh, keys, name, curr_index as nat);
            lemma_subtree_at(sh, curr_index as nat);
            lemma_subtree_children(sh, curr_index as nat);
            lemma_reached_step(sh, keys, name, curr_index as nat);
            lemma_subtree_linked(sh, curr_index as nat, self.links());
            assert(sh.inorder().contains(curr_index as nat));
            let sp = choose|p: int| 0 <= p < sh.inorder().len() && sh.inorder()[p] == curr_index as nat;
        }
        let name_chars = chars_of(player_name);
        let node_name = self.name_of(curr_index);
        if chars_equal(&node_name, &name_chars) {
            if banned_time > self.data[curr_index].time_banned {
                self.data[curr_index].time_banned = banned_time;
            }
            if !contains_id(&self.data[curr_index].sids, sid) {
                self.data[curr_index].sids.push(sid);
            }
            proof {
                self.lemma_found(&before, name, banned_time, sid, parent_index, curr_index);
            }
            return;
        }
        let left_right_index: usize = if chars_less(&node_name, &name_chars) {
            1
        } else {
            0
        };
        proof {
            lemma_lex_total(name, keys[curr_index as int]);
            lemma_lex_asymmetric(name, keys[curr_index as int]);
            assert(left_right_index == 0 <==> lex_less(name, keys[curr_index as int]));
        }
        if self.data[curr_index].children[left_right_index] == -1 {
            proof {
                before.lemma_absent(name, parent_index, curr_index, left_right_index as int);
                assert(self.name_store@.last() == keys[before.data@.len() - 1]);
            }
            let idx = self.name_store.insert(player_name);
            self.data.push(NodeAVL::new(idx, banned_time, sid));
            self.data[curr_index].children[left_right_index] = self.nodes_in_tree as isize;
            self.nodes_in_tree += 1;
            self.data[curr_index].balance = self.data[curr_index].balance + plus_minus_arr[left_right_index];
            let ghost t1 = with_child(sh.subtree_at(curr_index as nat), left_right_index as int, single(before.data@.len()));
            proof {
                self.shape = Ghost(sh.replace_at(curr_index as nat, t1));
                self.lemma_attached(&before, name, banned_time, sid, parent_index, curr_index, left_right_index as int);
            }
            self.rebalance(parent_index, curr_index, left_right_index, Ghost(before), Ghost(name), Ghost(banned_time), Ghost(sid), Ghost(t1));
        } else {
            let child_index = self.data[curr_index].children[left_right_index] as usize;
            let child_balance_before = self.data[child_index].balance;
            proof {
                before.lemma_child_ready(name, parent_index, curr_index, left_right_index as int);
            }
            self.insert(player_name, banned_time, sid, curr_index as isize, child_index);
            let ghost mid = *self;
            proof {
                mid.lemma_balance_kept(&before, name, banned_time, sid, parent_index, curr_index, left_right_index as int, child_index);
            }
            let child_balance_after = self.data[child_index].balance;
            if child_balance_before == 0 && child_balance_after != 0 {
                self.data[curr_index].balance = self.data[curr_index].balance + plus_minus_arr[left_right_index];
            }
            let ghost t1 = with_child(
                sh.subtree_at(curr_index as nat),
                left_right_index as int,
                mid.shape@.subtree_at(mid.new_sub_root(&before, curr_index as isize, child_index) as nat),
            );
            proof {
                self.lemma_descended(&before, &mid, name, banned_time, sid, parent_index, curr_index, left_right_index as int, child_index);
            }
            self.rebalance(parent_index, curr_index, left_right_index, Ghost(before), Ghost(name), Ghost(banned_time), Ghost(sid), Ghost(t1));
        }
    }

    /// The search for `name` passes `curr` and goes on to its side `d`, where there is no node.
    proof fn lemma_absent(&self, name: Seq<char>, parent: isize, curr: usize, d: int)
        requires
            self.insert_ready(name, parent, curr),
            self.data@.len() > 0,
            self.keys()[curr as int] != name,
            d == if lex_less(name, self.keys()[curr as int]) { 0int } else { 1int },
            side(self.links()[curr as int], d) == -1,
        ensures
            self.shape@.find(self.keys(), name) == -1,
            forall|i: int| 0 <= i < self.data@.len() ==> self.keys()[i] != name,
            child(self.shape@.subtree_at(curr as nat), d) is Leaf,
    {
        let sh = self.shape@;
        let keys = self.keys();
        lemma_ordered_distinct(sh.inorder(), keys);
        lemma_reached_in(sh, keys, name, curr as nat);
        lemma_subtree_at(sh, curr as nat);
        lemma_reached_step(sh, keys, name, curr as nat);
        lemma_subtree_linked(sh, curr as nat, self.links());
        lemma_find(sh, keys, name);
        let t = sh.subtree_at(curr as nat);
        match t {
            Shape::Node(j, l, r) => {
                assert(j == curr);
                assert(self.links()[curr as int] == (l.root(), r.root()));
                if d == 0 {
                    assert(*l is Leaf);
                    assert(l.find(keys, name) == -1);
                } else {
                    assert(*r is Leaf);
                    assert(r.find(keys, name) == -1);
                }
                assert(t.find(keys, name) == -1);
            },
            Shape::Leaf => {},
        }
        assert(sh.find(keys, name) == -1);
        assert forall|i: int| 0 <= i < self.data@.len() implies self.keys()[i] != name by {
            assert(sh.inorder().contains(i as nat));
            let p = choose|p: int| 0 <= p < sh.inorder().len() && sh.inorder()[p] == i as nat;
            if keys[i] == name {
                assert(keys[sh.inorder()[p] as int] == name);
                assert(holds_key(sh.inorder(), keys, name));
            }
        }
    }

    /// The search for `name` passes `curr` and goes on to its child on side `d`, where
    /// `insert` may go on.
    proof fn lemma_child_ready(&self, name: Seq<char>, parent: isize, curr: usize, d: int)
        requires
            self.insert_ready(name, parent, curr),
            self.data@.len() > 0,
            self.keys()[curr as int] != name,
            d == if lex_less(name, self.keys()[curr as int]) { 0int } else { 1int },
            side(self.links()[curr as int], d) != -1,
        ensures
            self.insert_ready(name, curr as isize, side(self.links()[curr as int], d) as usize),
            0 <= side(self.links()[curr as int], d) < self.data@.len(),
            self.shape@.subtree_at(side(self.links()[curr as int], d) as nat) == child(self.shape@.subtree_at(curr as nat), d),
            child(self.shape@.subtree_at(curr as nat), d).height() < self.shape@.subtree_at(curr as nat).height(),
            (curr as int) < isize::MAX,
    {
        let sh = self.shape@;
        let keys = self.keys();
        lemma_ordered_distinct(sh.inorder(), keys);
        lemma_reached_in(sh, keys, name, curr as nat);
        lemma_subtree_at(sh, curr as nat);
        lemma_subtree_children(sh, curr as nat);
        lemma_reached_step(sh, keys, name, curr as nat);
        lemma_subtree_linked(sh, curr as nat, self.links());
        let t = sh.subtree_at(curr as nat);
        let c = side(self.links()[curr as int], d);
        assert(sh.inorder().contains(c as nat));
        let p = choose|p: int| 0 <= p < sh.inorder().len() && sh.inorder()[p] == c as nat;
        assert(sh.inorder().contains(curr as nat));
        let q = choose|p: int| 0 <= p < sh.inorder().len() && sh.inorder()[p] == curr as nat;
    }

    /// `insert` hung a new leaf for `name` on side `d` of `curr`.
    #[verifier::rlimit(80)]
    proof fn lemma_attached(&self, before: &Self, name: Seq<char>, time: usize, sid: usize, parent: isize, curr: usize, d: int)
        requires
            before.insert_ready(name, parent, curr),
            before.data@.len() > 0,
            before.keys()[curr as int] != name,
            d == if lex_less(name, before.keys()[curr as int]) { 0int } else { 1int },
            side(before.links()[curr as int], d) == -1,
            self.name_store.wf(),
            self.name_store@ == before.name_store@.push(name),
            self.nodes_in_tree == before.data@.len() + 1,
            self.data@.len() == before.data@.len() + 1,
            self.root_index == before.root_index,
            self.shape@ == before.shape@.replace_at(
                curr as nat,
                with_child(before.shape@.subtree_at(curr as nat), d, single(before.data@.len())),
            ),
            forall|i: int| 0 <= i < before.data@.len() && i != curr ==> #[trigger] self.data@[i] == before.data@[i],
            self.data@[curr as int].player_name_index == before.data@[curr as int].player_name_index,
            self.data@[curr as int].sids == before.data@[curr as int].sids,
            self.data@[curr as int].time_banned == before.data@[curr as int].time_banned,
            self.links()[curr as int] == set_side(before.links()[curr as int], d, before.data@.len() as int),
            self.bals()[curr as int] == before.bals()[curr as int] + if d == 1 { 1int } else { -1int },
            self.data@[before.data@.len() as int].player_name_index == before.data@.len(),
            self.data@[before.data@.len() as int].sids@ == seq![sid],
            self.data@[before.data@.len() as int].time_banned == time,
            self.data@[before.data@.len() as int].children@ == seq![-1isize, -1isize],
            self.data@[before.data@.len() as int].balance == 0,
        ensures
            self.pending(
                before,
                name,
                time,
                sid,
                parent,
                curr,
                d,
                with_child(before.shape@.subtree_at(curr as nat), d, single(before.data@.len())),
            ),
    {
        let n = before.data@.len();
        let sh = before.shape@;
        let keys = before.keys();
        let links = before.links();
        let t = sh.subtree_at(curr as nat);
        let leaf = single(n);
        let t1 = with_child(t, d, leaf);
        let keys2 = self.keys();
        let links2 = self.links();
        let sh2 = self.shape@;
        lemma_ordered_distinct(sh.inorder(), keys);
        lemma_reached_in(sh, keys, name, curr as nat);
        assert(curr < n) by {
            let p = choose|p: int| 0 <= p < sh.inorder().len() && sh.inorder()[p] == curr as nat;
        }
        assert(self.data@[n as int].children@[0] == -1 && self.data@[n as int].children@[1] == -1);
        assert(keys2 =~= keys.push(name)) by {
            assert forall|i: int| 0 <= i < keys2.len() implies keys2[i] == keys.push(name)[i] by {
                if i < n && i != curr {
                    assert(self.data@[i] == before.data@[i]);
                }
            }
        }
        assert(links2 =~= links.update(curr as int, set_side(links[curr as int], d, n as int)).push((-1int, -1int))) by {
            assert forall|i: int| 0 <= i < links2.len() implies links2[i] == links.update(curr as int, set_side(links[curr as int], d, n as int)).push((-1int, -1int))[i] by {
                if i < n && i != curr {
                    assert(self.data@[i] == before.data@[i]);
                }
            }
        }
        lemma_attach_leaf(sh, keys, keys2, name, links, links2, curr as nat, d, n);
        lemma_ordered_distinct(sh2.inorder(), keys2);
        lemma_subtree_at(sh, curr as nat);
        lemma_subtree_linked(sh, curr as nat, links);
        lemma_node_contains(t);
        // the records
        assert forall|k: Seq<char>| #[trigger] self.lookup(k) == record_step(before.lookup(k), k, name, time, sid) by {
            if k != name {
                lemma_find(sh, keys, k);
                let f = sh.find(keys, k);
                if f != -1 && f != curr {
                    let q = choose|q: int| 0 <= q < sh.inorder().len() && sh.inorder()[q] == f as nat;
                    assert(self.data@[f] == before.data@[f]);
                }
            }
        }
        // the balances
        let other = child(t, 1 - d);
        lemma_distinct_node(curr as nat, *child_box(t, 0), *child_box(t, 1));
        assert forall|i: int| 0 <= i < n && i != curr implies self.bals()[i] == before.bals()[i] by {
            assert(self.data@[i] == before.data@[i]);
        }
        assert(avl_ok(t, before.bals()));
        assert forall|p: int| 0 <= p < other.inorder().len() implies #[trigger] other.inorder()[p] < self.bals().len() && self.bals()[other.inorder()[p] as int] == before.bals()[other.inorder()[p] as int] by {
            let y = other.inorder()[p];
            assert(other.inorder().contains(y));
            assert(t.inorder().contains(y));
            assert(sh.inorder().contains(y));
            let q = choose|q: int| 0 <= q < sh.inorder().len() && sh.inorder()[q] == y;
        }
        lemma_avl_frame(other, before.bals(), self.bals());
        lemma_node_contains(leaf);
        lemma_node_contains(Shape::Leaf);
        assert(self.bals()[n as int] == 0);
        // the arena
        assert(forall|i: nat| i < self.data@.len() ==> #[trigger] sh2.inorder().contains(i));
        assert(all_below(sh2.inorder(), self.data@.len() as int)) by {
            assert forall|p: int| 0 <= p < sh2.inorder().len() implies #[trigger] sh2.inorder()[p] < self.data@.len() by {
                let y = sh2.inorder()[p];
                assert(sh2.inorder().contains(y));
                if y != n {
                    assert(sh.inorder().contains(y));
                    let q = choose|q: int| 0 <= q < sh.inorder().len() && sh.inorder()[q] == y;
                }
            }
        }
        assert(self.links_valid()) by {
            assert forall|i: int, q: int| 0 <= i < self.data@.len() && 0 <= q < 2 implies #[trigger] self.data@[i].children[q] == -1
                || 0 <= self.data@[i].children[q] < self.data@.len() by {
                if i < n && i != curr {
                    assert(self.data@[i] == before.data@[i]);
                }
            }
        }
        assert forall|i: int| 0 <= i < self.data@.len() implies (#[trigger] self.data@[i]).player_name_index == i by {
            if i < n && i != curr {
                assert(self.data@[i] == before.data@[i]);
            }
        }
        // the links outside the subtree, and the parent's
        assert(agree_outside(sh.inorder(), t.inorder(), parent as int, links, links2)) by {
            assert forall|p: int|
                0 <= p < sh.inorder().len() && !t.inorder().contains(#[trigger] sh.inorder()[p]) && sh.inorder()[p] != parent implies sh.inorder()[p]
                < links2.len() && links2[sh.inorder()[p] as int] == links[sh.inorder()[p] as int] by {
                let y = sh.inorder()[p];
                assert(sh.inorder().contains(y));
                assert(y != curr);
                let q = choose|q: int| 0 <= q < sh.inorder().len() && sh.inorder()[q] == y;
            }
        }
        if parent != -1 {
            lemma_parent_in(sh, curr as nat);
            lemma_parent_link(sh, curr as nat, links);
            assert(parent != curr);
            assert(self.data@[parent as int] == before.data@[parent as int]);
        }
        lemma_replace_root(sh, curr as nat, t1);
        if parent == -1 {
            lemma_no_parent_root(sh, curr as nat);
        }
    }

    /// `insert` took the ban into the subtree on side `d` of `curr` and updated `curr`'s
    /// balance.
    #[verifier::rlimit(80)]
    proof fn lemma_descended(&self, before: &Self, mid: &Self, name: Seq<char>, time: usize, sid: usize, parent: isize, curr: usize, d: int, c: usize)
        requires
            before.insert_ready(name, parent, curr),
            before.data@.len() > 0,
            before.keys()[curr as int] != name,
            d == if lex_less(name, before.keys()[curr as int]) { 0int } else { 1int },
            side(before.links()[curr as int], d) == c,
            before.insert_ready(name, curr as isize, c),
            before.shape@.subtree_at(c as nat) == child(before.shape@.subtree_at(curr as nat), d),
            mid.insert_done(before, name, time, sid, curr as isize, c),
            self.shape == mid.shape,
            self.root_index == mid.root_index,
            self.nodes_in_tree == mid.nodes_in_tree,
            self.name_store == mid.name_store,
            self.data@.len() == mid.data@.len(),
            forall|i: int| 0 <= i < mid.data@.len() && i != curr ==> #[trigger] self.data@[i] == mid.data@[i],
            self.data@[curr as int].player_name_index == mid.data@[curr as int].player_name_index,
            self.data@[curr as int].sids == mid.data@[curr as int].sids,
            self.data@[curr as int].time_banned == mid.data@[curr as int].time_banned,
            self.data@[curr as int].children == mid.data@[curr as int].children,
            self.bals()[curr as int] == mid.bals()[curr as int] + if before.bals()[c as int] == 0 && mid.bals()[c as int] != 0 {
                if d == 1 {
                    1int
                } else {
                    -1int
                }
            } else {
                0int
            },
        ensures
            self.pending(
                before,
                name,
                time,
                sid,
                parent,
                curr,
                d,
                with_child(
                    before.shape@.subtree_at(curr as nat),
                    d,
                    mid.shape@.subtree_at(mid.new_sub_root(before, curr as isize, c) as nat),
                ),
            ),
    {
        let n = before.data@.len();
        let sh = before.shape@;
        let keys = before.keys();
        let t = sh.subtree_at(curr as nat);
        let tc = child(t, d);
        let nr = mid.new_sub_root(before, curr as isize, c);
        let x = mid.shape@.subtree_at(nr as nat);
        let t1 = with_child(t, d, x);
        assert(self.links() =~= mid.links()) by {
            assert forall|i: int| 0 <= i < self.links().len() implies self.links()[i] == mid.links()[i] by {
                if i != curr {
                    assert(self.data@[i] == mid.data@[i]);
                }
            }
        }
        assert(self.keys() =~= mid.keys()) by {
            assert forall|i: int| 0 <= i < self.keys().len() implies self.keys()[i] == mid.keys()[i] by {
                if i != curr {
                    assert(self.data@[i] == mid.data@[i]);
                }
            }
        }
        assert forall|i: int| 0 <= i < self.data@.len() && i != curr implies self.bals()[i] == mid.bals()[i] by {
            assert(self.data@[i] == mid.data@[i]);
        }
        assert forall|k: Seq<char>| #[trigger] self.lookup(k) == mid.lookup(k) by {
            let f = self.shape@.find(self.keys(), k);
            lemma_find(mid.shape@, mid.keys(), k);
            if f != -1 && f != curr {
                let p = choose|p: int| 0 <= p < mid.shape@.inorder().len() && mid.shape@.inorder()[p] == f as nat;
                assert(0 <= f < mid.data@.len());
                assert(self.data@[f] == mid.data@[f]);
            }
        }
        assert(self.links_valid()) by {
            assert forall|i: int, q: int| 0 <= i < self.data@.len() && 0 <= q < 2 implies #[trigger] self.data@[i].children[q] == -1
                || 0 <= self.data@[i].children[q] < self.data@.len() by {
                if i != curr {
                    assert(self.data@[i] == mid.data@[i]);
                }
                assert(mid.links_valid());
            }
        }
        assert forall|i: int| 0 <= i < self.data@.len() implies (#[trigger] self.data@[i]).player_name_index == i by {
            if i != curr {
                assert(self.data@[i] == mid.data@[i]);
            }
        }
        lemma_ordered_distinct(sh.inorder(), keys);
        lemma_reached_in(sh, keys, name, curr as nat);
        lemma_subtree_at(sh, curr as nat);
        lemma_subtree_children(sh, curr as nat);
        lemma_node_contains(t);
        lemma_distinct_node(curr as nat, *child_box(t, 0), *child_box(t, 1));
        lemma_root_in(tc);
        assert(sh.inorder().contains(c as nat));
        lemma_subtree_linked(sh, curr as nat, before.links());
        match t {
            Shape::Node(j, l, r) => {
                assert(before.links()[curr as int] == (l.root(), r.root()));
                assert((if d == 0 { l.root() } else { r.root() }) == c);
            },
            Shape::Leaf => {},
        }
        lemma_replace_nested(sh, curr as nat, d == 0, x);
        lemma_ordered_distinct(mid.shape@.inorder(), mid.keys());
        lemma_replace_disjoint(sh, c as nat, x);
        assert(sh.inorder().contains(curr as nat));
        assert(!tc.inorder().contains(curr as nat));
        assert(!x.inorder().contains(curr as nat));
        lemma_avl_bound(x, mid.bals());
        assert forall|p: int| 0 <= p < x.inorder().len() implies #[trigger] x.inorder()[p] < self.bals().len() && self.bals()[x.inorder()[p] as int] == mid.bals()[x.inorder()[p] as int] by {
            let y = x.inorder()[p];
            assert(x.inorder().contains(y));
        }
        lemma_avl_frame(x, mid.bals(), self.bals());
        let other = child(t, 1 - d);
        assert(avl_ok(t, before.bals()));
        assert forall|p: int| 0 <= p < other.inorder().len() implies #[trigger] other.inorder()[p] < self.bals().len() && self.bals()[other.inorder()[p] as int] == before.bals()[other.inorder()[p] as int] by {
            let y = other.inorder()[p];
            assert(other.inorder().contains(y));
            assert(t.inorder().contains(y));
            assert(sh.inorder().contains(y));
            let q = choose|q: int| 0 <= q < sh.inorder().len() && sh.inorder()[q] == y;
            assert(!tc.inorder().contains(y));
        }
        lemma_avl_frame(other, before.bals(), self.bals());
        assert(mid.bals()[curr as int] == before.bals()[curr as int]) by {
            let q = choose|q: int| 0 <= q < sh.inorder().len() && sh.inorder()[q] == curr as nat;
        }
        assert forall|y: int| 0 <= y < n && !t.inorder().contains(y as nat) implies self.bals()[y] == before.bals()[y] by {
            assert(y != curr);
            assert(!tc.inorder().contains(y as nat));
        }
        assert(agree_outside(sh.inorder(), t.inorder(), parent as int, before.links(), self.links())) by {
            assert forall|p: int|
                0 <= p < sh.inorder().len() && !t.inorder().contains(#[trigger] sh.inorder()[p]) && sh.inorder()[p] != parent implies sh.inorder()[p]
                < self.links().len() && self.links()[sh.inorder()[p] as int] == before.links()[sh.inorder()[p] as int] by {
                let y = sh.inorder()[p];
                assert(y != curr);
                assert(!tc.inorder().contains(y));
            }
        }
        if parent != -1 {
            lemma_parent_in(sh, curr as nat);
            assert(sh.inorder().contains(parent as nat));
            lemma_parent_link(sh, curr as nat, before.links());
            let q = choose|q: int| 0 <= q < sh.inorder().len() && sh.inorder()[q] == parent as nat;
            assert(!tc.inorder().contains(parent as nat));
            assert(parent != curr);
            assert(self.links()[parent as int] == before.links()[parent as int]);
        }
        if x.height() == tc.height() + 1 {
            assert(nr == c);
        }
        assert(self.arranged());
        assert(self.shape@ == before.shape@.replace_at(curr as nat, t1));
        assert(t1 == with_child(t, d, x));
        assert(t is Node);
        assert(x is Node);
        assert(avl_ok(x, self.bals()));
        assert(avl_ok(child(t, 1 - d), self.bals()));
        assert(x.height() == tc.height() || x.height() == tc.height() + 1);
        assert(((self.bals()[curr as int] < -1 || self.bals()[curr as int] > 1) ==> self.bals()[x.root()] != 0));
        assert(self.root() == before.root());
        assert(0 <= d < 2);
        assert(self.data@.len() + 1 <= isize::MAX);
        assert(self.bals()[curr as int] == before.bals()[curr as int] + if x.height() == tc.height() + 1 {
            if d == 1 {
                1int
            } else {
                -1int
            }
        } else {
            0int
        });
    }

    /// An insertion below `curr`'s child `c` leaves `curr`'s balance as it was.
    proof fn lemma_balance_kept(&self, before: &Self, name: Seq<char>, time: usize, sid: usize, parent: isize, curr: usize, d: int, c: usize)
        requires
            before.insert_ready(name, parent, curr),
            before.data@.len() > 0,
            0 <= d < 2,
            before.shape@.subtree_at(c as nat) == child(before.shape@.subtree_at(curr as nat), d),
            self.insert_done(before, name, time, sid, curr as isize, c),
        ensures
            curr < self.data@.len(),
            self.bals()[curr as int] == before.bals()[curr as int],
            -1 <= self.bals()[curr as int] <= 1,
    {
        let sh = before.shape@;
        let keys = before.keys();
        lemma_ordered_distinct(sh.inorder(), keys);
        lemma_reached_in(sh, keys, name, curr as nat);
        lemma_subtree_at(sh, curr as nat);
        let t = sh.subtree_at(curr as nat);
        lemma_node_contains(t);
        match t {
            Shape::Node(j, l, r) => {
                lemma_distinct_node(j, *l, *r);
            },
            Shape::Leaf => {},
        }
        let q = choose|q: int| 0 <= q < sh.inorder().len() && sh.inorder()[q] == curr as nat;
        assert(curr < before.data@.len());
        assert(!child(t, d).inorder().contains(curr as nat));
    }

    /// `insert` found `name` at `curr` and updated its record.
    proof fn lemma_found(&self, before: &Self, name: Seq<char>, time: usize, sid: usize, parent: isize, curr: usize)
        requires
            before.insert_ready(name, parent, curr),
            before.data@.len() > 0,
            before.keys()[curr as int] == name,
            self.shape == before.shape,
            self.root_index == before.root_index,
            self.nodes_in_tree == before.nodes_in_tree,
            self.name_store == before.name_store,
            self.data@.len() == before.data@.len(),
            forall|i: int| 0 <= i < self.data@.len() && i != curr ==> #[trigger] self.data@[i] == before.data@[i],
            self.data@[curr as int].player_name_index == before.data@[curr as int].player_name_index,
            self.data@[curr as int].children == before.data@[curr as int].children,
            self.data@[curr as int].balance == before.data@[curr as int].balance,
            self.data@[curr as int].sids@ == (if before.data@[curr as int].sids@.contains(sid) {
                before.data@[curr as int].sids@
            } else {
                before.data@[curr as int].sids@.push(sid)
            }),
            self.data@[curr as int].time_banned == (if time > before.data@[curr as int].time_banned {
                time
            } else {
                before.data@[curr as int].time_banned
            }),
        ensures
            self.insert_done(before, name, time, sid, parent, curr),
    {
        let sh = before.shape@;
        let keys = before.keys();
        assert(self.links() =~= before.links());
        assert(self.keys() =~= keys);
        assert(self.bals() =~= before.bals());
        lemma_ordered_distinct(sh.inorder(), keys);
        lemma_reached_in(sh, keys, name, curr as nat);
        lemma_subtree_at(sh, curr as nat);
        lemma_reached_step(sh, keys, name, curr as nat);
        let t = sh.subtree_at(curr as nat);
        assert(t.find(keys, name) == curr);
        match t {
            Shape::Node(j, l, r) => {
                assert(j == curr);
                assert(avl_inserted(t, keys, name, before.data@.len()) == t);
            },
            Shape::Leaf => {},
        }
        assert forall|k: Seq<char>| #[trigger] self.lookup(k) == record_step(before.lookup(k), k, name, time, sid) by {
            lemma_find(sh, keys, k);
        }
        if parent == -1 {
            lemma_no_parent_root(sh, curr as nat);
        } else {
            lemma_parent_link(sh, curr as nat, before.links());
        }
    }

    /// An empty tree with room for `capacity` players (64 when `capacity` is 0).
    pub fn new(capacity: usize) -> (tree: Self)
        ensures
            tree.wf(),
            tree.count() == 0,
            tree.tree() == Shape::Leaf,
            tree.keys() == Seq::<Seq<char>>::empty(),
            tree.root() == 0,
            forall|k: Seq<char>| tree.lookup(k) is None,
    {
        let capacity = if capacity == 0 {
            64
        } else {
            capacity
        };
        let tree = TreeAVL {
            nodes_in_tree: 0,
            root_index: 0,
            data: Vec::with_capacity(capacity),
            name_store: NameContainer::new(capacity),
            shape: Ghost(Shape::Leaf),
        };
        proof {
            lemma_node_contains(Shape::Leaf);
        }
        tree
    }

    /// The name of node `i`.
    fn name_of(&self, i: usize) -> (c: Vec<char>)
        requires
            self.arranged(),
            i < self.data@.len(),
        ensures
            c@ == self.keys()[i as int],
    {
        self.name_store.name_chars(self.data[i].player_name_index)
    }

    /// Where a search for `search_name` from node `index` ends: the node holding the name, or
    /// -1 if the subtree at `index` lacks it (-1 for `index` -1).
    pub fn search(&self, search_name: &str, index: isize) -> (found: isize)
        requires
            self.arranged(),
            index == -1 || (0 <= index && index < self.count()),
        ensures
            index == -1 ==> found == -1,
            index != -1 ==> found == self.tree().subtree_at(index as nat).find(self.keys(), search_name@),
            index != -1 && index == self.root() ==> found == self.tree().find(self.keys(), search_name@),
    {
        proof {
            if index != -1 {
                assert(self.shape@.inorder().contains(index as nat));
                if index == self.root() {
                    match self.shape@ {
                        Shape::Node(j, l, r) => {
                            assert(j == self.root_index);
                        },
                        Shape::Leaf => {},
                    }
                }
            }
        }
        let name = chars_of(search_name);
        self.search_from(&name, index)
    }

    fn search_from(&self, name: &Vec<char>, index: isize) -> (found: isize)
        requires
            self.arranged(),
            index == -1 || (index >= 0 && self.tree().inorder().contains(index as nat)),
        ensures
            index == -1 ==> found == -1,
            index != -1 ==> found == self.tree().subtree_at(index as nat).find(self.keys(), name@),
        decreases if index == -1 {
            0
        } else {
            self.tree().subtree_at(index as nat).height() + 1
        },
    {
        if index == -1 {
            return index;
        }
        let i = index as usize;
        proof {
            lemma_ordered_distinct(self.shape@.inorder(), self.keys());
            lemma_subtree_children(self.shape@, i as nat);
            lemma_subtree_at(self.shape@, i as nat);
            lemma_subtree_linked(self.shape@, i as nat, self.links());
            assert(self.data@[i as int].children[0] as int == self.links()[i as int].0);
        }
        let node_name = self.name_of(i);
        if chars_equal(name, &node_name) {
            return index;
        }
        let left_right_index: usize = if chars_less(&node_name, name) {
            1
        } else {
            0
        };
        proof {
            lemma_lex_total(name@, node_name@);
            lemma_lex_asymmetric(name@, node_name@);
        }
        let next = self.data[i].children[left_right_index];
        proof {
            let sub = self.shape@.subtree_at(i as nat);
            match sub {
                Shape::Node(_, l, r) => {
                    assert(self.links()[i as int] == (l.root(), r.root()));
                    assert(next as int == if left_right_index == 1 {
                        r.root()
                    } else {
                        l.root()
                    });
                },
                Shape::Leaf => {},
            }
        }
        let found = self.search_from(name, next);
        proof {
            let sub = self.shape@.subtree_at(i as nat);
            assert(sub.root() == i);
            match sub {
                Shape::Node(j, l, r) => {
                    assert(j == i);
                    assert(name@ != self.keys()[i as int]);
                    assert(left_right_index == 1 <==> !lex_less(name@, self.keys()[i as int]));
                    assert(sub.find(self.keys(), name@) == if lex_less(name@, self.keys()[i as int]) {
                        l.find(self.keys(), name@)
                    } else {
                        r.find(self.keys(), name@)
                    });
                    if left_right_index == 1 {
                        if r.root() == -1 {
                            assert(*r is Leaf);
                        } else {
                            assert(found == r.find(self.keys(), name@));
                        }
                    } else {
                        if l.root() == -1 {
                            assert(*l is Leaf);
                        } else {
                            assert(found == l.find(self.keys(), name@));
                        }
                    }
                },
                Shape::Leaf => {},
            }
        }
        found
    }

    /// The index of the root node.
    pub fn root_node(&self) -> (r: usize)
        ensures
            r == self.root(),
    {
        self.root_index
    }

    /// A well-formed AVL tree holds each of its players once, their names strictly
    /// increasing from left to right; every node's balance is the height of its right
    /// subtree less that of its left one and lies in -1..=1, so its two subtrees differ in
    /// height by at most one; and a player has a record exactly when a search finds them.
    pub proof fn lemma_wf_shape(&self)
        requires
            self.wf(),
        ensures
            height_balanced(self.tree()),
            avl_ok(self.tree(), self.bals()),
            ordered(self.tree().inorder(), self.keys()),
            self.tree().inorder().len() == self.count(),
            forall|i: nat| i < self.count() ==> #[trigger] self.tree().inorder().contains(i),
            forall|k: Seq<char>| (#[trigger] self.lookup(k) is Some) <==> self.tree().find(self.keys(), k) != -1,
    {
        lemma_avl_ok_balanced(self.shape@, self.bals());
    }

    /// A well-formed tree is ready for an insertion from its root.
    pub proof fn lemma_root_ready(&self, name: Seq<char>)
        requires
            self.wf(),
            self.count() + 1 < isize::MAX,
        ensures
            self.insert_ready(name, -1isize, self.root() as usize),
    {
        if self.data@.len() > 0 {
            let sh = self.shape@;
            assert(sh.inorder().contains(0));
            match sh {
                Shape::Node(i, l, r) => {
                    assert(i == self.root_index);
                },
                Shape::Leaf => {},
            }
        }
    }

    /// After an insertion from the root, the tree is well formed again.
    pub proof fn lemma_root_done(&self, before: &Self, name: Seq<char>, time: usize, sid: usize)
        requires
            before.wf(),
            self.insert_done(before, name, time, sid, -1isize, before.root() as usize),
        ensures
            self.wf(),
    {
        if before.data@.len() > 0 {
            let sh = before.shape@;
            assert(sh.inorder().contains(0));
            match sh {
                Shape::Node(i, l, r) => {
                    assert(i == before.root_index);
                    assert(sh.subtree_at(i) == sh);
                },
                Shape::Leaf => {},
            }
        }
    }

    /// Records the bans of the griefer list `griefers` (white-space separated entries of a
    /// name, a server and a ban time) in order, each inserted from the root.
    #[verifier::rlimit(80)]
    pub fn parse_griefers_and_insert(&mut self, griefers: String)
        requires
            old(self).wf(),
            rows_parse(ws_tokens(griefers@)),
            old(self).count() + griefer_rows(ws_tokens(griefers@)).len() < isize::MAX,
        ensures
            final(self).wf(),
            forall|k: Seq<char>| #[trigger] final(self).lookup(k) == record_after_rows(old(self).lookup(k), griefer_rows(ws_tokens(griefers@)), k),
            (final(self).tree(), final(self).keys()) == avl_after_rows(old(self).tree(), old(self).keys(), griefer_rows(ws_tokens(griefers@))),
    {
        let ghost before = *self;
        let ghost rs = griefer_rows(ws_tokens(griefers@));
        let rows = match read_griefer_rows(griefers.as_str()) {
            Some(v) => v,
            None => {
                return;
            },
        };
        assert(rows@.len() == rs.len()) by {
            assert(rows@.map_values(|g: GrieferRow| row_view(g)).len() == rs.len());
        }
        let n = rows.len();
        let mut row: usize = 0;
        while row < n
            invariant
                n == rows@.len(),
                n == rs.len(),
                row <= n,
                rows@.map_values(|g: GrieferRow| row_view(g)) == rs,
                self.wf(),
                self.count() <= before.count() + row,
                before.count() + n < isize::MAX,
                forall|k: Seq<char>| #[trigger] self.lookup(k) == record_after_rows(before.lookup(k), rs.take(row as int), k),
                (self.tree(), self.keys()) == avl_after_rows(before.tree(), before.keys(), rs.take(row as int)),
            decreases n - row,
        {
            let entry = &rows[row];
            assert(row_view(*entry) == rs[row as int]);
            let ghost prev = *self;
            proof {
                prev.lemma_root_ready(entry.name@);
            }
            self.insert(entry.name.as_str(), entry.ban_time, entry.sid, -1, self.root_index);
            proof {
                self.lemma_root_done(&prev, entry.name@, entry.ban_time, entry.sid);
                assert(rs.take(row + 1).drop_last() =~= rs.take(row as int));
                assert forall|k: Seq<char>| #[trigger] self.lookup(k) == record_after_rows(before.lookup(k), rs.take(row + 1), k) by {
                    assert(rs.take(row + 1).last() == rs[row as int]);
                }
                // the insertion from the root gives the tree the whole insertion
                let sh0 = prev.shape@;
                let x = avl_inserted(sh0, prev.keys(), entry.name@, prev.data@.len());
                if prev.data@.len() > 0 {
                    assert(sh0.inorder().contains(0));
                    match sh0 {
                        Shape::Node(i, l, r) => {
                            assert(i == prev.root_index);
                            assert(sh0.subtree_at(i) == sh0);
                            assert(sh0.replace_at(i, x) == x);
                        },
                        Shape::Leaf => {},
                    }
                }
                assert(rs.take(row + 1).last() == rs[row as int]);
                assert(self.tree() == x);
                assert((self.tree(), self.keys()) == avl_after_rows(before.tree(), before.keys(), rs.take(row + 1)));
            }
            row += 1;
        }
        assert(rs.take(n as int) =~= rs);
    }

    /// Appends to `output` the report line of each queried player in `search_names`, in
    /// order: how many servers banned them and when last, or that they are not banned.
    #[verifier::rlimit(80)]
    pub fn search_names(&self, output: &mut String, search_names: &Vec<&str>)
        requires
            self.wf(),
        ensures
            final(output)@ == old(output)@ + ban_report(|k: Seq<char>| self.lookup(k), search_names@.map_values(|s: &str| s@)),
    {
        let ghost names = search_names@.map_values(|s: &str| s@);
        let ghost records = |k: Seq<char>| self.lookup(k);
        let size = search_names.len();
        let mut i: usize = 0;
        while i < size
            invariant
                size == search_names@.len(),
                names == search_names@.map_values(|s: &str| s@),
                records == (|k: Seq<char>| self.lookup(k)),
                i <= size,
                self.wf(),
                output@ == old(output)@ + ban_report(records, names.take(i as int)),
            decreases size - i,
        {
            let start: isize = if self.nodes_in_tree == 0 {
                -1
            } else {
                self.root_index as isize
            };
            let search_index = self.search(search_names[i], start);
            proof {
                let sh = self.shape@;
                match sh {
                    Shape::Node(j, l, r) => {
                        assert(j == self.root_index);
                    },
                    Shape::Leaf => {},
                }
                assert(sh.subtree_at(self.root_index as nat) == sh);
                lemma_find(sh, self.keys(), names[i as int]);
                assert(names.take(i + 1).drop_last() =~= names.take(i as int));
                assert(names.take(i + 1).last() == search_names[i as int]@);
            }
            if search_index != -1 {
                proof {
                    let p = choose|p: int| 0 <= p < self.shape@.inorder().len() && self.shape@.inorder()[p] == search_index as nat;
                }
                let ban_count = self.data[search_index as usize].sids.len();
                let ban_time = self.data[search_index as usize].time_banned;
                write_banned(output, search_names[i], ban_count, ban_time);
            } else {
                write_not_banned(output, search_names[i]);
            }
            i += 1;
        }
        assert(names.take(size as int) =~= names);
    }
}

/// The height of the root's right subtree less that of its left one.
pub open spec fn tilt(t: Shape) -> int {
    match t {
        Shape::Leaf => 0,
        Shape::Node(_, l, r) => r.height() - l.height(),
    }
}

/// The tree with its root's balance restored after an insertion below it: a single rotation
/// when the taller child leans the same way as the root, a double one when it leans the
/// other way; a tree within balance stays as it is.
pub open spec fn rebalanced(t: Shape) -> Shape {
    let b = tilt(t);
    if b < -1 {
        let lb = tilt(child(t, 0));
        if lb <= -1 {
            rotate_shape(t, 1)
        } else if lb >= 1 {
            double_rotate_shape(t, 0)
        } else {
            t
        }
    } else if b > 1 {
        let rb = tilt(child(t, 1));
        if rb >= 1 {
            rotate_shape(t, 0)
        } else if rb <= -1 {
            double_rotate_shape(t, 1)
        } else {
            t
        }
    } else {
        t
    }
}

/// The AVL tree `t` with the name `k` inserted as node `n`: a new leaf where the search for
/// `k` ends, and each subtree on the way back up rebalanced; unchanged when `k` is held.
pub open spec fn avl_inserted(t: Shape, keys: Seq<Seq<char>>, k: Seq<char>, n: nat) -> Shape
    decreases t,
{
    match t {
        Shape::Leaf => single(n),
        Shape::Node(i, l, r) => {
            if k == keys[i as int] {
                t
            } else if lex_less(k, keys[i as int]) {
                rebalanced(Shape::Node(i, Box::new(avl_inserted(*l, keys, k, n)), r))
            } else {
                rebalanced(Shape::Node(i, l, Box::new(avl_inserted(*r, keys, k, n))))
            }
        },
    }
}

/// The AVL tree `t` with names `keys` after the entries `rows` are recorded in order, each
/// name inserted from the root and a new name becoming the next node; with the names after.
pub open spec fn avl_after_rows(t: Shape, keys: Seq<Seq<char>>, rows: Seq<RowSpec>) -> (Shape, Seq<Seq<char>>)
    decreases rows.len(),
{
    if rows.len() == 0 {
        (t, keys)
    } else {
        let (t0, k0) = avl_after_rows(t, keys, rows.drop_last());
        let name = rows.last().name;
        let k1 = if t0.find(k0, name) != -1 {
            k0
        } else {
            k0.push(name)
        };
        (avl_inserted(t0, k0, name, k0.len()), k1)
    }
}

/// The links after rotating the subtree at `o` towards side `d`: its child on the other side
/// `c` takes its place, `o` takes `c`'s child on side `d`, and becomes that child of `c`.
pub open spec fn rotated_links(links: Seq<(int, int)>, o: int, d: int) -> Seq<(int, int)> {
    let e = 1 - d;
    let c = side(links[o], e);
    let l1 = links.update(o, set_side(links[o], e, side(links[c], d)));
    l1.update(c, set_side(l1[c], d, o))
}

/// The links after a double rotation at `o` for an insertion on side `t`: `o`'s child `c` on
/// side `t` is rotated towards `t`, then `o` towards the other side.
pub open spec fn double_rotated_links(links: Seq<(int, int)>, o: int, t: int) -> Seq<(int, int)> {
    let c = side(links[o], t);
    let g = side(links[c], 1 - t);
    let l1 = rotated_links(links, c, t);
    let l2 = l1.update(o, set_side(l1[o], t, g));
    rotated_links(l2, o, 1 - t)
}

/// The balances after a double rotation that made `g` the root with children `left` and
/// `right`: they follow from `g`'s balance before, and `g` ends balanced.
pub open spec fn double_rotated_bals(bals: Seq<int>, g: int, left: int, right: int) -> Seq<int> {
    let b = bals[g];
    if b == 0 {
        bals.update(left, 0).update(right, 0)
    } else if b > 0 {
        bals.update(left, -1).update(right, 0).update(g, 0)
    } else {
        bals.update(left, 0).update(right, 1).update(g, 0)
    }
}

/// The tree rotated towards side `d` (0 left, 1 right): the root's child on the other side
/// takes its place. A tree without that child stays as it is.
pub open spec fn rotate_shape(t: Shape, d: int) -> Shape {
    match t {
        Shape::Leaf => t,
        Shape::Node(o, l, r) => {
            if d == 0 {
                match *r {
                    Shape::Node(c, b, cc) => Shape::Node(c, Box::new(Shape::Node(o, l, b)), cc),
                    Shape::Leaf => t,
                }
            } else {
                match *l {
                    Shape::Node(c, a, b) => Shape::Node(c, a, Box::new(Shape::Node(o, b, r))),
                    Shape::Leaf => t,
                }
            }
        },
    }
}

/// The tree after a double rotation for an insertion on side `t`: the child on side `t` is
/// rotated towards `t`, then the root towards the other side.
pub open spec fn double_rotate_shape(tr: Shape, t: int) -> Shape {
    rotate_shape(with_child(tr, t, rotate_shape(child(tr, t), t)), 1 - t)
}

/// A rotation keeps the order of the nodes and the tree linked under the rotated links.
pub proof fn lemma_rotate_linked(t: Shape, links: Seq<(int, int)>, d: int)
    requires
        0 <= d < 2,
        t.linked(links),
        t.inorder().no_duplicates(),
        child(t, 1 - d) is Node,
    ensures
        rotate_shape(t, d).linked(rotated_links(links, t.root(), d)),
        rotate_shape(t, d).inorder() == t.inorder(),
        rotate_shape(t, d).root() == child(t, 1 - d).root(),
        rotated_links(links, t.root(), d).len() == links.len(),
{
    match t {
        Shape::Leaf => {},
        Shape::Node(o, l, r) => {
            lemma_node_contains(t);
            lemma_distinct_node(o, *l, *r);
            lemma_linked_bound(*l, links);
            lemma_linked_bound(*r, links);
            let nl = rotated_links(links, o as int, d);
            if d == 0 {
                match *r {
                    Shape::Node(c, b, cc) => {
                        lemma_node_contains(*r);
                        lemma_distinct_node(c, *b, *cc);
                        assert(r.inorder().contains(c));
                        assert(c != o);
                        assert(links[o as int] == (l.root(), c as int));
                        assert(r.linked(links));
                        assert((*r).linked(links));
                        assert(links[c as int] == (b.root(), cc.root()));
                        assert(side(links[o as int], 1 - d) == c as int);
                        assert(side(links[c as int], d) == b.root());
                        assert(nl[o as int] == (l.root(), b.root()));
                        assert(nl[c as int] == (o as int, cc.root()));
                        assert forall|p: int| 0 <= p < l.inorder().len() implies #[trigger] l.inorder()[p] < nl.len() && nl[l.inorder()[p] as int] == links[l.inorder()[p] as int] by {
                            assert(l.inorder().contains(l.inorder()[p]));
                            assert(!r.inorder().contains(l.inorder()[p]));
                        }
                        assert forall|p: int| 0 <= p < b.inorder().len() implies #[trigger] b.inorder()[p] < nl.len() && nl[b.inorder()[p] as int] == links[b.inorder()[p] as int] by {
                            assert(b.inorder().contains(b.inorder()[p]));
                            assert(r.inorder().contains(b.inorder()[p]));
                        }
                        assert forall|p: int| 0 <= p < cc.inorder().len() implies #[trigger] cc.inorder()[p] < nl.len() && nl[cc.inorder()[p] as int] == links[cc.inorder()[p] as int] by {
                            assert(cc.inorder().contains(cc.inorder()[p]));
                            assert(r.inorder().contains(cc.inorder()[p]));
                        }
                        lemma_linked_frame(*l, links, nl);
                        lemma_linked_frame(*b, links, nl);
                        lemma_linked_frame(*cc, links, nl);
                        let inner = Shape::Node(o, l, b);
                        assert(rotate_shape(t, d) == Shape::Node(c, Box::new(inner), cc));
                        assert(inner.linked(nl));
                        assert(Shape::Node(c, Box::new(inner), cc).linked(nl));
                        lemma_node_contains(inner);
                        lemma_node_contains(rotate_shape(t, d));
                        assert(rotate_shape(t, d).inorder() =~= t.inorder());
                    },
                    Shape::Leaf => {},
                }
            } else {
                match *l {
                    Shape::Node(c, a, b) => {
                        lemma_node_contains(*l);
                        lemma_distinct_node(c, *a, *b);
                        assert(l.inorder().contains(c));
                        assert(c != o);
                        assert(links[o as int] == (c as int, r.root()));
                        assert(l.linked(links));
                        assert((*l).linked(links));
                        assert(links[c as int] == (a.root(), b.root()));
                        assert(side(links[o as int], 1 - d) == c as int);
                        assert(side(links[c as int], d) == b.root());
                        assert(nl[o as int] == (b.root(), r.root()));
                        assert(nl[c as int] == (a.root(), o as int));
                        assert forall|p: int| 0 <= p < r.inorder().len() implies #[trigger] r.inorder()[p] < nl.len() && nl[r.inorder()[p] as int] == links[r.inorder()[p] as int] by {
                            assert(r.inorder().contains(r.inorder()[p]));
                            assert(!l.inorder().contains(r.inorder()[p]));
                        }
                        assert forall|p: int| 0 <= p < b.inorder().len() implies #[trigger] b.inorder()[p] < nl.len() && nl[b.inorder()[p] as int] == links[b.inorder()[p] as int] by {
                            assert(b.inorder().contains(b.inorder()[p]));
                            assert(l.inorder().contains(b.inorder()[p]));
                            assert(b.inorder()[p] != c);
                        }
                        assert forall|p: int| 0 <= p < a.inorder().len() implies #[trigger] a.inorder()[p] < nl.len() && nl[a.inorder()[p] as int] == links[a.inorder()[p] as int] by {
                            assert(a.inorder().contains(a.inorder()[p]));
                            assert(l.inorder().contains(a.inorder()[p]));
                        }
                        lemma_linked_frame(*r, links, nl);
                        lemma_linked_frame(*b, links, nl);
                        lemma_linked_frame(*a, links, nl);
                        let inner = Shape::Node(o, b, r);
                        assert(rotate_shape(t, d) == Shape::Node(c, a, Box::new(inner)));
                        assert(inner.linked(nl));
                        assert(Shape::Node(c, a, Box::new(inner)).linked(nl));
                        lemma_node_contains(inner);
                        lemma_node_contains(rotate_shape(t, d));
                        assert(rotate_shape(t, d).inorder() =~= t.inorder());
                    },
                    Shape::Leaf => {},
                }
            }
        },
    }
}

/// Balances that differ only outside a tree keep it balanced.
proof fn lemma_avl_keep(t: Shape, bals: Seq<int>, bals2: Seq<int>, outside: Set<nat>)
    requires
        avl_ok(t, bals),
        bals2.len() == bals.len(),
        forall|i: int| 0 <= i < bals.len() && !outside.contains(i as nat) ==> bals2[i] == bals[i],
        forall|y: nat| t.inorder().contains(y) ==> !outside.contains(y),
    ensures
        avl_ok(t, bals2),
{
    lemma_avl_bound(t, bals);
    assert forall|p: int| 0 <= p < t.inorder().len() implies #[trigger] t.inorder()[p] < bals2.len() && bals2[t.inorder()[p] as int] == bals[t.inorder()[p] as int] by {
        assert(t.inorder().contains(t.inorder()[p]));
    }
    lemma_avl_frame(t, bals, bals2);
}

/// The nodes of a balanced tree all have balances.
proof fn lemma_avl_bound(t: Shape, bals: Seq<int>)
    requires
        avl_ok(t, bals),
    ensures
        forall|p: int| 0 <= p < t.inorder().len() ==> #[trigger] t.inorder()[p] < bals.len(),
    decreases t,
{
    match t {
        Shape::Leaf => {},
        Shape::Node(i, l, r) => {
            lemma_avl_bound(*l, bals);
            lemma_avl_bound(*r, bals);
            lemma_node_contains(t);
            let s = t.inorder();
            let li = l.inorder();
            assert forall|p: int| 0 <= p < s.len() implies #[trigger] s[p] < bals.len() by {
                if p < li.len() {
                    assert(s[p] == li[p]);
                } else if p > li.len() {
                    assert(s[p] == r.inorder()[p - li.len() - 1]);
                }
            }
        },
    }
}

/// A single rotation after an insertion made the outer grandchild too tall: the rotated tree
/// is balanced, with both rotated nodes at balance 0, and as tall as before the insertion.
pub proof fn lemma_single_rotation_avl(t: Shape, bals: Seq<int>, s: int)
    requires
        0 <= s < 2,
        t.inorder().no_duplicates(),
        t matches Shape::Node(o, l, r) && child(t, s) matches Shape::Node(c, x, y) && {
            &&& avl_ok(child(t, s), bals)
            &&& avl_ok(child(t, 1 - s), bals)
            &&& child(t, s).height() == child(t, 1 - s).height() + 2
            &&& bals[c as int] == if s == 0 { -1int } else { 1int }
            &&& o < bals.len()
        },
    ensures
        avl_ok(rotate_shape(t, 1 - s), bals.update(t.root(), 0).update(child(t, s).root(), 0)),
        rotate_shape(t, 1 - s).height() == child(t, 1 - s).height() + 2,
{
    match t {
        Shape::Node(o, l, r) => {
            lemma_node_contains(t);
            lemma_distinct_node(o, *l, *r);
            let b2 = bals.update(o as int, 0).update(child(t, s).root(), 0);
            if s == 0 {
                match *l {
                    Shape::Node(c, x, y) => {
                        lemma_node_contains(*l);
                        lemma_distinct_node(c, *x, *y);
                        let out = set![o, c];
                        assert(c != o);
                        lemma_avl_keep(*x, bals, b2, out);
                        lemma_avl_keep(*y, bals, b2, out);
                        lemma_avl_keep(*r, bals, b2, out);
                        let inner = Shape::Node(o, y, r);
                        assert(avl_ok(*l, bals));
                        assert(bals[c as int] == y.height() - x.height());
                        assert(l.height() == 1 + x.height());
                        assert(x.height() == r.height() + 1);
                        assert(inner.height() == 1 + r.height());
                        assert(b2[o as int] == 0 && b2[c as int] == 0);
                        assert(avl_ok(inner, b2));
                        assert(avl_ok(Shape::Node(c, x, Box::new(inner)), b2));
                        assert(rotate_shape(t, 1 - s) == Shape::Node(c, x, Box::new(inner)));
                    },
                    Shape::Leaf => {},
                }
            } else {
                match *r {
                    Shape::Node(c, x, y) => {
                        lemma_node_contains(*r);
                        lemma_distinct_node(c, *x, *y);
                        let out = set![o, c];
                        assert(c != o);
                        lemma_avl_keep(*x, bals, b2, out);
                        lemma_avl_keep(*y, bals, b2, out);
                        lemma_avl_keep(*l, bals, b2, out);
                        let inner = Shape::Node(o, l, x);
                        assert(avl_ok(*r, bals));
                        assert(bals[c as int] == y.height() - x.height());
                        assert(r.height() == 1 + y.height());
                        assert(y.height() == l.height() + 1);
                        assert(inner.height() == 1 + l.height());
                        assert(b2[o as int] == 0 && b2[c as int] == 0);
                        assert(avl_ok(inner, b2));
                        assert(avl_ok(Shape::Node(c, Box::new(inner), y), b2));
                        assert(rotate_shape(t, 1 - s) == Shape::Node(c, Box::new(inner), y));
                    },
                    Shape::Leaf => {},
                }
            }
        },
        Shape::Leaf => {},
    }
}

/// A double rotation keeps the order of the nodes and the tree linked under the links of the
/// double rotation.
pub proof fn lemma_double_rotation_linked(t: Shape, links: Seq<(int, int)>, s: int)
    requires
        0 <= s < 2,
        t.linked(links),
        t.inorder().no_duplicates(),
        child(t, s) is Node,
        child(child(t, s), 1 - s) is Node,
    ensures
        double_rotate_shape(t, s).linked(double_rotated_links(links, t.root(), s)),
        double_rotate_shape(t, s).inorder() == t.inorder(),
        double_rotate_shape(t, s).root() == child(child(t, s), 1 - s).root(),
{
    match t {
        Shape::Node(o, l, r) => {
            lemma_node_contains(t);
            lemma_distinct_node(o, *l, *r);
            let ct = child(t, s);
            let ot = child(t, 1 - s);
            match ct {
                Shape::Node(c, cl, cr) => {
                    lemma_node_contains(ct);
                    lemma_distinct_node(c, *cl, *cr);
                    let g = child(ct, 1 - s).root();
                    lemma_root_in(child(ct, 1 - s));
                    assert(ct.linked(links));
                    assert(links[o as int] == (l.root(), r.root()));
                    assert(side(links[o as int], s) == c as int);
                    assert(side(links[c as int], 1 - s) == g);
                    lemma_rotate_linked(ct, links, s);
                    let c2 = rotate_shape(ct, s);
                    let l1 = rotated_links(links, c as int, s);
                    assert(c2.root() == g);
                    assert(c != o);
                    assert(ct.inorder().contains(g as nat));
                    assert(g != o);
                    let l2 = l1.update(o as int, set_side(l1[o as int], s, g));
                    assert(l1[o as int] == links[o as int]);
                    lemma_linked_bound(ct, links);
                    lemma_linked_bound(ot, links);
                    assert forall|p: int| 0 <= p < c2.inorder().len() implies #[trigger] c2.inorder()[p] < l2.len() && l2[c2.inorder()[p] as int] == l1[c2.inorder()[p] as int] by {
                        assert(c2.inorder().contains(c2.inorder()[p]));
                        assert(ct.inorder().contains(c2.inorder()[p]));
                    }
                    lemma_linked_frame(c2, l1, l2);
                    assert forall|p: int| 0 <= p < ot.inorder().len() implies #[trigger] ot.inorder()[p] < l2.len() && l2[ot.inorder()[p] as int] == links[ot.inorder()[p] as int] by {
                        let y = ot.inorder()[p];
                        assert(ot.inorder().contains(y));
                        assert(!ct.inorder().contains(y));
                        assert(y != c);
                        assert(y != g as nat);
                    }
                    lemma_linked_frame(ot, links, l2);
                    let t1 = with_child(t, s, c2);
                    lemma_node_contains(t1);
                    assert(t1.inorder() =~= t.inorder());
                    assert(t1.linked(l2));
                    lemma_rotate_linked(t1, l2, 1 - s);
                },
                Shape::Leaf => {},
            }
        },
        Shape::Leaf => {},
    }
}

/// A double rotation after an insertion made the inner grandchild too tall: the rotated tree
/// is balanced under the double rotation's balances and as tall as before the insertion.
pub proof fn lemma_double_rotation_avl(t: Shape, bals: Seq<int>, s: int)
    requires
        0 <= s < 2,
        t.inorder().no_duplicates(),
        t matches Shape::Node(o, l, r) && child(t, s) matches Shape::Node(c, x, y) && child(child(t, s), 1 - s) is Node && {
            &&& avl_ok(child(t, s), bals)
            &&& avl_ok(child(t, 1 - s), bals)
            &&& child(t, s).height() == child(t, 1 - s).height() + 2
            &&& bals[c as int] == if s == 0 { 1int } else { -1int }
            &&& o < bals.len()
        },
    ensures
        double_rotate_shape(t, s) matches Shape::Node(g, nl, nr) && avl_ok(
            double_rotate_shape(t, s),
            double_rotated_bals(bals, g as int, nl.root(), nr.root()),
        ) && nl.root() == (if s == 0 { child(t, s).root() } else { t.root() }) && nr.root() == (if s == 0 {
            t.root()
        } else {
            child(t, s).root()
        }),
        double_rotate_shape(t, s).height() == child(t, 1 - s).height() + 2,
{
    match t {
        Shape::Node(o, l, r) => {
            lemma_node_contains(t);
            lemma_distinct_node(o, *l, *r);
            if s == 0 {
                match *l {
                    Shape::Node(c, x, gt) => {
                        lemma_node_contains(*l);
                        lemma_distinct_node(c, *x, *gt);
                        match *gt {
                            Shape::Node(g, g1, g2) => {
                                lemma_node_contains(*gt);
                                lemma_distinct_node(g, *g1, *g2);
                                assert(avl_ok(*l, bals));
                                assert(avl_ok(*gt, bals));
                                let bg = bals[g as int];
                                let b2 = double_rotated_bals(bals, g as int, c as int, o as int);
                                let out = set![o, c, g];
                                lemma_avl_keep(*x, bals, b2, out);
                                lemma_avl_keep(*g1, bals, b2, out);
                                lemma_avl_keep(*g2, bals, b2, out);
                                lemma_avl_keep(*r, bals, b2, out);
                                let left = Shape::Node(c, x, g1);
                                let right = Shape::Node(o, g2, r);
                                assert(double_rotate_shape(t, s) == Shape::Node(g, Box::new(left), Box::new(right)));
                                assert(avl_ok(left, b2));
                                assert(avl_ok(right, b2));
                                assert(avl_ok(Shape::Node(g, Box::new(left), Box::new(right)), b2));
                            },
                            Shape::Leaf => {},
                        }
                    },
                    Shape::Leaf => {},
                }
            } else {
                match *r {
                    Shape::Node(c, gt, y) => {
                        lemma_node_contains(*r);
                        lemma_distinct_node(c, *gt, *y);
                        match *gt {
                            Shape::Node(g, g1, g2) => {
                                lemma_node_contains(*gt);
                                lemma_distinct_node(g, *g1, *g2);
                                assert(avl_ok(*r, bals));
                                assert(avl_ok(*gt, bals));
                                let b2 = double_rotated_bals(bals, g as int, o as int, c as int);
                                let out = set![o, c, g];
                                lemma_avl_keep(*y, bals, b2, out);
                                lemma_avl_keep(*g1, bals, b2, out);
                                lemma_avl_keep(*g2, bals, b2, out);
                                lemma_avl_keep(*l, bals, b2, out);
                                let left = Shape::Node(o, l, g1);
                                let right = Shape::Node(c, g2, y);
                                assert(double_rotate_shape(t, s) == Shape::Node(g, Box::new(left), Box::new(right)));
                                assert(avl_ok(left, b2));
                                assert(avl_ok(right, b2));
                                assert(avl_ok(Shape::Node(g, Box::new(left), Box::new(right)), b2));
                            },
                            Shape::Leaf => {},
                        }
                    },
                    Shape::Leaf => {},
                }
            }
        },
        Shape::Leaf => {},
    }
}

/// Before a double rotation: the child on side `t` and its child on the other side exist.
pub proof fn lemma_double_ready(t1: Shape, links: Seq<(int, int)>, bals: Seq<int>, s: int)
    requires
        0 <= s < 2,
        t1.linked(links),
        t1.inorder().no_duplicates(),
        t1 is Node,
        child(t1, s) is Node,
        avl_ok(child(t1, s), bals),
        bals[child(t1, s).root()] == if s == 0 { 1int } else { -1int },
    ensures
        side(links[t1.root()], s) == child(t1, s).root(),
        side(links[child(t1, s).root()], 1 - s) == child(child(t1, s), 1 - s).root(),
        child(child(t1, s), 1 - s) is Node,
        child(t1, s).root() != t1.root(),
        child(child(t1, s), 1 - s).root() != t1.root(),
        child(child(t1, s), 1 - s).root() != child(t1, s).root(),
        0 <= child(child(t1, s), 1 - s).root() < links.len(),
{
    match t1 {
        Shape::Node(o, l, r) => {
            lemma_node_contains(t1);
            lemma_distinct_node(o, *l, *r);
            let c = child(t1, s);
            match c {
                Shape::Node(ci, cl, cr) => {
                    lemma_node_contains(c);
                    lemma_distinct_node(ci, *cl, *cr);
                    assert(c.linked(links));
                    let g = child(c, 1 - s);
                    assert(g.height() >= 1);
                    match g {
                        Shape::Node(gi, _, _) => {
                            lemma_root_in(g);
                            lemma_linked_bound(c, links);
                            assert(c.inorder().contains(gi));
                            assert(t1.inorder().contains(gi));
                            assert(g.linked(links));
                            let gp = choose|p: int| 0 <= p < c.inorder().len() && c.inorder()[p] == gi;
                        },
                        Shape::Leaf => {},
                    }
                },
                Shape::Leaf => {},
            }
        },
        Shape::Leaf => {},
    }
}

/// After a double rotation at `o` on side `t`, the grandchild `g` holds `c` on side `t` and
/// `o` on the other side.
pub proof fn lemma_double_rotation_root(links: Seq<(int, int)>, o: int, t: int)
    requires
        0 <= t < 2,
        0 <= o < links.len(),
        0 <= side(links[o], t) < links.len(),
        0 <= side(links[side(links[o], t)], 1 - t) < links.len(),
        side(links[o], t) != o,
        side(links[side(links[o], t)], 1 - t) != o,
        side(links[side(links[o], t)], 1 - t) != side(links[o], t),
    ensures
        ({
            let c = side(links[o], t);
            let g = side(links[c], 1 - t);
            let l1 = rotated_links(links, c, t);
            let l2 = l1.update(o, set_side(l1[o], t, g));
            &&& l1 == rotated_links(links, c, t)
            &&& side(l1[c], 1 - t) == side(links[g], t)
            &&& l1[o] == links[o]
            &&& side(l2[o], t) == g
            &&& side(double_rotated_links(links, o, t)[g], t) == c
            &&& side(double_rotated_links(links, o, t)[g], 1 - t) == o
            &&& double_rotated_links(links, o, t).len() == links.len()
        }),
{
}

impl TreeAVL {
    /// Makes `new_root` the child of `parent_index` on the side given, or the root of the tree
    /// when `parent_index` is -1.
    pub fn update_proper_parent(&mut self, parent_index: isize, old_root_is_right_child_of_parent: bool, new_root: isize)
        requires
            parent_index == -1 || 0 <= parent_index < old(self).links().len(),
            parent_index == -1 ==> new_root >= 0,
            old(self).links_valid(),
            0 <= new_root < old(self).links().len(),
        ensures
            final(self).links_valid(),
            final(self).same_content(old(self)),
            final(self).bals() == old(self).bals(),
            parent_index == -1 ==> final(self).root() == new_root && final(self).links() == old(self).links(),
            parent_index != -1 ==> final(self).root() == old(self).root() && final(self).links() == old(self).links().update(
                parent_index as int,
                set_side(old(self).links()[parent_index as int], if old_root_is_right_child_of_parent { 1 } else { 0 }, new_root as int),
            ),
    {
        if parent_index == -1 {
            self.root_index = new_root as usize;
        } else {
            let side_index: usize = if old_root_is_right_child_of_parent {
                1
            } else {
                0
            };
            self.data[parent_index as usize].children[side_index] = new_root;
        }
        assert(self.links() =~= if parent_index == -1 {
            old(self).links()
        } else {
            old(self).links().update(
                parent_index as int,
                set_side(old(self).links()[parent_index as int], if old_root_is_right_child_of_parent { 1 } else { 0 }, new_root as int),
            )
        });
        assert(self.bals() =~= old(self).bals());
        assert forall|j: int, q: int| 0 <= j < self.data@.len() && 0 <= q < 2 implies #[trigger] self.data@[j].children[q] == -1
            || 0 <= self.data@[j].children[q] < self.data@.len() by {
            if parent_index == -1 || j != parent_index {
                assert(self.data@[j] == old(self).data@[j]);
            }
        }
    }

    /// Rotates the subtree at `old_root` towards side `direction` (0 left, 1 right) and gives its
    /// new root: `old_root`'s child on the other side, or `old_root` itself when that child is
    /// missing. With `adjust_bal`, both nodes' balances become 0.
    pub fn rotate(&mut self, old_root: usize, direction: usize, adjust_bal: bool) -> (new_root: isize)
        requires
            old_root < old(self).links().len(),
            old(self).links().len() < isize::MAX,
            direction < 2,
            old(self).links_valid(),
        ensures
            final(self).same_content(old(self)),
            final(self).root() == old(self).root(),
            final(self).links_valid(),
            side(old(self).links()[old_root as int], 1 - direction) == -1 ==> new_root == old_root
                && final(self).links() == old(self).links() && final(self).bals() == old(self).bals(),
            side(old(self).links()[old_root as int], 1 - direction) != -1 ==> {
                &&& new_root == side(old(self).links()[old_root as int], 1 - direction)
                &&& final(self).links() == rotated_links(old(self).links(), old_root as int, direction as int)
                &&& final(self).bals() == if adjust_bal {
                    old(self).bals().update(old_root as int, 0).update(new_root as int, 0)
                } else {
                    old(self).bals()
                }
            },
    {
        let other = 1 - direction;
        if self.data[old_root].children[other] == -1 {
            return old_root as isize;
        }
        let child = self.data[old_root].children[other] as usize;
        assert(0 <= self.data@[old_root as int].children[other as int] < self.data@.len());
        let new_root = child;
        let grandchild = self.data[child].children[direction];
        self.data[old_root].children[other] = grandchild;
        self.data[new_root].children[direction] = old_root as isize;
        if adjust_bal {
            self.data[new_root].balance = 0;
            self.data[old_root].balance = 0;
        }
        proof {
            let ol = old(self).links();
            let o = old_root as int;
            let d = direction as int;
            let c = child as int;
            assert(side(ol[o], 1 - d) == c);
            assert(side(ol[c], d) == grandchild);
            let l1 = ol.update(o, set_side(ol[o], 1 - d, side(ol[c], d)));
            let l2 = l1.update(c, set_side(l1[c], d, o));
            assert forall|i: int| 0 <= i < self.links().len() implies self.links()[i] == l2[i] by {
                if i == c {
                } else if i == o {
                } else {
                }
            }
            assert(self.links() =~= rotated_links(old(self).links(), old_root as int, direction as int));
            assert(self.bals() =~= if adjust_bal {
                old(self).bals().update(old_root as int, 0).update(new_root as int, 0)
            } else {
                old(self).bals()
            });
            assert forall|i: int, s: int| 0 <= i < self.data@.len() && 0 <= s < 2 implies #[trigger] self.data@[i].children[s] == -1
                || 0 <= self.data@[i].children[s] < self.data@.len() by {
                assert(old(self).data@[i].children[s] == -1 || 0 <= old(self).data@[i].children[s] < self.data@.len());
                assert(old(self).data@[child as int].children[direction as int] == -1 || 0 <= old(self).data@[child as int].children[direction as int] < self.data@.len());
            }
        }
        new_root as isize
    }

    /// Sets the link of node `i` on side `s` to `v`, a node of the arena.
    fn set_link(&mut self, i: usize, s: usize, v: isize)
        requires
            i < old(self).links().len(),
            s < 2,
            0 <= v < old(self).links().len(),
            old(self).links_valid(),
        ensures
            final(self).same_content(old(self)),
            final(self).root() == old(self).root(),
            final(self).links_valid(),
            final(self).bals() == old(self).bals(),
            final(self).links() == old(self).links().update(i as int, set_side(old(self).links()[i as int], s as int, v as int)),
    {
        self.data[i].children[s] = v;
        proof {
            assert(self.links() =~= old(self).links().update(i as int, set_side(old(self).links()[i as int], s as int, v as int)));
            assert(self.bals() =~= old(self).bals());
            assert forall|j: int, q: int| 0 <= j < self.data@.len() && 0 <= q < 2 implies #[trigger] self.data@[j].children[q] == -1
                || 0 <= self.data@[j].children[q] < self.data@.len() by {
                if j != i {
                    assert(self.data@[j] == old(self).data@[j]);
                }
            }
        }
    }

    /// Double rotation at `old_root` for an insertion below its child on side `type_of_rot`
    /// (0 left, 1 right) and then on the other side: that grandchild becomes the root of the
    /// subtree, and the balances are set as the grandchild's balance says.
    #[verifier::rlimit(80)]
    pub fn multi_rotate(&mut self, old_root: usize, type_of_rot: usize) -> (new_root: isize)
        requires
            old_root < old(self).links().len(),
            old(self).links().len() < isize::MAX,
            type_of_rot < 2,
            old(self).links_valid(),
            side(old(self).links()[old_root as int], type_of_rot as int) != -1,
            side(old(self).links()[side(old(self).links()[old_root as int], type_of_rot as int)], 1 - type_of_rot) != -1,
            side(old(self).links()[old_root as int], type_of_rot as int) != old_root,
            side(old(self).links()[side(old(self).links()[old_root as int], type_of_rot as int)], 1 - type_of_rot) != old_root,
            side(old(self).links()[side(old(self).links()[old_root as int], type_of_rot as int)], 1 - type_of_rot)
                != side(old(self).links()[old_root as int], type_of_rot as int),
        ensures
            final(self).same_content(old(self)),
            final(self).root() == old(self).root(),
            final(self).links_valid(),
            new_root == side(old(self).links()[side(old(self).links()[old_root as int], type_of_rot as int)], 1 - type_of_rot),
            final(self).links() == double_rotated_links(old(self).links(), old_root as int, type_of_rot as int),
            final(self).bals() == double_rotated_bals(
                old(self).bals(),
                new_root as int,
                side(final(self).links()[new_root as int], 0),
                side(final(self).links()[new_root as int], 1),
            ),
    {
        let ghost l0 = self.links();
        let ghost b0 = self.bals();
        let ghost o = old_root as int;
        let ghost t = type_of_rot as int;
        proof {
            assert(0 <= side(l0[o], t) < l0.len());
            assert(0 <= side(l0[side(l0[o], t)], 1 - t) < l0.len());
            lemma_double_rotation_root(l0, o, t);
        }
        let old_child = self.data[old_root].children[type_of_rot];
        assert(old_child as int == side(l0[old_root as int], type_of_rot as int));
        let new_child = self.rotate(old_child as usize, type_of_rot, false);
        let ghost l1 = self.links();
        self.set_link(old_root, type_of_rot, new_child);
        let ghost l2 = self.links();
        let new_root = self.rotate(old_root, 1 - type_of_rot, false);
        let ghost l3 = self.links();
        assert(l3 == double_rotated_links(l0, old_root as int, type_of_rot as int));
        let nr = new_root as usize;
        let left_child = self.data[nr].children[0];
        let right_child = self.data[nr].children[1];
        proof {
            assert(left_child as int == side(l3[nr as int], 0));
            assert(right_child as int == side(l3[nr as int], 1));
            assert(left_child != -1 && right_child != -1);
        }
        let lc = left_child as usize;
        let rc = right_child as usize;
        if self.data[nr].balance == 0 {
            self.data[lc].balance = 0;
            self.data[rc].balance = 0;
        } else {
            if self.data[nr].balance > 0 {
                self.data[lc].balance = -1;
                self.data[rc].balance = 0;
            } else {
                self.data[lc].balance = 0;
                self.data[rc].balance = 1;
            }
            self.data[nr].balance = 0;
        }
        proof {
            assert(self.links() =~= l3);
            assert(self.bals() =~= double_rotated_bals(b0, new_root as int, left_child as int, right_child as int));
        }
        new_root
    }
}

} // verus!
