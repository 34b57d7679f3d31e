//! The scapegoat tree of banned players: an arena of nodes kept in search order by name,
//! rebuilt into a perfectly balanced subtree wherever an insertion goes too deep.

use vstd::prelude::*;
use vstd::arithmetic::power::pow;
use crate::names::{
    ban_report, contains_id, griefer_rows, read_griefer_rows, record_after_rows, record_step,
    row_view, rows_parse, write_banned, write_not_banned, BanRecord, GrieferRow, NameContainer, RowSpec,
};
use crate::shape::{
    agree_outside, all_below, child, lemma_attach_leaf, lemma_distinct_node, lemma_find,
    lemma_find_same, lemma_linked_frame, lemma_linked_targets, lemma_no_parent_root,
    lemma_node_contains, lemma_ordered_distinct, lemma_parent_in, lemma_parent_link,
    lemma_parent_unique, lemma_path_chain, lemma_path_len, lemma_reached_in, lemma_reached_step,
    lemma_replace_inorder, lemma_replace_linked, lemma_replace_root, lemma_replace_subtree,
    lemma_root_in, lemma_subtree_at, lemma_subtree_children, lemma_subtree_len,
    lemma_subtree_linked, ordered, relink, set_side, side, single, with_child, Shape,
};
use crate::text::{
    chars_equal, chars_less, chars_of, lemma_lex_asymmetric, lemma_lex_total, lex_less,
    push_chars, push_str, ws_tokens,
};

verus! {

/// `(3/2)^k <= n`, in integers.
pub open spec fn alpha_fits(n: int, k: nat) -> bool {
    pow(3, k) <= n * pow(2, k)
}

proof fn lemma_pow_step(k: nat)
    ensures
        pow(3, k + 1) == 3 * pow(3, k),
        pow(2, k + 1) == 2 * pow(2, k),
        pow(2, k) >= 1,
        pow(3, k) >= 1,
    decreases k,
{
    reveal(pow);
    if k > 0 {
        lemma_pow_step((k - 1) as nat);
    }
}

proof fn lemma_pow_base_monotone(a: nat, b: nat, e: nat)
    requires
        a >= b,
    ensures
        pow(a as int, e) >= pow(b as int, e) >= 0,
    decreases e,
{
    reveal(pow);
    if e > 0 {
        lemma_pow_base_monotone(a, b, (e - 1) as nat);
        assert(a * pow(a as int, (e - 1) as nat) >= b * pow(b as int, (e - 1) as nat) >= 0) by (nonlinear_arith)
            requires
                a >= b,
                b >= 0,
                pow(a as int, (e - 1) as nat) >= pow(b as int, (e - 1) as nat) >= 0,
        ;
    }
}

proof fn lemma_powers_of_two()
    ensures
        pow(2, 64) == 0x1_0000_0000_0000_0000,
        pow(2, 109) == 0x2000_0000_0000_0000_0000_0000_0000,
{
    vstd::arithmetic::power2::lemma2_to64();
    vstd::arithmetic::power2::lemma2_to64_rest();
    vstd::arithmetic::power2::lemma_pow2(64);
    vstd::arithmetic::power2::lemma_pow2(45);
    vstd::arithmetic::power::lemma_pow_adds(2, 64, 45);
}

/// 3^110 >= 2^174, so that (3/2)^110 exceeds every `usize`.
proof fn lemma_three_to_110()
    ensures
        pow(3, 110) >= pow(2, 64) * pow(2, 110),
{
    reveal_with_fuel(pow, 13);
    assert(pow(3, 12) == 531441);
    assert(pow(3, 2) == 9);
    vstd::arithmetic::power2::lemma2_to64();
    vstd::arithmetic::power2::lemma_pow2(19);
    vstd::arithmetic::power2::lemma_pow2(3);
    assert(pow(2, 19) == 524288);
    assert(pow(2, 3) == 8);
    vstd::arithmetic::power::lemma_pow_multiplies(3, 12, 9);
    vstd::arithmetic::power::lemma_pow_multiplies(2, 19, 9);
    lemma_pow_base_monotone(531441, 524288, 9);
    vstd::arithmetic::power::lemma_pow_adds(3, 108, 2);
    vstd::arithmetic::power::lemma_pow_adds(2, 171, 3);
    vstd::arithmetic::power::lemma_pow_adds(2, 64, 110);
    vstd::arithmetic::power::lemma_pow_positive(2, 171);
    assert(pow(3, 108) * 9 >= pow(2, 171) * 8) by (nonlinear_arith)
        requires
            pow(3, 108) >= pow(2, 171),
            pow(2, 171) > 0,
    ;
}

/// The height bound of a scapegoat tree of `n` nodes with balance factor 2/3:
/// the largest `h` with `(3/2)^h <= n`, or 0 when `n` is 0.
pub fn log32(n: usize) -> (h: usize)
    ensures
        n == 0 ==> h == 0,
        n >= 1 ==> alpha_fits(n as int, h as nat) && !alpha_fits(n as int, (h + 1) as nat),
{
    if n == 0 {
        return 0;
    }
    proof {
        lemma_three_to_110();
        lemma_powers_of_two();
        lemma_pow_step(0);
        vstd::arithmetic::power::lemma_pow0(2);
        vstd::arithmetic::power::lemma_pow0(3);
    }
    // Invariant: 3^k == floor * two_k + rest, with two_k == 2^k and 0 <= rest < two_k.
    let mut k: usize = 0;
    let mut floor: u128 = 1;
    let mut rest: u128 = 0;
    let mut two_k: u128 = 1;
    loop
        invariant
            1 <= n,
            k <= 109,
            pow(3, 110) >= pow(2, 64) * pow(2, 110),
            two_k == pow(2, k as nat),
            pow(3, k as nat) == floor * two_k + rest,
            0 <= rest < two_k,
            k >= 1 ==> rest % 2 == 1,
            floor <= n,
            alpha_fits(n as int, k as nat),
        decreases 110 - k,
    {
        let ghost kk = k as nat;
        proof {
            lemma_pow_step(kk);
            lemma_pow_step(kk + 1);
        }
        proof {
            lemma_powers_of_two();
            vstd::arithmetic::power::lemma_pow_increases(2, kk, 109);
            if kk >= 1 {
                lemma_pow_step((kk - 1) as nat);
            }
        }
        assert(two_k <= 0x2000_0000_0000_0000_0000_0000_0000);
        let t = 3 * floor;
        let a = t / 2;
        let b = t % 2;
        let carry: u128 = if b == 1 {
            two_k
        } else {
            0
        };
        let num = carry + 3 * rest;
        let next_two = 2 * two_k;
        let next_floor = a + num / next_two;
        let next_rest = num % next_two;
        proof {
            let q = num / next_two;
            assert(carry == b * two_k) by (nonlinear_arith)
                requires
                    b == 0 || b == 1,
                    carry == (if b == 1 { two_k } else { 0 }),
            ;
            vstd::arithmetic::div_mod::lemma_fundamental_div_mod(num as int, next_two as int);
            assert(num == q * next_two + next_rest);
            assert(pow(3, kk + 1) == 3 * (floor * two_k + rest));
            assert(3 * (floor * two_k + rest) == (3 * floor) * two_k + 3 * rest) by (nonlinear_arith);
            assert((3 * floor) * two_k == (2 * a + b) * two_k);
            assert((2 * a + b) * two_k == a * next_two + b * two_k) by (nonlinear_arith)
                requires
                    next_two == 2 * two_k,
            ;
            assert(pow(3, kk + 1) == next_floor * next_two + next_rest) by (nonlinear_arith)
                requires
                    pow(3, kk + 1) == a * next_two + b * two_k + 3 * rest,
                    num == b * two_k + 3 * rest,
                    num == q * next_two + next_rest,
                    next_floor == a + q,
            ;
            if kk == 0 {
                vstd::arithmetic::power::lemma_pow0(2);
                vstd::arithmetic::power::lemma_pow0(3);
                assert(two_k == 1);
                assert(floor == 1);
                assert(b == 1);
            } else {
                assert(pow(2, kk) == 2 * pow(2, (kk - 1) as nat));
                assert(two_k % 2 == 0);
                assert(carry % 2 == 0);
            }
            assert(num % 2 == 1);
            vstd::arithmetic::div_mod::lemma_mod_mod(num as int, 2, two_k as int);
            assert(next_rest % 2 == 1);
        }
        if next_floor >= n as u128 {
            proof {
                assert(!alpha_fits(n as int, kk + 1)) by (nonlinear_arith)
                    requires
                        pow(3, kk + 1) == next_floor * next_two + next_rest,
                        next_floor >= n,
                        next_rest >= 1,
                        pow(2, kk + 1) == next_two,
                ;
            }
            return k;
        }
        proof {
            assert(alpha_fits(n as int, kk + 1)) by (nonlinear_arith)
                requires
                    pow(3, kk + 1) == next_floor * next_two + next_rest,
                    next_floor + 1 <= n,
                    next_rest < next_two,
                    pow(2, kk + 1) == next_two,
            ;
            if kk + 1 == 110 {
                assert(next_floor >= 0x1_0000_0000_0000_0000) by (nonlinear_arith)
                    requires
                        pow(3, 110) >= pow(2, 64) * pow(2, 110),
                        pow(3, kk + 1) == next_floor * next_two + next_rest,
                        next_rest < next_two,
                        pow(2, kk + 1) == next_two,
                        kk + 1 == 110,
                        pow(2, 64) == 0x1_0000_0000_0000_0000,
                ;
            }
        }
        k += 1;
        floor = next_floor;
        rest = next_rest;
        two_k = next_two;
    }
}


/// `(3/2)^(k+1) <= n` implies `(3/2)^k <= n`.
proof fn lemma_alpha_fits_step(n: int, k: nat)
    requires
        n >= 0,
        alpha_fits(n, k + 1),
    ensures
        alpha_fits(n, k),
{
    lemma_pow_step(k);
    assert(pow(3, k) <= n * pow(2, k)) by (nonlinear_arith)
        requires
            3 * pow(3, k) <= n * (2 * pow(2, k)),
            n >= 0,
            pow(2, k) >= 1,
    ;
}

/// Fewer levels fit whenever more do.
proof fn lemma_alpha_fits_down(n: int, k: nat, j: nat)
    requires
        n >= 0,
        j <= k,
        alpha_fits(n, k),
    ensures
        alpha_fits(n, j),
    decreases k - j,
{
    if j < k {
        lemma_alpha_fits_step(n, (k - 1) as nat);
        lemma_alpha_fits_down(n, (k - 1) as nat, j);
    }
}

/// For `h` the height bound `log32(n)` of `n >= 1` nodes, a depth `c` exceeds `h` exactly when
/// `(3/2)^c > n`.
pub proof fn lemma_log32_exceeded(n: int, h: nat, c: nat)
    requires
        n >= 1,
        alpha_fits(n, h),
        !alpha_fits(n, h + 1),
    ensures
        (c > h) == !alpha_fits(n, c),
{
    if c <= h {
        lemma_alpha_fits_down(n, h, c);
    } else if alpha_fits(n, c) {
        lemma_alpha_fits_down(n, c, h + 1);
    }
}

/// A node of the scapegoat tree: a player, the servers that banned them, the latest ban time
/// and its two children (-1 for none).
pub struct ScapeNode {
    pub player_name_index: usize,
    pub sids: Vec<usize>,
    pub time_banned: usize,
    pub left: i32,
    pub right: i32,
}

impl ScapeNode {
    /// A childless node for the player stored at `name_index`, banned once.
    pub fn new(name_index: usize, banned: usize, sid: usize) -> (node: Self)
        ensures
            node.player_name_index == name_index,
            node.sids@ == seq![sid],
            node.time_banned == banned,
            node.left == -1,
            node.right == -1,
    {
        let mut node = ScapeNode { player_name_index: name_index, sids: Vec::new(), time_banned: banned, left: -1, right: -1 };
        node.sids.push(sid);
        assert(node.sids@ =~= seq![sid]);
        node
    }
}

/// The indices of `v` as natural numbers.
pub open spec fn nats(v: Seq<usize>) -> Seq<nat> {
    Seq::new(v.len(), |i: int| v[i] as nat)
}

/// The first components of `v`: the nodes a search passed.
pub open spec fn firsts(v: Seq<(usize, usize)>) -> Seq<nat> {
    Seq::new(v.len(), |i: int| v[i].0 as nat)
}

/// The number of nodes of the subtree at `x` (0 for -1).
pub open spec fn subtree_size(t: Shape, x: int) -> nat {
    if x < 0 {
        0
    } else {
        t.subtree_at(x as nat).inorder().len()
    }
}

/// The perfectly balanced tree over the nodes `s` in order: the middle node at the root,
/// the nodes before it on the left and those after it on the right.
pub open spec fn balanced(s: Seq<nat>) -> Shape
    decreases s.len(),
{
    if s.len() == 0 {
        Shape::Leaf
    } else {
        let m = s.len() / 2;
        Shape::Node(s[m as int], Box::new(balanced(s.subrange(0, m as int))), Box::new(balanced(s.subrange(m + 1int, s.len() as int))))
    }
}

/// The balanced tree over `s` has the nodes `s` in that order.
pub proof fn lemma_balanced_inorder(s: Seq<nat>)
    ensures
        balanced(s).inorder() == s,
        s.len() == 0 <==> balanced(s) is Leaf,
    decreases s.len(),
{
    if s.len() > 0 {
        let m = s.len() / 2;
        lemma_balanced_inorder(s.subrange(0, m as int));
        lemma_balanced_inorder(s.subrange(m + 1int, s.len() as int));
        lemma_node_contains(balanced(s));
        assert(s =~= s.subrange(0, m as int).push(s[m as int]) + s.subrange(m + 1int, s.len() as int));
    }
}

/// The scapegoat tree of banned players.
pub struct ScapeTree {
    nodes_in_tree: usize,
    root_index: usize,
    data: Vec<ScapeNode>,
    name_store: NameContainer,
    visited_nodes: Vec<(usize, usize)>,
    flattened_nodes: Vec<usize>,
    shape: Ghost<Shape>,
}

impl ScapeTree {
    /// Each node's links to its children.
    pub closed spec fn links(&self) -> Seq<(int, int)> {
        Seq::new(self.data@.len(), |i: int| (self.data@[i].left as int, self.data@[i].right as int))
    }

    /// Each node's player name.
    pub closed spec fn keys(&self) -> Seq<Seq<char>> {
        Seq::new(self.data@.len(), |i: int| self.name_store@[self.data@[i].player_name_index as int])
    }

    /// The tree's shape.
    pub closed spec fn tree(&self) -> Shape {
        self.shape@
    }

    /// How many players the tree holds.
    pub closed spec fn count(&self) -> nat {
        self.data@.len()
    }

    /// Each node's index into the name store.
    pub closed spec fn name_indices(&self) -> Seq<usize> {
        Seq::new(self.data@.len(), |i: int| self.data@[i].player_name_index)
    }

    /// How many names the name store holds.
    pub closed spec fn stored_names(&self) -> nat {
        self.name_store@.len()
    }

    /// The name stored at `i`.
    pub closed spec fn stored(&self, i: int) -> Seq<char> {
        self.name_store@[i]
    }

    /// What the tree records of player `k`.
    pub closed spec fn lookup(&self, k: Seq<char>) -> Option<BanRecord> {
        let f = self.shape@.find(self.keys(), k);
        if f == -1 {
            None
        } else {
            Some(BanRecord { sids: self.data@[f].sids@, time: self.data@[f].time_banned })
        }
    }

    /// Every link is -1 or a node of the arena.
    pub closed spec fn links_valid(&self) -> bool {
        forall|i: int|
            0 <= i < self.data@.len() ==> (#[trigger] self.data@[i].left == -1 || 0 <= self.data@[i].left < self.data@.len()) && (
            self.data@[i].right == -1 || 0 <= self.data@[i].right < self.data@.len())
    }

    /// The arena, the name store and the shape agree.
    pub closed spec fn arranged(&self) -> bool {
        &&& self.name_store.wf()
        &&& self.nodes_in_tree == self.data@.len()
        &&& self.data@.len() < i32::MAX
        &&& forall|i: int| 0 <= i < self.data@.len() ==> (#[trigger] self.data@[i]).player_name_index < self.name_store@.len()
        &&& self.links_valid()
        &&& self.shape@.linked(self.links())
        &&& ordered(self.shape@.inorder(), self.keys())
        &&& self.shape@.inorder().len() == self.data@.len()
        &&& all_below(self.shape@.inorder(), self.data@.len() as int)
        &&& (forall|i: nat| i < self.data@.len() ==> #[trigger] self.shape@.inorder().contains(i))
        &&& (self.data@.len() == 0 ==> self.shape@ is Leaf && self.root_index == 0)
        &&& (self.data@.len() > 0 ==> self.shape@.root() == self.root_index)
    }

    /// The index of the root node.
    pub closed spec fn root(&self) -> int {
        self.root_index as int
    }

    /// The nodes flattened so far by a rebuild.
    pub closed spec fn flattened(&self) -> Seq<nat> {
        nats(self.flattened_nodes@)
    }

    /// The nodes passed by the insertion under way, each with the size recorded for it.
    pub closed spec fn visited(&self) -> Seq<(usize, usize)> {
        self.visited_nodes@
    }

    /// The two trees hold the same names and the same players with the same records.
    pub closed spec fn same_nodes(&self, other: &Self) -> bool {
        &&& self.name_store == other.name_store
        &&& self.nodes_in_tree == other.nodes_in_tree
        &&& self.data@.len() == other.data@.len()
        &&& forall|i: int| 0 <= i < self.data@.len() ==> #[trigger] self.data@[i].player_name_index == other.data@[i].player_name_index
            && self.data@[i].sids == other.data@[i].sids && self.data@[i].time_banned == other.data@[i].time_banned
    }

    /// The two trees have the same shape and root.
    pub closed spec fn same_layout(&self, other: &Self) -> bool {
        &&& self.shape == other.shape
        &&& self.root_index == other.root_index
    }

    /// A well-formed tree: arranged, with no insertion under way.
    pub closed spec fn wf(&self) -> bool {
        &&& self.arranged()
        &&& self.visited_nodes@.len() == 0
        &&& self.flattened_nodes@.len() == 0
    }

    /// A well-formed scapegoat tree holds each of its players once, their names strictly
    /// increasing from left to right, and a player has a record exactly when a search finds
    /// them.
    pub proof fn lemma_wf_shape(&self)
        requires
            self.wf(),
        ensures
            ordered(self.tree().inorder(), self.keys()),
            self.tree().inorder().len() == self.count(),
            forall|i: nat| i < self.count() ==> #[trigger] self.tree().inorder().contains(i),
            forall|k: Seq<char>| (#[trigger] self.lookup(k) is Some) <==> self.tree().find(self.keys(), k) != -1,
    {
    }

    /// An empty tree with room for `capacity` players (64 when `capacity` is 0).
    pub fn new(capacity: usize) -> (tree: Self)
        ensures
            tree.wf(),
            tree.count() == 0,
            tree.stored_names() == 0,
            tree.tree() == Shape::Leaf,
            tree.keys() == Seq::<Seq<char>>::empty(),
            tree.root() == 0,
            forall|k: Seq<char>| tree.lookup(k) is None,
    {
        let capacity = if capacity == 0 {
            64
        } else {
            capacity
        };
        let tree = ScapeTree {
            nodes_in_tree: 0,
            root_index: 0,
            data: Vec::with_capacity(capacity),
            name_store: NameContainer::new(capacity),
            visited_nodes: Vec::with_capacity(capacity),
            flattened_nodes: Vec::with_capacity(capacity),
            shape: Ghost(Shape::Leaf),
        };
        proof {
            lemma_node_contains(Shape::Leaf);
        }
        tree
    }

    /// The index of the root node.
    pub fn root_node(&self) -> (r: usize)
        ensures
            r == self.root(),
    {
        self.root_index
    }

    /// The number of nodes in the subtree at `index` (0 for -1).
    #[verifier::rlimit(80)]
    pub fn size(&self, index: i32) -> (n: usize)
        requires
            self.arranged(),
            index == -1 || (0 <= index && index < self.count()),
        ensures
            n == subtree_size(self.tree(), index as int),
        decreases subtree_size(self.tree(), index as int),
    {
        if index == -1 {
            return 0;
        }
        let i = index as usize;
        proof {
            let sh = self.shape@;
            lemma_ordered_distinct(sh.inorder(), self.keys());
            assert(sh.inorder().contains(i as nat));
            lemma_subtree_at(sh, i as nat);
            lemma_subtree_children(sh, i as nat);
            lemma_subtree_linked(sh, i as nat, self.links());
            lemma_subtree_len(sh, i as nat);
            let sub = sh.subtree_at(i as nat);
            lemma_node_contains(sub);
            match sub {
                Shape::Node(j, l, r) => {
                    assert(self.links()[i as int] == (l.root(), r.root()));
                    if l.root() == -1 {
                        assert(l.inorder().len() == 0);
                    }
                    if r.root() == -1 {
                        assert(r.inorder().len() == 0);
                    }
                    assert(subtree_size(sh, self.data@[i as int].left as int) == l.inorder().len());
                    assert(subtree_size(sh, self.data@[i as int].right as int) == r.inorder().len());
                },
                Shape::Leaf => {},
            }
        }
        let left_size = self.size(self.data[i].left);
        let right_size = self.size(self.data[i].right);
        1 + left_size + right_size
    }
}

impl ScapeTree {
    /// The name of node `i`.
    fn name_of(&self, i: usize) -> (c: Vec<char>)
        requires
            self.arranged(),
            i < self.data@.len(),
        ensures
            c@ == self.keys()[i as int],
    {
        self.name_store.name_chars(self.data[i].player_name_index)
    }

    /// Searches the subtree at `index` for `search_name`: when `found_index` is -1 it is set
    /// to the node holding the name, if there is one; otherwise it is left as it is.
    #[verifier::rlimit(80)]
    pub fn search(&self, search_name: &str, index: i32, found_index: &mut i32)
        requires
            self.arranged(),
            index == -1 || (0 <= index && index < self.count()),
        ensures
            *old(found_index) != -1 ==> *final(found_index) == *old(found_index),
            *old(found_index) == -1 && index == -1 ==> *final(found_index) == -1,
            *old(found_index) == -1 && index != -1 ==> *final(found_index) == self.tree().subtree_at(index as nat).find(
                self.keys(),
                search_name@,
            ),
            *old(found_index) == -1 && index != -1 && index == self.root() && self.count() > 0 ==> *final(found_index)
                == self.tree().find(self.keys(), search_name@),
        decreases if index == -1 {
            0
        } else {
            self.tree().subtree_at(index as nat).height() + 1
        },
    {
        if index == -1 {
            return;
        }
        let i = index as usize;
        proof {
            let sh = self.shape@;
            lemma_ordered_distinct(sh.inorder(), self.keys());
            assert(sh.inorder().contains(i as nat));
            lemma_subtree_children(sh, i as nat);
            lemma_subtree_at(sh, i as nat);
            lemma_subtree_linked(sh, i as nat, self.links());
            if i == self.root_index && self.data@.len() > 0 {
                match sh {
                    Shape::Node(j, l, r) => {
                        assert(j == i);
                    },
                    Shape::Leaf => {},
                }
            }
        }
        let name = chars_of(search_name);
        let node_name = self.name_of(i);
        if chars_equal(&name, &node_name) {
            if *found_index == -1 {
                *found_index = index;
            }
            return;
        }
        proof {
            lemma_lex_total(name@, node_name@);
            lemma_lex_asymmetric(name@, node_name@);
        }
        let go_left = !chars_less(&node_name, &name);
        let next = if go_left {
            self.data[i].left
        } else {
            self.data[i].right
        };
        proof {
            let sub = self.shape@.subtree_at(i as nat);
            match sub {
                Shape::Node(j, l, r) => {
                    assert(self.links()[i as int] == (l.root(), r.root()));
                    assert(go_left <==> lex_less(name@, self.keys()[i as int]));
                    assert(next as int == if go_left {
                        l.root()
                    } else {
                        r.root()
                    });
                    if next == -1 {
                        if go_left {
                            assert(*l is Leaf);
                        } else {
                            assert(*r is Leaf);
                        }
                    }
                },
                Shape::Leaf => {},
            }
        }
        let ghost prior = *found_index;
        self.search(search_name, next, found_index);
        proof {
            let sh = self.shape@;
            let sub = sh.subtree_at(i as nat);
            match sub {
                Shape::Node(j, l, r) => {
                    assert(j == i);
                    assert(sub.find(self.keys(), name@) == if go_left {
                        l.find(self.keys(), name@)
                    } else {
                        r.find(self.keys(), name@)
                    });
                    if prior == -1 {
                        if go_left {
                            if l.root() == -1 {
                                assert(*l is Leaf);
                            } else {
                                assert(*found_index == l.find(self.keys(), name@));
                            }
                        } else {
                            if r.root() == -1 {
                                assert(*r is Leaf);
                            } else {
                                assert(*found_index == r.find(self.keys(), name@));
                            }
                        }
                    }
                },
                Shape::Leaf => {},
            }
        }
    }

    /// Takes the subtree at `index` apart: its nodes are appended to the flattened list in
    /// order, and each loses its links.
    #[verifier::rlimit(80)]
    pub fn _flatten(&mut self, index: i32)
        requires
            index == -1 || (0 <= index && old(self).tree().inorder().contains(index as nat)),
            old(self).tree().inorder().no_duplicates(),
            all_below(old(self).tree().inorder(), old(self).count() as int),
            index != -1 ==> old(self).tree().subtree_at(index as nat).linked(old(self).links()),
        ensures
            final(self).flattened() == old(self).flattened() + if index == -1 {
                Seq::<nat>::empty()
            } else {
                old(self).tree().subtree_at(index as nat).inorder()
            },
            final(self).same_nodes(old(self)),
            final(self).same_layout(old(self)),
            final(self).visited() == old(self).visited(),
            forall|i: int| 0 <= i < final(self).count() ==> #[trigger] final(self).links()[i] == if index != -1 && old(self).tree().subtree_at(index as nat).inorder().contains(i as nat) {
                (-1int, -1int)
            } else {
                old(self).links()[i]
            },
        decreases if index == -1 {
            0
        } else {
            old(self).tree().subtree_at(index as nat).height() + 1
        },
    {
        if index == -1 {
            assert(self.flattened() =~= old(self).flattened() + Seq::<nat>::empty());
            return;
        }
        let ghost before = *self;
        let ghost sh = self.shape@;
        let ghost sub = sh.subtree_at(index as nat);
        let i = index as usize;
        proof {
            lemma_subtree_at(sh, i as nat);
            lemma_subtree_children(sh, i as nat);
            lemma_node_contains(sub);
            let q = choose|q: int| 0 <= q < sh.inorder().len() && sh.inorder()[q] == i as nat;
        }
        let left = self.data[i].left;
        let right = self.data[i].right;
        self.data[i].left = -1;
        self.data[i].right = -1;
        let ghost mid1 = *self;
        proof {
            match sub {
                Shape::Node(j, l, r) => {
                    lemma_distinct_node(j, *l, *r);
                    assert(before.links()[i as int] == (l.root(), r.root()));
                    assert(left as int == l.root());
                    assert(right as int == r.root());
                    if left != -1 {
                        lemma_root_in(*l);
                        assert(sh.subtree_at(left as nat) == *l);
                        assert forall|q: int| 0 <= q < l.inorder().len() implies #[trigger] l.inorder()[q] < self.links().len() && self.links()[l.inorder()[q] as int] == before.links()[l.inorder()[q] as int] by {
                            let y = l.inorder()[q];
                            assert(l.inorder().contains(y));
                            assert(sub.inorder().contains(y));
                            assert(sh.inorder().contains(y));
                            assert(y != i);
                            let p = choose|p: int| 0 <= p < sh.inorder().len() && sh.inorder()[p] == y;
                            assert(y < before.data@.len());
                            assert(self.data@[y as int] == before.data@[y as int]);
                        }
                        lemma_linked_frame(*l, before.links(), self.links());
                    }
                },
                Shape::Leaf => {},
            }
        }
        self._flatten(left);
        let ghost mid2 = *self;
        self.flattened_nodes.push(i);
        let ghost mid3 = *self;
        proof {
            match sub {
                Shape::Node(j, l, r) => {
                    if right != -1 {
                        lemma_root_in(*r);
                        assert(sh.subtree_at(right as nat) == *r);
                        assert forall|q: int| 0 <= q < r.inorder().len() implies #[trigger] r.inorder()[q] < self.links().len() && self.links()[r.inorder()[q] as int] == before.links()[r.inorder()[q] as int] by {
                            let y = r.inorder()[q];
                            assert(r.inorder().contains(y));
                            assert(sub.inorder().contains(y));
                            assert(y != i);
                            assert(!l.inorder().contains(y));
                            assert(sh.inorder().contains(y));
                            let p = choose|p: int| 0 <= p < sh.inorder().len() && sh.inorder()[p] == y;
                            assert(y < before.data@.len());
                            assert(mid1.data@[y as int] == before.data@[y as int]);
                            assert(mid1.links()[y as int] == before.links()[y as int]);
                            if left == -1 {
                                assert(l.inorder().len() == 0);
                            }
                            assert(mid2.links()[y as int] == mid1.links()[y as int]);
                            assert(self.links()[y as int] == mid2.links()[y as int]);
                        }
                        lemma_linked_frame(*r, before.links(), self.links());
                    }
                },
                Shape::Leaf => {},
            }
        }
        self._flatten(right);
        proof {
            match sub {
                Shape::Node(j, l, r) => {
                    assert(subtree_size(sh, left as int) == l.inorder().len());
                    assert(subtree_size(sh, right as int) == r.inorder().len());
                    assert(mid3.flattened() =~= mid2.flattened().push(i as nat));
                    if left == -1 {
                        assert(l.inorder() =~= Seq::<nat>::empty());
                    }
                    if right == -1 {
                        assert(r.inorder() =~= Seq::<nat>::empty());
                    }
                    assert(mid2.flattened() == before.flattened() + l.inorder());
                    assert(self.flattened() == mid3.flattened() + r.inorder());
                    assert(sub.inorder() == l.inorder().push(i as nat) + r.inorder());
                    assert(self.flattened() =~= before.flattened() + sub.inorder());
                    assert forall|y: int| 0 <= y < self.data@.len() implies #[trigger] self.data@[y].player_name_index == before.data@[y].player_name_index
                        && self.data@[y].sids == before.data@[y].sids && self.data@[y].time_banned == before.data@[y].time_banned by {
                        assert(self.data@[y].player_name_index == mid3.data@[y].player_name_index);
                        assert(mid2.data@[y].player_name_index == mid1.data@[y].player_name_index);
                    }
                    assert forall|y: int| 0 <= y < self.data@.len() implies #[trigger] self.links()[y] == if sub.inorder().contains(y as nat) {
                        (-1int, -1int)
                    } else {
                        before.links()[y]
                    } by {
                        assert(sub.inorder().contains(y as nat) <==> (y == i || l.inorder().contains(y as nat) || r.inorder().contains(y as nat)));
                        if left == -1 {
                            assert(l.inorder().len() == 0);
                        }
                        if right == -1 {
                            assert(r.inorder().len() == 0);
                        }
                        assert(self.links()[y] == if right != -1 && r.inorder().contains(y as nat) {
                            (-1int, -1int)
                        } else {
                            mid3.links()[y]
                        });
                        assert(mid3.links()[y] == mid2.links()[y]);
                        assert(mid2.links()[y] == if left != -1 && l.inorder().contains(y as nat) {
                            (-1int, -1int)
                        } else {
                            mid1.links()[y]
                        });
                        assert(mid1.links()[y] == if y == i {
                            (-1int, -1int)
                        } else {
                            before.links()[y]
                        });
                    }
                },
                Shape::Leaf => {},
            }
        }
    }
}

impl ScapeTree {
    /// The flattened nodes from `low` up to `high`, or none when `low >= high`.
    pub open spec fn span(s: Seq<nat>, low: int, high: int) -> Seq<nat> {
        if low < high {
            s.subrange(low, high)
        } else {
            Seq::empty()
        }
    }

    /// Links the flattened nodes from `low` up to `high` into the balanced tree over them, and
    /// gives its root (-1 when there are none).
    #[verifier::rlimit(80)]
    pub fn _ideal_insert(&mut self, low: usize, high: usize) -> (root: i32)
        requires
            high <= old(self).flattened().len(),
            old(self).flattened().no_duplicates(),
            forall|p: int| 0 <= p < old(self).flattened().len() ==> #[trigger] old(self).flattened()[p] < old(self).count(),
            old(self).count() < i32::MAX,
        ensures
            root == balanced(Self::span(old(self).flattened(), low as int, high as int)).root(),
            balanced(Self::span(old(self).flattened(), low as int, high as int)).linked(final(self).links()),
            forall|i: int| 0 <= i < old(self).count() && !Self::span(old(self).flattened(), low as int, high as int).contains(i as nat) ==> #[trigger] final(self).links()[i] == old(self).links()[i],
            final(self).same_nodes(old(self)),
            final(self).same_layout(old(self)),
            final(self).visited() == old(self).visited(),
            final(self).flattened() == old(self).flattened(),
        decreases high - low,
    {
        let ghost flat = self.flattened();
        let ghost sp = Self::span(flat, low as int, high as int);
        if low >= high {
            return -1;
        }
        let delta = high - low;
        let median = (delta / 2) + low;
        let ghost sl = Self::span(flat, low as int, median as int);
        let ghost sr = Self::span(flat, median + 1, high as int);
        let ghost m = sp.len() / 2;
        proof {
            assert(sp.len() == delta);
            assert(m == delta / 2);
            assert(sp[m as int] == flat[median as int]);
            assert(sp.subrange(0, m as int) =~= sl);
            assert(sp.subrange(m + 1int, sp.len() as int) =~= sr);
            assert(balanced(sp) == Shape::Node(flat[median as int], Box::new(balanced(sl)), Box::new(balanced(sr))));
            lemma_balanced_inorder(sl);
            lemma_balanced_inorder(sr);
        }
        let ghost before = *self;
        let subtree_root = self.flattened_nodes[median];
        assert(subtree_root as nat == flat[median as int]);
        let left = self._ideal_insert(low, median);
        let ghost a1 = *self;
        self.data[subtree_root].left = left;
        let ghost a2 = *self;
        let right = self._ideal_insert(median + 1, high);
        let ghost a3 = *self;
        self.data[subtree_root].right = right;
        proof {
            let rt = subtree_root as int;
            // the three parts of the span are disjoint
            assert forall|y: nat| sl.contains(y) implies y != rt && !sr.contains(y) by {
                let p = choose|p: int| 0 <= p < sl.len() && sl[p] == y;
                assert(flat[low + p] == y);
                if sr.contains(y) {
                    let q = choose|q: int| 0 <= q < sr.len() && sr[q] == y;
                    assert(flat[median + 1 + q] == y);
                }
            }
            assert forall|y: nat| sr.contains(y) implies y != rt by {
                let q = choose|q: int| 0 <= q < sr.len() && sr[q] == y;
                assert(flat[median + 1 + q] == y);
            }
            assert forall|y: nat| sp.contains(y) <==> (y == rt || sl.contains(y) || sr.contains(y)) by {
                if sp.contains(y) {
                    let p = choose|p: int| 0 <= p < sp.len() && sp[p] == y;
                    if p < m {
                        assert(sl[p] == y);
                    } else if p > m {
                        assert(sr[p - m - 1] == y);
                    }
                }
                if sl.contains(y) {
                    let p = choose|p: int| 0 <= p < sl.len() && sl[p] == y;
                    assert(sp[p] == y);
                }
                if sr.contains(y) {
                    let p = choose|p: int| 0 <= p < sr.len() && sr[p] == y;
                    assert(sp[m + 1 + p] == y);
                }
            }
            assert forall|y: nat| sp.contains(y) implies y < before.data@.len() by {
                let p = choose|p: int| 0 <= p < sp.len() && sp[p] == y;
                assert(flat[low + p] == y);
            }
            // the left part stays linked through the later steps
            let bl = balanced(sl);
            let br = balanced(sr);
            assert forall|q: int| 0 <= q < bl.inorder().len() implies #[trigger] bl.inorder()[q] < self.links().len() && self.links()[bl.inorder()[q] as int] == a1.links()[bl.inorder()[q] as int] by {
                let y = bl.inorder()[q];
                assert(sl.contains(y));
                assert(y < before.data@.len());
                assert(a2.links()[y as int] == a1.links()[y as int]);
                assert(a3.links()[y as int] == a2.links()[y as int]);
            }
            lemma_linked_frame(bl, a1.links(), self.links());
            assert forall|q: int| 0 <= q < br.inorder().len() implies #[trigger] br.inorder()[q] < self.links().len() && self.links()[br.inorder()[q] as int] == a3.links()[br.inorder()[q] as int] by {
                let y = br.inorder()[q];
                assert(sr.contains(y));
                assert(y < before.data@.len());
            }
            lemma_linked_frame(br, a3.links(), self.links());
            assert(a3.links()[rt].0 == a2.links()[rt].0);
            assert(self.links()[rt] == (bl.root(), br.root()));
            assert(balanced(sp).linked(self.links()));
            assert forall|i: int| 0 <= i < before.data@.len() && !sp.contains(i as nat) implies #[trigger] self.links()[i] == before.links()[i] by {
                assert(i != rt);
                assert(!sl.contains(i as nat));
                assert(!sr.contains(i as nat));
                assert(a1.links()[i] == before.links()[i]);
                assert(a2.links()[i] == a1.links()[i]);
                assert(a3.links()[i] == a2.links()[i]);
            }
            assert forall|y: int| 0 <= y < self.data@.len() implies #[trigger] self.data@[y].player_name_index == before.data@[y].player_name_index
                && self.data@[y].sids == before.data@[y].sids && self.data@[y].time_banned == before.data@[y].time_banned by {
                assert(self.data@[y].player_name_index == a3.data@[y].player_name_index);
                assert(a3.data@[y].player_name_index == a2.data@[y].player_name_index);
                assert(a2.data@[y].player_name_index == a1.data@[y].player_name_index);
                assert(a1.data@[y].player_name_index == before.data@[y].player_name_index);
            }
            assert(self.same_nodes(&before));
        }
        subtree_root as i32
    }
}

impl ScapeTree {
    /// Rebuilds the subtree at `subtree_root_index`, whose parent is `subtree_parent_index`
    /// (-1 at the root), into the perfectly balanced tree over its nodes, hung where it hung.
    #[verifier::rlimit(80)]
    pub fn _tree_rebuild(&mut self, subtree_parent_index: i32, subtree_root_index: usize)
        requires
            old(self).arranged(),
            old(self).flattened().len() == 0,
            subtree_root_index < old(self).count(),
            subtree_parent_index as int == old(self).tree().parent_of(subtree_root_index as nat),
        ensures
            final(self).arranged(),
            final(self).tree() == old(self).tree().replace_at(
                subtree_root_index as nat,
                balanced(old(self).tree().subtree_at(subtree_root_index as nat).inorder()),
            ),
            final(self).flattened().len() == 0,
            final(self).visited() == old(self).visited(),
            final(self).same_nodes(old(self)),
            forall|k: Seq<char>| #[trigger] final(self).lookup(k) == old(self).lookup(k),
    {
        let ghost before = *self;
        let ghost sh = self.shape@;
        let ghost x = subtree_root_index as nat;
        let ghost t = sh.subtree_at(x);
        let ghost t2 = balanced(t.inorder());
        proof {
            lemma_ordered_distinct(sh.inorder(), self.keys());
            assert(sh.inorder().contains(x));
            lemma_subtree_at(sh, x);
            lemma_subtree_linked(sh, x, self.links());
            lemma_root_in(t);
            lemma_balanced_inorder(t.inorder());
            assert forall|p: int| 0 <= p < t.inorder().len() implies #[trigger] t.inorder()[p] < before.data@.len() by {
                let y = t.inorder()[p];
                assert(t.inorder().contains(y));
                assert(sh.inorder().contains(y));
                let q = choose|q: int| 0 <= q < sh.inorder().len() && sh.inorder()[q] == y;
            }
        }
        self._flatten(subtree_root_index as i32);
        let ghost f1 = *self;
        proof {
            assert(self.flattened() =~= t.inorder());
            assert(Self::span(self.flattened(), 0, self.flattened().len() as int) =~= t.inorder());
        }
        let rebuild_root = self._ideal_insert(0, self.flattened_nodes.len());
        let ghost f2 = *self;
        proof {
            assert(t.inorder().contains(x));
            assert(t.inorder().len() > 0);
            assert(t2.root() == rebuild_root);
            lemma_root_in(t2);
            assert(0 <= rebuild_root < before.data@.len()) by {
                let q = choose|q: int| 0 <= q < t.inorder().len() && t.inorder()[q] == rebuild_root as nat;
            }
        }
        if subtree_parent_index == -1 {
            self.root_index = rebuild_root as usize;
        } else {
            let p = subtree_parent_index as usize;
            proof {
                lemma_parent_link(sh, x, before.links());
                lemma_parent_in(sh, x);
                assert(!t.inorder().contains(p as nat));
                assert(f2.links()[p as int] == before.links()[p as int]);
            }
            if self.data[p].left == subtree_root_index as i32 {
                self.data[p].left = rebuild_root;
            } else {
                self.data[p].right = rebuild_root;
            }
        }
        self.flattened_nodes.clear();
        proof {
            let sh2 = sh.replace_at(x, t2);
            self.shape = Ghost(sh2);
            let links = before.links();
            let links2 = self.links();
            let parent = subtree_parent_index as int;
            // the rebuilt subtree keeps its links
            assert forall|q: int| 0 <= q < t2.inorder().len() implies #[trigger] t2.inorder()[q] < links2.len() && links2[t2.inorder()[q] as int] == f2.links()[t2.inorder()[q] as int] by {
                let y = t2.inorder()[q];
                assert(t.inorder().contains(y));
                if parent != -1 {
                    assert(y != parent);
                }
            }
            lemma_linked_frame(t2, f2.links(), links2);
            // the nodes outside it keep theirs, but for the parent's link to it
            assert(agree_outside(sh.inorder(), t.inorder(), parent, links, links2)) by {
                assert forall|q: int|
                    0 <= q < sh.inorder().len() && !t.inorder().contains(#[trigger] sh.inorder()[q]) && sh.inorder()[q] != parent implies sh.inorder()[q]
                    < links2.len() && links2[sh.inorder()[q] as int] == links[sh.inorder()[q] as int] by {
                    let y = sh.inorder()[q];
                    assert(y < before.data@.len());
                    assert(f1.links()[y as int] == links[y as int]);
                    assert(f2.links()[y as int] == f1.links()[y as int]);
                }
            }
            if parent != -1 {
                assert(links2[parent] == relink(links[parent], x as int, t2.root()));
            }
            lemma_replace_linked(sh, x, t2, links, links2);
            lemma_replace_inorder(sh, x, t2, t);
            assert(sh2.inorder() == sh.inorder());
            assert(self.keys() =~= before.keys());
            if parent == -1 {
                lemma_no_parent_root(sh, x);
            } else {
                lemma_replace_root(sh, x, t2);
            }
            lemma_replace_root(sh, x, t2);
            // every link is -1 or a node
            lemma_linked_targets(sh2, links2, before.data@.len() as int);
            assert(self.links_valid()) by {
                assert forall|i: int| 0 <= i < self.data@.len() implies (#[trigger] self.data@[i].left == -1 || 0 <= self.data@[i].left < self.data@.len()) && (
                self.data@[i].right == -1 || 0 <= self.data@[i].right < self.data@.len()) by {
                    assert(sh2.inorder().contains(i as nat));
                    assert(links2[i] == (self.data@[i].left as int, self.data@[i].right as int));
                }
            }
            assert forall|y: int| 0 <= y < self.data@.len() implies #[trigger] self.data@[y].player_name_index == before.data@[y].player_name_index
                && self.data@[y].sids == before.data@[y].sids && self.data@[y].time_banned == before.data@[y].time_banned by {
                assert(f2.data@[y].player_name_index == f1.data@[y].player_name_index);
                assert(f1.data@[y].player_name_index == before.data@[y].player_name_index);
            }
            assert(self.same_nodes(&before));
            assert forall|k: Seq<char>| #[trigger] self.lookup(k) == before.lookup(k) by {
                lemma_find_same(sh, sh2, before.keys(), k);
                lemma_find(sh, before.keys(), k);
                let f = sh.find(before.keys(), k);
                if f != -1 {
                    let q = choose|q: int| 0 <= q < sh.inorder().len() && sh.inorder()[q] == f as nat;
                    assert(self.data@[f].sids == before.data@[f].sids);
                }
            }
        }
    }
}

impl ScapeTree {
    /// Goes down from `curr_index` the way a search for the name stored at `name_index` goes,
    /// noting each node passed in the visited list, `depth` nodes having been passed before.
    /// Where the name is held, nothing else changes and the node is given with `false`;
    /// otherwise the free link where the search ends is pointed at `insert_node_index`, and
    /// that index is given with `true` and whether the new node's depth exceeds the height
    /// bound `log32` of the tree with one more node. An empty tree is left as it is.
    #[verifier::rlimit(80)]
    pub fn _set_child(&mut self, name_index: usize, sid: usize, insert_node_index: usize, curr_index: usize, depth: usize) -> (res: (
        bool,
        usize,
        bool,
    ))
        requires
            old(self).arranged(),
            name_index < old(self).stored_names(),
            insert_node_index == old(self).count(),
            depth == old(self).visited().len(),
            old(self).count() > 0 ==> old(self).tree().reached(old(self).keys(), old(self).stored(name_index as int), curr_index as nat)
                && firsts(old(self).visited()) + old(self).tree().subtree_at(curr_index as nat).path(
                old(self).keys(),
                old(self).stored(name_index as int),
            ) == old(self).tree().path(old(self).keys(), old(self).stored(name_index as int)),
        ensures
            final(self).same_nodes(old(self)),
            final(self).same_layout(old(self)),
            final(self).flattened() == old(self).flattened(),
            final(self).visited().len() >= old(self).visited().len(),
            final(self).visited().subrange(0, old(self).visited().len() as int) == old(self).visited(),
            forall|i: int| old(self).visited().len() <= i < final(self).visited().len() ==> #[trigger] final(self).visited()[i].1 == 0,
            old(self).count() == 0 ==> res == (false, curr_index, false) && final(self).links() == old(self).links()
                && final(self).visited() == old(self).visited(),
            ({
                let k = old(self).stored(name_index as int);
                let sh = old(self).tree();
                let keys = old(self).keys();
                let f = sh.find(keys, k);
                let pth = sh.path(keys, k);
                &&& old(self).count() > 0 ==> firsts(final(self).visited()) == pth
                &&& old(self).count() > 0 && f != -1 ==> res == (false, f as usize, false) && final(self).links() == old(self).links()
                &&& old(self).count() > 0 && f == -1 ==> {
                    let p = pth.last() as int;
                    let d = if lex_less(k, keys[p]) {
                        0int
                    } else {
                        1int
                    };
                    &&& res.0
                    &&& res.1 == insert_node_index
                    &&& res.2 == !alpha_fits(old(self).count() + 1int, pth.len())
                    &&& pth.len() > 0
                    &&& sh.reached(keys, k, p as nat)
                    &&& keys[p] != k
                    &&& side(old(self).links()[p], d) == -1
                    &&& final(self).links() == old(self).links().update(p, set_side(old(self).links()[p], d, insert_node_index as int))
                }
            }),
        decreases old(self).tree().subtree_at(curr_index as nat).height(),
    {
        if insert_node_index == self.root_index {
            return (false, curr_index, false);
        }
        let ghost before = *self;
        let ghost k = self.stored(name_index as int);
        let ghost sh = self.shape@;
        let ghost keys = self.keys();
        let ghost sub = sh.subtree_at(curr_index as nat);
        proof {
            lemma_ordered_distinct(sh.inorder(), keys);
            lemma_reached_in(sh, keys, k, curr_index as nat);
            lemma_subtree_at(sh, curr_index as nat);
            lemma_subtree_children(sh, curr_index as nat);
            lemma_reached_step(sh, keys, k, curr_index as nat);
            lemma_subtree_linked(sh, curr_index as nat, self.links());
            lemma_path_len(sh, keys, k);
            let q = choose|q: int| 0 <= q < sh.inorder().len() && sh.inorder()[q] == curr_index as nat;
        }
        let name = self.name_store.name_chars(name_index);
        let node_name = self.name_store.name_chars(self.data[curr_index].player_name_index);
        if chars_equal(&name, &node_name) {
            proof {
                match sub {
                    Shape::Node(j, l, r) => {
                        assert(j == curr_index);
                        assert(sub.path(keys, k) =~= Seq::<nat>::empty());
                        assert(firsts(self.visited()) =~= firsts(before.visited()) + sub.path(keys, k));
                    },
                    Shape::Leaf => {},
                }
            }
            return (false, curr_index, false);
        }
        proof {
            lemma_lex_total(name@, node_name@);
            lemma_lex_asymmetric(name@, node_name@);
            match sub {
                Shape::Node(j, l, r) => {
                    assert(j == curr_index);
                    assert(sub.path(keys, k).len() > 0);
                },
                Shape::Leaf => {},
            }
        }
        self.visited_nodes.push((curr_index, 0));
        let ghost pushed = *self;
        proof {
            assert(firsts(self.visited()) =~= firsts(before.visited()).push(curr_index as nat));
        }
        if chars_less(&name, &node_name) {
            if self.data[curr_index].left == -1 {
                self.data[curr_index].left = insert_node_index as i32;
                let alpha_height = log32(self.nodes_in_tree + 1);
                proof {
                    lemma_log32_exceeded(before.count() + 1int, alpha_height as nat, depth as nat + 1);
                    match sub {
                        Shape::Node(j, l, r) => {
                            assert(before.links()[curr_index as int] == (l.root(), r.root()));
                            assert(*l is Leaf);
                            assert(l.path(keys, k) =~= Seq::<nat>::empty());
                            assert(l.find(keys, k) == -1);
                            assert(sub.path(keys, k) =~= seq![curr_index as nat]);
                        },
                        Shape::Leaf => {},
                    }
                    assert(firsts(self.visited()) =~= sh.path(keys, k));
                    assert(self.links() =~= before.links().update(curr_index as int, set_side(before.links()[curr_index as int], 0, insert_node_index as int)));
                }
                return (true, self.data[curr_index].left as usize, (depth + 1) > alpha_height);
            } else {
                let next = self.data[curr_index].left as usize;
                proof {
                    match sub {
                        Shape::Node(j, l, r) => {
                            assert(before.links()[curr_index as int] == (l.root(), r.root()));
                            assert(sh.subtree_at(next as nat) == *l);
                            assert(sub.path(keys, k) =~= seq![curr_index as nat] + l.path(keys, k));
                            assert(firsts(self.visited()) + l.path(keys, k) =~= firsts(before.visited()) + sub.path(keys, k));
                        },
                        Shape::Leaf => {},
                    }
                    assert(self.keys() =~= keys);
                }
                let res = self._set_child(name_index, sid, insert_node_index, next, depth + 1);
                proof {
                    assert forall|i: int| before.visited().len() <= i < self.visited().len() implies #[trigger] self.visited()[i].1 == 0 by {
                        if i == before.visited().len() {
                            assert(self.visited().subrange(0, pushed.visited().len() as int)[i] == self.visited()[i]);
                        }
                    }
                }
                return res;
            }
        } else {
            if self.data[curr_index].right == -1 {
                self.data[curr_index].right = insert_node_index as i32;
                let alpha_height = log32(self.nodes_in_tree + 1);
                proof {
                    lemma_log32_exceeded(before.count() + 1int, alpha_height as nat, depth as nat + 1);
                    match sub {
                        Shape::Node(j, l, r) => {
                            assert(before.links()[curr_index as int] == (l.root(), r.root()));
                            assert(*r is Leaf);
                            assert(r.path(keys, k) =~= Seq::<nat>::empty());
                            assert(r.find(keys, k) == -1);
                            assert(sub.path(keys, k) =~= seq![curr_index as nat]);
                        },
                        Shape::Leaf => {},
                    }
                    assert(firsts(self.visited()) =~= sh.path(keys, k));
                    assert(self.links() =~= before.links().update(curr_index as int, set_side(before.links()[curr_index as int], 1, insert_node_index as int)));
                }
                return (true, self.data[curr_index].right as usize, (depth + 1) > alpha_height);
            } else {
                let next = self.data[curr_index].right as usize;
                proof {
                    match sub {
                        Shape::Node(j, l, r) => {
                            assert(before.links()[curr_index as int] == (l.root(), r.root()));
                            assert(sh.subtree_at(next as nat) == *r);
                            assert(sub.path(keys, k) =~= seq![curr_index as nat] + r.path(keys, k));
                            assert(firsts(self.visited()) + r.path(keys, k) =~= firsts(before.visited()) + sub.path(keys, k));
                        },
                        Shape::Leaf => {},
                    }
                    assert(self.keys() =~= keys);
                }
                let res = self._set_child(name_index, sid, insert_node_index, next, depth + 1);
                proof {
                    assert forall|i: int| before.visited().len() <= i < self.visited().len() implies #[trigger] self.visited()[i].1 == 0 by {
                        if i == before.visited().len() {
                            assert(self.visited().subrange(0, pushed.visited().len() as int)[i] == self.visited()[i]);
                        }
                    }
                }
                return res;
            }
        }
    }
}

/// A subtree of `size` nodes whose root is `depth` levels above the bottom of the search
/// is too deep: `(3/2)^depth > size`.
pub open spec fn too_deep(depth: int, size: nat) -> bool {
    !alpha_fits(size as int, depth as nat)
}

/// The first of the passed nodes `1..=hi` whose subtree is too small for the depth of the
/// new node under it, or -1.
pub open spec fn lowest_deep(t: Shape, v: Seq<nat>, hi: int) -> int
    decreases hi,
{
    if hi < 1 {
        -1
    } else {
        let r = lowest_deep(t, v, hi - 1);
        if r != -1 {
            r
        } else if too_deep(v.len() - hi, subtree_size(t, v[hi] as int)) {
            hi
        } else {
            -1
        }
    }
}

/// The scapegoat found from the `ti`-th passed node up, with `found` at `fidx` found below:
/// the highest passed node below the root whose subtree is too small for the depth of the
/// new node under it, else `found`, else the root.
pub open spec fn scapegoat_pick(t: Shape, v: Seq<nat>, ti: int, found: int, fidx: int) -> (int, int) {
    let s = lowest_deep(t, v, ti);
    if s != -1 {
        (v[s] as int, s)
    } else if found != -1 {
        (found, fidx)
    } else {
        (v[0] as int, 0)
    }
}

/// The subtree at a node is the node and its children's subtrees.
proof fn lemma_size_split(t: Shape, links: Seq<(int, int)>, x: nat)
    requires
        t.linked(links),
        t.inorder().no_duplicates(),
        t.inorder().contains(x),
    ensures
        subtree_size(t, x as int) == 1 + subtree_size(t, links[x as int].0) + subtree_size(t, links[x as int].1),
{
    lemma_subtree_at(t, x);
    lemma_subtree_children(t, x);
    lemma_subtree_linked(t, x, links);
    let sub = t.subtree_at(x);
    lemma_node_contains(sub);
    match sub {
        Shape::Node(j, l, r) => {
            assert(links[x as int] == (l.root(), r.root()));
            if l.root() == -1 {
                assert(l.inorder().len() == 0);
            }
            if r.root() == -1 {
                assert(r.inorder().len() == 0);
            }
        },
        Shape::Leaf => {},
    }
}

impl ScapeTree {
    /// Walks back up the visited list from position `traverse_index`, recording for each
    /// node the size of its subtree, the new node included, and gives the scapegoat and its position:
    /// the highest visited node below the root whose subtree is too small for the depth of
    /// the new node under it, else `found_scape` at `found_scape_index` when one was found
    /// below, else the root.
    #[verifier::rlimit(80)]
    pub fn _find_scapegoat(&mut self, traverse_index: usize, found_scape: i32, found_scape_index: usize) -> (res: (usize, usize))
        requires
            old(self).arranged(),
            firsts(old(self).visited()).len() >= 1,
            old(self).visited().len() <= old(self).count(),
            traverse_index < old(self).visited().len(),
            forall|i: int| 1 <= i < old(self).visited().len() ==> old(self).links()[firsts(old(self).visited())[i - 1] as int].0 == #[trigger] firsts(old(self).visited())[i]
                || old(self).links()[firsts(old(self).visited())[i - 1] as int].1 == firsts(old(self).visited())[i],
            forall|i: int| 0 <= i < old(self).visited().len() ==> #[trigger] firsts(old(self).visited())[i] < old(self).count(),
            traverse_index + 1 < old(self).visited().len() ==> old(self).visited()[traverse_index + 1].1 == subtree_size(
                old(self).tree(),
                firsts(old(self).visited())[traverse_index + 1] as int,
            ),
            found_scape == -1 || (found_scape_index < old(self).visited().len() && found_scape as int == firsts(old(self).visited())[found_scape_index as int]),
        ensures
            firsts(final(self).visited()) == firsts(old(self).visited()),
            forall|j: int| 0 <= j < old(self).visited().len() ==> #[trigger] final(self).visited()[j].1 as int == if 1 <= j <= traverse_index {
                subtree_size(old(self).tree(), firsts(old(self).visited())[j] as int) as int
            } else {
                old(self).visited()[j].1 as int
            },
            final(self).same_nodes(old(self)),
            final(self).same_layout(old(self)),
            final(self).links() == old(self).links(),
            final(self).flattened() == old(self).flattened(),
            (res.0 as int, res.1 as int) == scapegoat_pick(
                old(self).tree(),
                firsts(old(self).visited()),
                traverse_index as int,
                found_scape as int,
                found_scape_index as int,
            ),
        decreases traverse_index,
    {
        let ghost v = firsts(self.visited());
        let ghost t = self.shape@;
        let ghost links = self.links();
        if traverse_index == 0 {
            if found_scape != -1 {
                return (found_scape as usize, found_scape_index);
            } else {
                return (self.visited_nodes[traverse_index].0, traverse_index);
            }
        }
        let ghost ti = traverse_index as int;
        proof {
            lemma_ordered_distinct(t.inorder(), self.keys());
            assert forall|i: int| 0 <= i < v.len() implies t.inorder().contains(#[trigger] v[i]) by {
                assert(v[i] < self.data@.len());
            }
            assert(t.inorder().contains(v[ti]));
            lemma_size_split(t, links, v[ti]);
            lemma_subtree_len(t, v[ti]);
        }
        let visited_node = self.visited_nodes[traverse_index].0;
        let sub_size: usize = if traverse_index + 1 == self.visited_nodes.len() {
            self.size(visited_node as i32)
        } else {
            let next_node = self.visited_nodes[traverse_index + 1].0;
            let left = self.data[visited_node].left;
            let right = self.data[visited_node].right;
            let other_child: i32 = if left == next_node as i32 {
                right
            } else {
                left
            };
            proof {
                assert(links[v[ti] as int] == (left as int, right as int));
                assert(links[v[ti] as int].0 == v[ti + 1] || links[v[ti] as int].1 == v[ti + 1]);
                assert(t.inorder().contains(v[ti + 1]));
            }
            let other_size = self.size(other_child);
            1 + self.visited_nodes[traverse_index + 1].1 + other_size
        };
        assert(sub_size == subtree_size(t, v[ti] as int));
        let ghost before_set = *self;
        self.visited_nodes.set(traverse_index, (visited_node, sub_size));
        proof {
            assert(firsts(self.visited()) =~= v);
        }
        let complement = self.visited_nodes.len() - traverse_index;
        let subtree_alpha_height = log32(sub_size);
        proof {
            lemma_log32_exceeded(sub_size as int, subtree_alpha_height as nat, complement as nat);
        }
        let mut found_scape = found_scape;
        let mut found_scape_index = found_scape_index;
        if complement > subtree_alpha_height {
            found_scape = self.visited_nodes[traverse_index].0 as i32;
            found_scape_index = traverse_index;
        }
        proof {
            assert(self.links() =~= links);
            assert(lowest_deep(t, v, ti) == if lowest_deep(t, v, ti - 1) != -1 {
                lowest_deep(t, v, ti - 1)
            } else if too_deep(v.len() - ti, subtree_size(t, v[ti] as int)) {
                ti
            } else {
                -1
            });
        }
        self._find_scapegoat(traverse_index - 1, found_scape, found_scape_index)
    }
}

/// The scapegoat search picks -1 or a node in `1..=hi`.
proof fn lemma_lowest_deep_range(t: Shape, v: Seq<nat>, hi: int)
    ensures
        lowest_deep(t, v, hi) == -1 || 1 <= lowest_deep(t, v, hi) <= hi,
    decreases hi,
{
    if hi >= 1 {
        lemma_lowest_deep_range(t, v, hi - 1);
    }
}

impl ScapeTree {
    /// The links of an arranged tree are those its shape gives.
    proof fn lemma_shape_links(&self)
        requires
            self.arranged(),
        ensures
            self.links() == shape_links(self.shape@, self.data@.len()),
    {
        let sh = self.shape@;
        lemma_ordered_distinct(sh.inorder(), self.keys());
        assert forall|i: int| 0 <= i < self.data@.len() implies self.links()[i] == shape_links(sh, self.data@.len())[i] by {
            assert(sh.inorder().contains(i as nat));
            lemma_subtree_at(sh, i as nat);
            lemma_subtree_linked(sh, i as nat, self.links());
            let sub = sh.subtree_at(i as nat);
            match sub {
                Shape::Node(j, l, r) => {
                    assert(self.links()[i] == (l.root(), r.root()));
                },
                Shape::Leaf => {},
            }
        }
        assert(self.links() =~= shape_links(sh, self.data@.len()));
    }

    /// A tree with the names, links and layout of an arranged one is arranged.
    proof fn lemma_arranged_kept(&self, other: &Self)
        requires
            other.arranged(),
            self.name_store == other.name_store,
            self.nodes_in_tree == other.nodes_in_tree,
            self.data@.len() == other.data@.len(),
            forall|i: int| 0 <= i < self.data@.len() ==> #[trigger] self.data@[i].player_name_index == other.data@[i].player_name_index,
            self.links() == other.links(),
            self.same_layout(other),
        ensures
            self.arranged(),
            self.keys() == other.keys(),
    {
        assert(self.keys() =~= other.keys());
        assert forall|i: int| 0 <= i < self.data@.len() implies (#[trigger] self.data@[i].left == -1 || 0 <= self.data@[i].left < self.data@.len()) && (
        self.data@[i].right == -1 || 0 <= self.data@[i].right < self.data@.len()) by {
            assert(self.links()[i] == other.links()[i]);
            assert(other.data@[i].left == -1 || 0 <= other.data@[i].left < other.data@.len());
        }
        assert forall|i: int| 0 <= i < self.data@.len() implies (#[trigger] self.data@[i]).player_name_index < self.name_store@.len() by {
            assert(other.data@[i].player_name_index < other.name_store@.len());
        }
    }

    /// Storing a name keeps the tree as it was.
    proof fn lemma_named(&self, before: &Self)
        requires
            before.arranged(),
            self.name_store.wf(),
            self.name_store@.len() >= before.name_store@.len(),
            self.name_store@.subrange(0, before.name_store@.len() as int) == before.name_store@,
            self.data == before.data,
            self.nodes_in_tree == before.nodes_in_tree,
            self.same_layout(before),
        ensures
            self.arranged(),
            self.keys() == before.keys(),
            self.links() == before.links(),
            forall|k: Seq<char>| #[trigger] self.lookup(k) == before.lookup(k),
    {
        assert forall|i: int| 0 <= i < self.data@.len() implies self.keys()[i] == before.keys()[i] by {
            let j = self.data@[i].player_name_index as int;
            assert(self.name_store@.subrange(0, before.name_store@.len() as int)[j] == self.name_store@[j]);
        }
        assert(self.keys() =~= before.keys());
        assert(self.links() =~= before.links());
    }

    /// After a new leaf for `name` is hung where its search ends, the tree is arranged and
    /// records the ban, and the nodes passed run from the root down to the leaf's parent.
    #[verifier::rlimit(80)]
    proof fn lemma_grown(&self, mid: &Self, before: &Self, name: Seq<char>, time: usize, sid: usize, p: int, d: int)
        requires
            before.arranged(),
            before.data@.len() > 0,
            before.data@.len() + 1 < i32::MAX,
            before.tree().find(before.keys(), name) == -1,
            before.tree().reached(before.keys(), name, p as nat),
            before.tree().path(before.keys(), name).len() > 0,
            p == before.tree().path(before.keys(), name).last(),
            before.keys()[p] != name,
            d == if lex_less(name, before.keys()[p]) { 0int } else { 1int },
            side(before.links()[p], d) == -1,
            mid.same_nodes(before),
            mid.same_layout(before),
            mid.links() == before.links().update(p, set_side(before.links()[p], d, before.data@.len() as int)),
            self.name_store == before.name_store,
            self.root_index == before.root_index,
            self.nodes_in_tree == before.nodes_in_tree + 1,
            self.data@.len() == before.data@.len() + 1,
            self.data@.subrange(0, before.data@.len() as int) == mid.data@,
            self.data@.last().player_name_index < self.name_store@.len(),
            self.name_store@[self.data@.last().player_name_index as int] == name,
            self.data@.last().sids@ == seq![sid],
            self.data@.last().time_banned == time,
            self.data@.last().left == -1,
            self.data@.last().right == -1,
            self.shape@ == before.tree().insert_leaf(before.keys().push(name), name, before.data@.len()),
        ensures
            self.arranged(),
            forall|k: Seq<char>| #[trigger] self.lookup(k) == record_step(before.lookup(k), k, name, time, sid),
            self.keys() == before.keys().push(name),
            self.links() == before.links().update(p, set_side(before.links()[p], d, before.data@.len() as int)).push((-1int, -1int)),
            ({
                let v = before.tree().path(before.keys(), name);
                &&& forall|i: int| 1 <= i < v.len() ==> self.links()[v[i - 1] as int].0 == #[trigger] v[i] || self.links()[v[i - 1] as int].1 == v[i]
                &&& forall|i: int| 0 <= i < v.len() ==> #[trigger] v[i] < before.data@.len()
                &&& v.len() <= before.data@.len()
                &&& subtree_size(self.tree(), v.last() as int) >= 2
                &&& v[0] == self.tree().root()
                &&& self.tree() is Node
            }),
    {
        let n = before.data@.len();
        let sh = before.tree();
        let keys = before.keys();
        let links = before.links();
        let keys2 = self.keys();
        let links2 = self.links();
        let v = sh.path(keys, name);
        assert forall|i: int| 0 <= i < n implies self.data@[i] == mid.data@[i] by {
            assert(self.data@.subrange(0, n as int)[i] == self.data@[i]);
        }
        assert(keys2 =~= keys.push(name));
        assert(links2 =~= links.update(p, set_side(links[p], d, n as int)).push((-1int, -1int)));
        lemma_attach_leaf(sh, keys, keys2, name, links, links2, p as nat, d, n);
        let sh2 = self.shape@;
        lemma_ordered_distinct(sh2.inorder(), keys2);
        // the records
        assert forall|k: Seq<char>| #[trigger] self.lookup(k) == record_step(before.lookup(k), k, name, time, sid) by {
            if k != name {
                lemma_find(sh, keys, k);
                let f = sh.find(keys, k);
                if f != -1 {
                    let q = choose|q: int| 0 <= q < sh.inorder().len() && sh.inorder()[q] == f as nat;
                    assert(self.data@[f] == mid.data@[f]);
                    assert(mid.data@[f].player_name_index == before.data@[f].player_name_index);
                }
            } else {
                assert(self.data@[n as int] == self.data@.last());
            }
        }
        // the arena
        assert(forall|i: nat| i < self.data@.len() ==> #[trigger] sh2.inorder().contains(i));
        assert(all_below(sh2.inorder(), self.data@.len() as int)) by {
            assert forall|q: int| 0 <= q < sh2.inorder().len() implies #[trigger] sh2.inorder()[q] < self.data@.len() by {
                let y = sh2.inorder()[q];
                assert(sh2.inorder().contains(y));
                if y != n {
                    assert(sh.inorder().contains(y));
                    let q2 = choose|q2: int| 0 <= q2 < sh.inorder().len() && sh.inorder()[q2] == y;
                }
            }
        }
        assert(self.links_valid()) by {
            assert forall|i: int| 0 <= i < self.data@.len() implies (#[trigger] self.data@[i].left == -1 || 0 <= self.data@[i].left < self.data@.len()) && (
            self.data@[i].right == -1 || 0 <= self.data@[i].right < self.data@.len()) by {
                if i < n {
                    assert(self.data@[i] == mid.data@[i]);
                    assert(links2[i] == (self.data@[i].left as int, self.data@[i].right as int));
                    if i != p {
                        assert(links2[i] == links[i]);
                        assert(before.data@[i].left == -1 || 0 <= before.data@[i].left < n);
                        assert(links[i] == (before.data@[i].left as int, before.data@[i].right as int));
                    } else {
                        assert(before.data@[i].left == -1 || 0 <= before.data@[i].left < n);
                        assert(links[i] == (before.data@[i].left as int, before.data@[i].right as int));
                    }
                }
            }
        }
        assert forall|i: int| 0 <= i < self.data@.len() implies (#[trigger] self.data@[i]).player_name_index < self.name_store@.len() by {
            if i < n {
                assert(self.data@[i] == mid.data@[i]);
            }
        }
        lemma_replace_root(sh, p as nat, with_child(sh.subtree_at(p as nat), d, single(n)));
        lemma_reached_in(sh, keys, name, p as nat);
        lemma_ordered_distinct(sh.inorder(), keys);
        lemma_subtree_at(sh, p as nat);
        // the nodes passed
        lemma_path_chain(sh, keys, name, links);
        lemma_path_len(sh, keys, name);
        assert forall|i: int| 0 <= i < v.len() implies #[trigger] v[i] < n by {
            assert(sh.inorder().contains(v[i]));
            let q = choose|q: int| 0 <= q < sh.inorder().len() && sh.inorder()[q] == v[i];
        }
        assert forall|i: int| 1 <= i < v.len() implies links2[v[i - 1] as int].0 == #[trigger] v[i] || links2[v[i - 1] as int].1 == v[i] by {
            assert(links[v[i - 1] as int].0 == v[i] || links[v[i - 1] as int].1 == v[i]);
            assert(v[i - 1] < n);
        }
        let tn = with_child(sh.subtree_at(p as nat), d, single(n));
        lemma_node_contains(tn);
        lemma_node_contains(single(n));
        lemma_node_contains(Shape::Leaf);
        lemma_node_contains(sh.subtree_at(p as nat));
        assert(tn.root() == p);
        lemma_replace_subtree(sh, p as nat, tn);
        assert(tn.inorder().contains(p as nat));
        assert(tn.inorder().contains(n));
        assert(tn.inorder().len() >= 2) by {
            if tn.inorder().len() < 2 {
                assert(tn.inorder().len() == 1);
                assert(tn.inorder()[0] == p && tn.inorder()[0] == n) by {
                    let a = choose|q: int| 0 <= q < tn.inorder().len() && tn.inorder()[q] == p as nat;
                    let b = choose|q: int| 0 <= q < tn.inorder().len() && tn.inorder()[q] == n;
                }
            }
        }
    }
}


/// The links of the nodes `0..n` of the tree `t`: each node's links to the roots of its
/// subtrees.
pub open spec fn shape_links(t: Shape, n: nat) -> Seq<(int, int)> {
    Seq::new(n, |i: int| (child(t.subtree_at(i as nat), 0).root(), child(t.subtree_at(i as nat), 1).root()))
}

/// The shape after a ban of `k` is recorded in the tree `t` with names `keys`, `n` being the
/// index a new node gets: unchanged when `k` is held; else a new leaf where the search for
/// `k` ends, and when that leaf lies deeper than the height bound of `n + 1` nodes allows,
/// the subtree at the scapegoat rebuilt perfectly balanced.
pub open spec fn inserted_shape(t: Shape, keys: Seq<Seq<char>>, k: Seq<char>, n: nat) -> Shape {
    if t.find(keys, k) != -1 {
        t
    } else if t is Leaf {
        single(n)
    } else {
        let v = t.path(keys, k);
        let t2 = t.insert_leaf(keys.push(k), k, n);
        if alpha_fits(n + 1int, v.len()) {
            t2
        } else {
            let x = scapegoat_pick(t2, v, v.len() - 1, -1, 0).0;
            t2.replace_at(x as nat, balanced(t2.subtree_at(x as nat).inorder()))
        }
    }
}

/// Every node of `t` lies at most `log32(n)` levels below the root: `(3/2)^d <= n` for the
/// depth `d` of its deepest node.
pub open spec fn height_fits(t: Shape, n: nat) -> bool {
    t.height() == 0 || alpha_fits(n as int, (t.height() - 1) as nat)
}

/// A depth that fits `n` nodes fits any more.
proof fn lemma_alpha_fits_grow(n: int, m: int, k: nat)
    requires
        0 <= n <= m,
        alpha_fits(n, k),
    ensures
        alpha_fits(m, k),
{
    lemma_pow_step(k);
    assert(n * pow(2, k) <= m * pow(2, k)) by (nonlinear_arith)
        requires
            n <= m,
            pow(2, k) >= 1,
    ;
}

/// `e` levels fit `m` nodes when `2^e <= m`.
proof fn lemma_wide_fits(m: int, e: nat)
    requires
        m >= pow(2, e),
    ensures
        alpha_fits(m, e),
{
    lemma_pow_step(e);
    vstd::arithmetic::power::lemma_pow_distributes(2, 2, e);
    lemma_pow_base_monotone(4, 3, e);
    assert(pow(4, e) == pow(2, e) * pow(2, e));
    assert(pow(3, e) <= m * pow(2, e)) by (nonlinear_arith)
        requires
            m >= pow(2, e),
            pow(2, e) >= 1,
            pow(4, e) == pow(2, e) * pow(2, e),
            pow(4, e) >= pow(3, e),
    ;
}

/// The perfectly balanced tree over `s` is `h >= 1` levels tall with `2^(h - 1) <= s.len()`.
proof fn lemma_balanced_height(s: Seq<nat>)
    requires
        s.len() >= 1,
    ensures
        balanced(s).height() >= 1,
        pow(2, (balanced(s).height() - 1) as nat) <= s.len(),
    decreases s.len(),
{
    let m = s.len() / 2;
    let ls = s.subrange(0, m as int);
    let rs = s.subrange(m + 1int, s.len() as int);
    lemma_balanced_inorder(ls);
    lemma_balanced_inorder(rs);
    if ls.len() >= 1 {
        lemma_balanced_height(ls);
    }
    if rs.len() >= 1 {
        lemma_balanced_height(rs);
    }
    let hl = balanced(ls).height();
    let hr = balanced(rs).height();
    let h = balanced(s).height();
    assert(h == 1 + if hl >= hr { hl } else { hr });
    if hl == 0 && hr == 0 {
        reveal(pow);
    } else {
        let (hc, c) = if hl >= hr {
            (hl, ls.len())
        } else {
            (hr, rs.len())
        };
        assert(hc >= 1);
        assert(c >= 1);
        lemma_pow_step((hc - 1) as nat);
        assert(c <= m);
        assert(pow(2, hc) <= s.len()) by (nonlinear_arith)
            requires
                pow(2, hc) == 2 * pow(2, (hc - 1) as nat),
                pow(2, (hc - 1) as nat) <= c,
                c <= m,
                m == s.len() / 2,
        ;
    }
}

/// The nodes a search passes are nodes of the tree, one per level at most.
proof fn lemma_path_nodes(t: Shape, keys: Seq<Seq<char>>, k: Seq<char>)
    ensures
        forall|j: int| 0 <= j < t.path(keys, k).len() ==> t.inorder().contains(#[trigger] t.path(keys, k)[j]),
        t.path(keys, k).len() <= t.height(),
    decreases t,
{
    lemma_node_contains(t);
    match t {
        Shape::Leaf => {},
        Shape::Node(i, l, r) => {
            lemma_path_nodes(*l, keys, k);
            lemma_path_nodes(*r, keys, k);
            let p = t.path(keys, k);
            if k != keys[i as int] {
                let c = if lex_less(k, keys[i as int]) {
                    *l
                } else {
                    *r
                };
                assert(p == seq![i].add(c.path(keys, k)));
                assert forall|j: int| 0 <= j < p.len() implies t.inorder().contains(#[trigger] p[j]) by {
                    if j > 0 {
                        assert(p[j] == c.path(keys, k)[j - 1]);
                    }
                }
            }
        },
    }
}

/// A new leaf `n` adds that node and keeps the others; when the name is not held, it lies
/// one level below the end of the search path.
proof fn lemma_insert_leaf_nodes(t: Shape, keys: Seq<Seq<char>>, k: Seq<char>, n: nat)
    requires
        forall|y: nat| #[trigger] t.inorder().contains(y) ==> y < keys.len(),
    ensures
        forall|y: nat| t.inorder().contains(y) ==> #[trigger] t.insert_leaf(keys.push(k), k, n).inorder().contains(y),
        t.insert_leaf(keys.push(k), k, n).inorder().len() == t.inorder().len() + 1,
        t.find(keys, k) == -1 ==> {
            let h = t.insert_leaf(keys.push(k), k, n).height();
            h <= t.height() || h <= t.path(keys, k).len() + 1
        },
    decreases t,
{
    let t2 = t.insert_leaf(keys.push(k), k, n);
    lemma_node_contains(t);
    lemma_node_contains(t2);
    match t {
        Shape::Leaf => {},
        Shape::Node(i, l, r) => {
            lemma_node_contains(*l);
            lemma_node_contains(*r);
            assert(t.inorder().contains(i));
            assert(keys.push(k)[i as int] == keys[i as int]);
            assert forall|y: nat| #[trigger] l.inorder().contains(y) implies y < keys.len() by {
                assert(t.inorder().contains(y));
            }
            assert forall|y: nat| #[trigger] r.inorder().contains(y) implies y < keys.len() by {
                assert(t.inorder().contains(y));
            }
            lemma_insert_leaf_nodes(*l, keys, k, n);
            lemma_insert_leaf_nodes(*r, keys, k, n);
        },
    }
}

/// Replacing the subtree at the `j`-th node passed, once the new leaf is in, by `s` leaves a
/// tree no taller than the old tree or than `j` levels above `s`.
proof fn lemma_rebuilt_height(t: Shape, keys: Seq<Seq<char>>, k: Seq<char>, n: nat, j: int, s: Shape)
    requires
        t.inorder().no_duplicates(),
        forall|y: nat| #[trigger] t.inorder().contains(y) ==> y < keys.len(),
        0 <= j < t.path(keys, k).len(),
    ensures
        ({
            let h = t.insert_leaf(keys.push(k), k, n).replace_at(t.path(keys, k)[j], s).height();
            h <= t.height() || h <= j + s.height()
        }),
    decreases t,
{
    match t {
        Shape::Leaf => {},
        Shape::Node(i, l, r) => {
            lemma_node_contains(t);
            lemma_node_contains(*l);
            lemma_node_contains(*r);
            lemma_distinct_node(i, *l, *r);
            let p = t.path(keys, k);
            assert(t.inorder().contains(i));
            assert(keys.push(k)[i as int] == keys[i as int]);
            assert forall|y: nat| #[trigger] l.inorder().contains(y) implies y < keys.len() by {
                assert(t.inorder().contains(y));
            }
            assert forall|y: nat| #[trigger] r.inorder().contains(y) implies y < keys.len() by {
                assert(t.inorder().contains(y));
            }
            assert(k != keys[i as int]);
            if j == 0 {
                assert(p[0] == i);
            } else if lex_less(k, keys[i as int]) {
                assert(p[j] == l.path(keys, k)[j - 1]);
                lemma_path_nodes(*l, keys, k);
                lemma_insert_leaf_nodes(*l, keys, k, n);
                assert(l.inorder().contains(p[j]));
                lemma_rebuilt_height(*l, keys, k, n, j - 1, s);
            } else {
                assert(p[j] == r.path(keys, k)[j - 1]);
                lemma_path_nodes(*r, keys, k);
                assert(r.inorder().contains(p[j]));
                lemma_rebuilt_height(*r, keys, k, n, j - 1, s);
            }
        },
    }
}

/// The scapegoat search's pick, when it finds one, is a passed node below the root whose
/// subtree is too small for the depth of the new node under it.
proof fn lemma_lowest_deep_found(t: Shape, v: Seq<nat>, hi: int)
    ensures
        lowest_deep(t, v, hi) != -1 ==> 1 <= lowest_deep(t, v, hi) <= hi && too_deep(
            v.len() - lowest_deep(t, v, hi),
            subtree_size(t, v[lowest_deep(t, v, hi)] as int),
        ),
    decreases hi,
{
    if hi >= 1 {
        lemma_lowest_deep_found(t, v, hi - 1);
    }
}

/// An insertion keeps every node within `log32` of the node count levels below the root:
/// a new leaf that lies too deep is lifted by rebuilding its scapegoat's subtree.
pub proof fn lemma_inserted_fits(t: Shape, keys: Seq<Seq<char>>, k: Seq<char>, n: nat)
    requires
        t.inorder().no_duplicates(),
        t.inorder().len() == n,
        forall|y: nat| #[trigger] t.inorder().contains(y) ==> y < keys.len(),
        height_fits(t, n),
    ensures
        height_fits(inserted_shape(t, keys, k, n), if t.find(keys, k) != -1 {
            n
        } else {
            n + 1
        }),
{
    if t.find(keys, k) != -1 {
    } else if t is Leaf {
        reveal(pow);
        assert(single(n).height() == 1);
    } else {
        let v = t.path(keys, k);
        let t2 = t.insert_leaf(keys.push(k), k, n);
        let big_l = v.len();
        lemma_insert_leaf_nodes(t, keys, k, n);
        lemma_path_nodes(t, keys, k);
        let ht = t.height();
        assert(ht >= 1);
        assert(alpha_fits(n as int, (ht - 1) as nat));
        lemma_alpha_fits_grow(n as int, n + 1int, (ht - 1) as nat);
        if alpha_fits(n + 1int, big_l) {
            let h2 = t2.height();
            if h2 >= 1 {
                if h2 <= ht {
                    lemma_alpha_fits_down(n + 1int, (ht - 1) as nat, (h2 - 1) as nat);
                } else {
                    lemma_alpha_fits_down(n + 1int, big_l, (h2 - 1) as nat);
                }
            }
        } else {
            let i = t.root();
            match t {
                Shape::Node(r0, l0, rr0) => {
                    assert(k != keys[r0 as int]);
                    assert(v[0] == r0);
                },
                Shape::Leaf => {},
            }
            lemma_lowest_deep_found(t2, v, big_l - 1);
            let pick = scapegoat_pick(t2, v, big_l - 1, -1, 0);
            let x = pick.0;
            let j = pick.1;
            assert(0 <= j < big_l);
            assert(x == v[j]);
            let e = (big_l - j) as nat;
            let m = subtree_size(t2, x);
            assert(too_deep(e as int, m)) by {
                if j == 0 {
                    match t2 {
                        Shape::Node(r2, l2, rr2) => {
                            assert(r2 == v[0]);
                            assert(t2.subtree_at(v[0]) == t2);
                        },
                        Shape::Leaf => {},
                    }
                }
            }
            let sub = t2.subtree_at(x as nat).inorder();
            let b = balanced(sub);
            lemma_balanced_inorder(sub);
            assert(sub.len() == m);
            if m >= 1 {
                lemma_balanced_height(sub);
                if b.height() - 1 >= e {
                    vstd::arithmetic::power::lemma_pow_increases(2, e, (b.height() - 1) as nat);
                    lemma_wide_fits(m as int, e);
                }
            }
            assert(b.height() <= e);
            lemma_rebuilt_height(t, keys, k, n, j, b);
            let t3 = t2.replace_at(x as nat, b);
            assert(t3 == inserted_shape(t, keys, k, n));
            let h3 = t3.height();
            if h3 >= 1 {
                lemma_alpha_fits_down(n + 1int, (ht - 1) as nat, (h3 - 1) as nat);
            }
        }
    }
}

/// The tree `t` with names `keys` after the entries `rows` are recorded in order, a new
/// name becoming the next node; with the names after.
pub open spec fn scape_after_rows(t: Shape, keys: Seq<Seq<char>>, rows: Seq<RowSpec>) -> (Shape, Seq<Seq<char>>)
    decreases rows.len(),
{
    if rows.len() == 0 {
        (t, keys)
    } else {
        let (t0, k0) = scape_after_rows(t, keys, rows.drop_last());
        let name = rows.last().name;
        let k1 = if t0.find(k0, name) != -1 {
            k0
        } else {
            k0.push(name)
        };
        (inserted_shape(t0, k0, name, k0.len()), k1)
    }
}

impl ScapeTree {
    /// An insertion into an arranged tree whose nodes lie within the height bound keeps them
    /// within the bound for the new count.
    proof fn lemma_insert_fits(&self, k: Seq<char>)
        requires
            self.arranged(),
        ensures
            height_fits(self.tree(), self.count()) ==> height_fits(
                inserted_shape(self.tree(), self.keys(), k, self.count()),
                (self.count() + if self.lookup(k) is Some {
                    0int
                } else {
                    1int
                }) as nat,
            ),
    {
        let t = self.shape@;
        if height_fits(t, self.count()) {
            lemma_ordered_distinct(t.inorder(), self.keys());
            assert forall|y: nat| #[trigger] t.inorder().contains(y) implies y < self.keys().len() by {
                let q = choose|q: int| 0 <= q < t.inorder().len() && t.inorder()[q] == y;
            }
            lemma_inserted_fits(t, self.keys(), k, self.count());
        }
    }
}

impl ScapeTree {
    /// After an insertion whose search passed the visited nodes, finds the scapegoat on that
    /// path and rebuilds its subtree perfectly balanced.
    #[verifier::rlimit(80)]
    fn rebuild_at_scapegoat(&mut self)
        requires
            old(self).arranged(),
            old(self).flattened().len() == 0,
            old(self).visited().len() >= 1,
            old(self).visited().len() <= old(self).count(),
            old(self).tree().root() == firsts(old(self).visited())[0],
            forall|i: int| 1 <= i < old(self).visited().len() ==> old(self).links()[firsts(old(self).visited())[i - 1] as int].0 == #[trigger] firsts(old(self).visited())[i]
                || old(self).links()[firsts(old(self).visited())[i - 1] as int].1 == firsts(old(self).visited())[i],
            forall|i: int| 0 <= i < old(self).visited().len() ==> #[trigger] firsts(old(self).visited())[i] < old(self).count(),
        ensures
            final(self).arranged(),
            final(self).flattened().len() == 0,
            firsts(final(self).visited()) == firsts(old(self).visited()),
            final(self).same_nodes(old(self)),
            final(self).keys() == old(self).keys(),
            forall|k: Seq<char>| #[trigger] final(self).lookup(k) == old(self).lookup(k),
            final(self).tree() == ({
                let x = scapegoat_pick(old(self).tree(), firsts(old(self).visited()), old(self).visited().len() - 1, -1, 0).0;
                old(self).tree().replace_at(x as nat, balanced(old(self).tree().subtree_at(x as nat).inorder()))
            }),
    {
        let ghost grown = *self;
        let ghost v = firsts(self.visited());
        let scape_res = self._find_scapegoat(self.visited_nodes.len() - 1, -1, 0);
        let scape_node = scape_res.0;
        proof {
            lemma_lowest_deep_range(grown.shape@, v, v.len() - 1);
            assert(firsts(self.visited()) == v);
        }
        let scape_parent: i32 = if scape_res.1 != 0 {
            self.visited_nodes[scape_res.1 - 1].0 as i32
        } else {
            -1
        };
        proof {
            let t2 = grown.shape@;
            lemma_ordered_distinct(t2.inorder(), grown.keys());
            if scape_res.1 != 0 {
                let j = scape_res.1 as int;
                assert(t2.inorder().contains(v[j - 1]));
                lemma_parent_unique(t2, grown.links(), v[j], v[j - 1]);
            } else {
                assert(scape_node == v[0]);
                match t2 {
                    Shape::Node(i, l, r) => {
                        assert(i == v[0]);
                    },
                    Shape::Leaf => {},
                }
            }
            assert(self.links() == grown.links());
            assert forall|i: int| 0 <= i < self.data@.len() implies #[trigger] self.data@[i].player_name_index == grown.data@[i].player_name_index by {
            }
            self.lemma_arranged_kept(&grown);
        }
        let ghost fs = *self;
        proof {
            assert forall|k: Seq<char>| #[trigger] fs.lookup(k) == grown.lookup(k) by {
                let t2 = grown.shape@;
                lemma_find(t2, grown.keys(), k);
                let f = t2.find(grown.keys(), k);
                if f != -1 {
                    let q = choose|q: int| 0 <= q < t2.inorder().len() && t2.inorder()[q] == f as nat;
                    assert(fs.data@[f].player_name_index == grown.data@[f].player_name_index);
                }
            }
        }
        self._tree_rebuild(scape_parent, scape_node);
        proof {
            assert(self.keys() =~= fs.keys());
            assert forall|k: Seq<char>| #[trigger] self.lookup(k) == grown.lookup(k) by {
                assert(self.lookup(k) == fs.lookup(k));
            }
        }
    }
}

impl ScapeTree {
    /// Records a ban of `player_name` on server `sid` at `banned_time`: a new player gets a
    /// new leaf where the search for the name ends, and when that leaf lies deeper than the
    /// height bound allows, the subtree at the scapegoat is rebuilt perfectly balanced, so
    /// that every node stays within the bound when every node was; a known player gets the
    /// server added if new and the later of the two times. Older nodes keep their names.
    #[verifier::rlimit(80)]
    pub fn insert(&mut self, player_name: &str, banned_time: usize, sid: usize)
        requires
            old(self).wf(),
            old(self).count() + 1 < i32::MAX,
            old(self).stored_names() + 1 < usize::MAX,
        ensures
            final(self).wf(),
            final(self).count() == old(self).count() + if old(self).lookup(player_name@) is Some {
                0int
            } else {
                1int
            },
            final(self).stored_names() == old(self).stored_names() + if old(self).stored_names() > 0
                && old(self).stored(old(self).stored_names() - 1) == player_name@ {
                0int
            } else {
                1int
            },
            forall|k: Seq<char>| #[trigger] final(self).lookup(k) == record_step(old(self).lookup(k), k, player_name@, banned_time, sid),
            final(self).tree() == inserted_shape(old(self).tree(), old(self).keys(), player_name@, old(self).count()),
            height_fits(old(self).tree(), old(self).count()) ==> height_fits(final(self).tree(), final(self).count()),
            final(self).name_indices().take(old(self).count() as int) == old(self).name_indices(),
            forall|i: int| 0 <= i < old(self).stored_names() ==> #[trigger] final(self).stored(i) == old(self).stored(i),
            final(self).keys() == if old(self).lookup(player_name@) is Some {
                old(self).keys()
            } else {
                old(self).keys().push(player_name@)
            },
    {
        let ghost before = *self;
        let ghost name = player_name@;
        let name_index = self.name_store.insert(player_name);
        let ghost s1 = *self;
        proof {
            assert(self.name_store@.subrange(0, before.name_store@.len() as int) =~= before.name_store@);
            s1.lemma_named(&before);
            assert(s1.stored(name_index as int) == name);
            if s1.data@.len() > 0 {
                let sh = s1.shape@;
                assert(sh.inorder().contains(0));
                match sh {
                    Shape::Node(i, l, r) => {
                        assert(i == s1.root_index);
                    },
                    Shape::Leaf => {},
                }
                assert(sh.subtree_at(s1.root_index as nat) == sh);
                assert(firsts(s1.visited()) + sh.path(s1.keys(), name) =~= sh.path(s1.keys(), name));
            }
        }
        let insert_node_index = self.nodes_in_tree;
        let root = self.root_index;
        let indexing_result = self._set_child(name_index, sid, insert_node_index, root, 0);
        let ghost mid = *self;
        let node_can_be_inserted = indexing_result.0;
        let ending_index = indexing_result.1;
        let needs_rebuild = indexing_result.2;
        let ghost sh = s1.shape@;
        let ghost keys = s1.keys();
        let ghost pth = sh.path(keys, name);
        if node_can_be_inserted || self.nodes_in_tree == 0 {
            self.data.push(ScapeNode::new(name_index, banned_time, sid));
            self.nodes_in_tree += 1;
            if insert_node_index == 0 {
                proof {
                    let leaf = single(0);
                    self.shape = Ghost(leaf);
                    lemma_node_contains(leaf);
                    lemma_node_contains(Shape::Leaf);
                    assert(leaf.inorder() =~= seq![0nat]);
                    assert(self.keys() =~= seq![name]);
                    assert(self.keys() =~= before.keys().push(name));
                    assert(self.data@[0].left == -1 && self.data@[0].right == -1);
                    assert(self.links()[0] == (-1int, -1int));
                    assert(Shape::Leaf.linked(self.links()));
                    assert(before.shape@ is Leaf);
                    assert forall|k: Seq<char>| #[trigger] self.lookup(k) == record_step(before.lookup(k), k, name, banned_time, sid) by {
                        assert(before.lookup(k) is None);
                        if k == name {
                            assert(leaf.find(self.keys(), k) == 0);
                        } else {
                            assert(Shape::Leaf.find(self.keys(), k) == -1);
                            assert(leaf.find(self.keys(), k) == -1);
                        }
                    }
                    assert(all_below(leaf.inorder(), 1));
                    assert(self.links_valid());
                }
            } else {
                let ghost p = pth.last() as int;
                let ghost d = if lex_less(name, keys[p]) {
                    0int
                } else {
                    1int
                };
                proof {
                    assert(self.data@.subrange(0, s1.data@.len() as int) =~= mid.data@);
                    self.shape = Ghost(sh.insert_leaf(keys.push(name), name, s1.data@.len()));
                    self.lemma_grown(&mid, &s1, name, banned_time, sid, p, d);
                    assert forall|k: Seq<char>| #[trigger] self.lookup(k) == record_step(before.lookup(k), k, name, banned_time, sid) by {
                        assert(s1.lookup(k) == before.lookup(k));
                    }
                }
                if needs_rebuild {
                    let ghost grown = *self;
                    proof {
                        assert(firsts(self.visited()) == pth);
                        grown.lemma_shape_links();
                        let t2 = grown.shape@;
                        match t2 {
                            Shape::Node(i, l, r) => {
                                assert(i == pth[0]);
                            },
                            Shape::Leaf => {},
                        }
                    }
                    self.rebuild_at_scapegoat();
                    proof {
                        assert forall|k: Seq<char>| #[trigger] self.lookup(k) == record_step(before.lookup(k), k, name, banned_time, sid) by {
                            assert(self.lookup(k) == grown.lookup(k));
                        }
                    }
                }
            }
        } else {
            proof {
                lemma_ordered_distinct(sh.inorder(), keys);
                lemma_find(sh, keys, name);
                let f = ending_index as int;
                let q = choose|q: int| 0 <= q < sh.inorder().len() && sh.inorder()[q] == f as nat;
                assert(self.keys() =~= keys);
                assert(self.links() =~= s1.links());
            }
            if banned_time > self.data[ending_index].time_banned {
                self.data[ending_index].time_banned = banned_time;
            }
            if !contains_id(&self.data[ending_index].sids, sid) {
                self.data[ending_index].sids.push(sid);
            }
            proof {
                let f = ending_index as int;
                assert(self.links() =~= s1.links());
                assert forall|i: int| 0 <= i < self.data@.len() implies #[trigger] self.data@[i].player_name_index == s1.data@[i].player_name_index by {
                    assert(mid.data@[i].player_name_index == s1.data@[i].player_name_index);
                }
                self.lemma_arranged_kept(&s1);
                assert(self.keys() =~= keys);
                assert forall|k: Seq<char>| #[trigger] self.lookup(k) == record_step(before.lookup(k), k, name, banned_time, sid) by {
                    assert(s1.lookup(k) == before.lookup(k));
                    lemma_find(sh, keys, k);
                    let g = sh.find(keys, k);
                    if g != -1 && g != f {
                        let q = choose|q: int| 0 <= q < sh.inorder().len() && sh.inorder()[q] == g as nat;
                        assert(mid.data@[g].player_name_index == s1.data@[g].player_name_index);
                    }
                    if k == name {
                        assert(mid.data@[f].player_name_index == s1.data@[f].player_name_index);
                    }
                }
            }
        }
        proof {
            assert(self.arranged());
            assert(self.flattened().len() == 0);
            assert forall|k: Seq<char>| #[trigger] self.lookup(k) == record_step(before.lookup(k), k, name, banned_time, sid) by {
            }
        }
        proof {
            assert(s1.keys() == before.keys() && s1.links() == before.links() && s1.shape == before.shape);
            assert(self.shape@ == inserted_shape(before.shape@, before.keys(), name, before.data@.len()));
            assert(self.keys() == if before.lookup(name) is Some {
                before.keys()
            } else {
                before.keys().push(name)
            });
        }
        let ghost done = *self;
        self.visited_nodes.clear();
        proof {
            before.lemma_insert_fits(name);
            assert(self.name_indices().take(before.count() as int) =~= before.name_indices());
            assert forall|k: Seq<char>| #[trigger] self.lookup(k) == record_step(before.lookup(k), k, name, banned_time, sid) by {
                assert(self.lookup(k) == done.lookup(k));
            }
        }
    }
}

impl ScapeTree {
    /// Records the bans of the griefer list `griefers` (white-space separated entries of a
    /// name, a server and a ban time) in order.
    #[verifier::rlimit(80)]
    pub fn parse_griefers_for_scape(&mut self, griefers: String)
        requires
            old(self).wf(),
            rows_parse(ws_tokens(griefers@)),
            old(self).count() + griefer_rows(ws_tokens(griefers@)).len() + 1 < i32::MAX,
            old(self).stored_names() + griefer_rows(ws_tokens(griefers@)).len() + 1 < usize::MAX,
        ensures
            final(self).wf(),
            forall|k: Seq<char>| #[trigger] final(self).lookup(k) == record_after_rows(old(self).lookup(k), griefer_rows(ws_tokens(griefers@)), k),
            (final(self).tree(), final(self).keys()) == scape_after_rows(old(self).tree(), old(self).keys(), griefer_rows(ws_tokens(griefers@))),
            height_fits(old(self).tree(), old(self).count()) ==> height_fits(final(self).tree(), final(self).count()),
    {
        let ghost before = *self;
        let ghost rs = griefer_rows(ws_tokens(griefers@));
        let rows = match read_griefer_rows(griefers.as_str()) {
            Some(v) => v,
            None => {
                return;
            },
        };
        assert(rows@.len() == rs.len()) by {
            assert(rows@.map_values(|g: GrieferRow| row_view(g)).len() == rs.len());
        }
        let n = rows.len();
        let mut row: usize = 0;
        while row < n
            invariant
                n == rows@.len(),
                n == rs.len(),
                row <= n,
                rows@.map_values(|g: GrieferRow| row_view(g)) == rs,
                self.wf(),
                self.count() <= before.count() + row,
                self.stored_names() <= before.stored_names() + row,
                before.count() + n + 1 < i32::MAX,
                before.stored_names() + n + 1 < usize::MAX,
                forall|k: Seq<char>| #[trigger] self.lookup(k) == record_after_rows(before.lookup(k), rs.take(row as int), k),
                (self.tree(), self.keys()) == scape_after_rows(before.tree(), before.keys(), rs.take(row as int)),
                height_fits(before.tree(), before.count()) ==> height_fits(self.tree(), self.count()),
            decreases n - row,
        {
            let entry = &rows[row];
            assert(row_view(*entry) == rs[row as int]);
            let ghost prev = *self;
            self.insert(entry.name.as_str(), entry.ban_time, entry.sid);
            proof {
                assert(rs.take(row + 1).drop_last() =~= rs.take(row as int));
                assert forall|k: Seq<char>| #[trigger] self.lookup(k) == record_after_rows(before.lookup(k), rs.take(row + 1), k) by {
                    assert(rs.take(row + 1).last() == rs[row as int]);
                    assert(self.lookup(k) == record_step(prev.lookup(k), k, entry.name@, entry.ban_time, entry.sid));
                }
                assert(rs.take(row + 1).last() == rs[row as int]);
                assert(prev.keys().len() == prev.count());
                assert((self.tree(), self.keys()) == scape_after_rows(before.tree(), before.keys(), rs.take(row + 1)));
            }
            row += 1;
        }
        assert(rs.take(n as int) =~= rs);
    }

    /// Appends to `output` the report line of each queried player in `search_names`, in
    /// order: how many servers banned them and when last, or that they are not banned.
    #[verifier::rlimit(80)]
    pub fn search_names(&self, output: &mut String, search_names: &Vec<&str>)
        requires
            self.wf(),
        ensures
            final(output)@ == old(output)@ + ban_report(|k: Seq<char>| self.lookup(k), search_names@.map_values(|s: &str| s@)),
    {
        let ghost names = search_names@.map_values(|s: &str| s@);
        let ghost records = |k: Seq<char>| self.lookup(k);
        let size = search_names.len();
        let mut search_index: i32 = -1;
        let mut i: usize = 0;
        while i < size
            invariant
                size == search_names@.len(),
                names == search_names@.map_values(|s: &str| s@),
                records == (|k: Seq<char>| self.lookup(k)),
                i <= size,
                self.wf(),
                search_index == -1,
                output@ == old(output)@ + ban_report(records, names.take(i as int)),
            decreases size - i,
        {
            let start: i32 = if self.nodes_in_tree == 0 {
                -1
            } else {
                self.root_index as i32
            };
            proof {
                assert(self.nodes_in_tree > 0 ==> self.root_index < self.data@.len()) by {
                    assert(self.data@.len() > 0 ==> self.shape@.inorder().contains(0));
                    match self.shape@ {
                        Shape::Node(j, l, r) => {
                            lemma_node_contains(self.shape@);
                            let q = choose|q: int| 0 <= q < self.shape@.inorder().len() && self.shape@.inorder()[q] == j;
                        },
                        Shape::Leaf => {},
                    }
                }
            }
            self.search(search_names[i], start, &mut search_index);
            proof {
                let sh = self.shape@;
                lemma_ordered_distinct(sh.inorder(), self.keys());
                lemma_find(sh, self.keys(), names[i as int]);
                assert(names.take(i + 1).drop_last() =~= names.take(i as int));
                assert(names.take(i + 1).last() == search_names[i as int]@);
            }
            if search_index != -1 {
                proof {
                    let p = choose|p: int| 0 <= p < self.shape@.inorder().len() && self.shape@.inorder()[p] == search_index as nat;
                }
                let ban_count = self.data[search_index as usize].sids.len();
                let ban_time = self.data[search_index as usize].time_banned;
                write_banned(output, search_names[i], ban_count, ban_time);
            } else {
                write_not_banned(output, search_names[i]);
            }
            search_index = -1;
            i += 1;
        }
        assert(names.take(size as int) =~= names);
    }
}

/// The order in which a traversal lists a node and its two subtrees.
pub enum Traversal {
    PreOrder,
    InOrder,
    PostOrder,
}

/// The text a traversal writes of the tree `t`: each node's name followed by a space, in
/// the traversal's order, and `NULL ` for each missing child.
pub open spec fn traversal_text(t: Shape, keys: Seq<Seq<char>>, order: Traversal) -> Seq<char>
    decreases t,
{
    match t {
        Shape::Leaf => "NULL "@,
        Shape::Node(i, l, r) => {
            let own = keys[i as int] + " "@;
            let left = traversal_text(*l, keys, order);
            let right = traversal_text(*r, keys, order);
            match order {
                Traversal::PreOrder => own + left + right,
                Traversal::InOrder => left + own + right,
                Traversal::PostOrder => left + right + own,
            }
        },
    }
}

impl ScapeTree {
    /// What a traversal of the subtree at `index` writes: `NULL ` alone for -1 or an empty tree.
    pub closed spec fn traversal_from(&self, index: int, order: Traversal) -> Seq<char> {
        if index == -1 || self.data@.len() == 0 {
            "NULL "@
        } else {
            traversal_text(self.shape@.subtree_at(index as nat), self.keys(), order)
        }
    }

    /// Writes the traversal of the subtree at `index` in the given order.
    #[verifier::rlimit(80)]
    fn traverse(&self, output: &mut String, index: i32, order: &Traversal)
        requires
            self.arranged(),
            self.count() == 0 || index == -1 || (0 <= index && index < self.count()),
        ensures
            final(output)@ == old(output)@ + self.traversal_from(index as int, *order),
        decreases if index == -1 {
            0
        } else {
            subtree_size(self.tree(), index as int) + 1
        },
    {
        if index == -1 || self.nodes_in_tree == 0 {
            proof {
                reveal_strlit("NULL ");
            }
            push_str(output, "NULL ");
            return;
        }
        let i = index as usize;
        proof {
            let sh = self.shape@;
            lemma_ordered_distinct(sh.inorder(), self.keys());
            assert(sh.inorder().contains(i as nat));
            lemma_subtree_at(sh, i as nat);
            lemma_subtree_children(sh, i as nat);
            lemma_subtree_linked(sh, i as nat, self.links());
            let sub = sh.subtree_at(i as nat);
            lemma_node_contains(sub);
            match sub {
                Shape::Node(j, l, r) => {
                    assert(self.links()[i as int] == (l.root(), r.root()));
                    lemma_root_in(*l);
                    lemma_root_in(*r);
                    if l.root() == -1 {
                        assert(*l is Leaf);
                    } else {
                        assert(l.inorder().len() < sub.inorder().len());
                    }
                    if r.root() == -1 {
                        assert(*r is Leaf);
                    } else {
                        assert(r.inorder().len() < sub.inorder().len());
                    }
                },
                Shape::Leaf => {},
            }
        }
        let left = self.data[i].left;
        let right = self.data[i].right;
        let name = self.name_of(i);
        let ghost start = output@;
        match order {
            Traversal::PreOrder => {
                push_chars(output, &name);
                push_str(output, " ");
                self.traverse(output, left, order);
                self.traverse(output, right, order);
            },
            Traversal::InOrder => {
                self.traverse(output, left, order);
                push_chars(output, &name);
                push_str(output, " ");
                self.traverse(output, right, order);
            },
            Traversal::PostOrder => {
                self.traverse(output, left, order);
                self.traverse(output, right, order);
                push_chars(output, &name);
                push_str(output, " ");
            },
        }
        proof {
            reveal_strlit(" ");
            let sub = self.shape@.subtree_at(i as nat);
            match sub {
                Shape::Node(j, l, r) => {
                    assert(j == i);
                    if l.root() == -1 {
                        assert(self.traversal_from(left as int, *order) == traversal_text(*l, self.keys(), *order));
                    }
                    if r.root() == -1 {
                        assert(self.traversal_from(right as int, *order) == traversal_text(*r, self.keys(), *order));
                    }
                    assert(output@ =~= start + traversal_text(sub, self.keys(), *order));
                },
                Shape::Leaf => {},
            }
        }
    }

    /// Writes the names of the subtree at `index` root first, then the left and the right
    /// subtree, with `NULL ` for each missing child.
    pub fn _traverse_pre_order(&self, output: &mut String, index: i32)
        requires
            self.arranged(),
            self.count() == 0 || index == -1 || (0 <= index && index < self.count()),
        ensures
            final(output)@ == old(output)@ + self.traversal_from(index as int, Traversal::PreOrder),
    {
        self.traverse(output, index, &Traversal::PreOrder);
    }

    /// Writes the names of the subtree at `index` in search order, with `NULL ` for each
    /// missing child.
    pub fn _traverse_in_order(&self, output: &mut String, index: i32)
        requires
            self.arranged(),
            self.count() == 0 || index == -1 || (0 <= index && index < self.count()),
        ensures
            final(output)@ == old(output)@ + self.traversal_from(index as int, Traversal::InOrder),
    {
        self.traverse(output, index, &Traversal::InOrder);
    }

    /// Writes the names of the subtree at `index` left subtree first, then the right one,
    /// then the root, with `NULL ` for each missing child.
    pub fn _traverse_post_order(&self, output: &mut String, index: i32)
        requires
            self.arranged(),
            self.count() == 0 || index == -1 || (0 <= index && index < self.count()),
        ensures
            final(output)@ == old(output)@ + self.traversal_from(index as int, Traversal::PostOrder),
    {
        self.traverse(output, index, &Traversal::PostOrder);
    }
}

} // verus!
