//! Segment-tree realization of the occupancy index.
//!
//! The leaves are the occupancy bits themselves; every node carries, for
//! each of its two children, whether that subtree holds a free leaf and
//! whether it holds an occupied one. The tree is laid out in a flat
//! array: the parent of leaves `2k` and `2k + 1` sits at position `2k`,
//! and the root of a tree over `capacity` leaves sits at position
//! `capacity / 2 - 1`. A node at level `l` (leaf parents are level 0)
//! with in-order rank `q` sits at `q * 2^(l+1) + 2^l - 1` and covers the
//! leaves `[q * 2^(l+1), (q+1) * 2^(l+1))`.

use vstd::prelude::*;
use vstd::arithmetic::power2::{pow2, lemma_pow2_adds, lemma_pow2_strictly_increases, lemma_pow2_unfold, lemma_pow2_pos};
use vstd::arithmetic::div_mod::{lemma_fundamental_div_mod, lemma_fundamental_div_mod_converse};

verus! {

/// One tree node: two summary bits for each of its two children.
#[derive(Clone, Copy)]
pub struct PackedNode {
    left_has_empty: bool,
    left_has_full: bool,
    right_has_empty: bool,
    right_has_full: bool,
}

impl PackedNode {
    /// The node of a subtree whose leaves are all free.
    fn empty() -> (r: Self)
        ensures
            r.left_has_empty && !r.left_has_full && r.right_has_empty && !r.right_has_full,
    {
        Self { left_has_empty: true, left_has_full: false, right_has_empty: true, right_has_full: false }
    }

    /// Reads one summary bit: the `full` (occupied) or empty bit of the
    /// `left` or right child.
    fn read(self, left: bool, full: bool) -> (r: bool)
        ensures
            r == if left {
                if full {
                    self.left_has_full
                } else {
                    self.left_has_empty
                }
            } else {
                if full {
                    self.right_has_full
                } else {
                    self.right_has_empty
                }
            },
    {
        if left {
            if full {
                self.left_has_full
            } else {
                self.left_has_empty
            }
        } else {
            if full {
                self.right_has_full
            } else {
                self.right_has_empty
            }
        }
    }

    /// Overwrites both summary bits of one side.
    fn write(&mut self, left: bool, has_empty: bool, has_full: bool)
        ensures
            final(self).left_has_empty == if left {
                has_empty
            } else {
                old(self).left_has_empty
            },
            final(self).left_has_full == if left {
                has_full
            } else {
                old(self).left_has_full
            },
            final(self).right_has_empty == if left {
                old(self).right_has_empty
            } else {
                has_empty
            },
            final(self).right_has_full == if left {
                old(self).right_has_full
            } else {
                has_full
            },
    {
        if left {
            self.left_has_empty = has_empty;
            self.left_has_full = has_full;
        } else {
            self.right_has_empty = has_empty;
            self.right_has_full = has_full;
        }
    }

    /// Folds the two sides into the summary of the node's whole range:
    /// the pair (has a free leaf, has an occupied leaf).
    fn combine(self) -> (r: (bool, bool))
        ensures
            r.0 == (self.left_has_empty || self.right_has_empty),
            r.1 == (self.left_has_full || self.right_has_full),
    {
        (self.left_has_empty || self.right_has_empty, self.left_has_full || self.right_has_full)
    }
}

/// Flat-array position of the level-`l` node with in-order rank `q`.
spec fn node_idx(q: int, l: nat) -> int {
    q * pow2((l + 1) as nat) + pow2(l) - 1
}

/// The occupancy bit of leaf `i`, stored in its leaf-parent node.
spec fn leaf_bit(nodes: Seq<PackedNode>, i: int) -> bool {
    if i % 2 == 0 {
        nodes[i].left_has_full
    } else {
        nodes[i - 1].right_has_full
    }
}

/// First leaf of the chosen half of node `(q, l)`.
spec fn side_lo(q: int, l: nat, left: bool) -> int {
    q * pow2((l + 1) as nat) + if left {
        0
    } else {
        pow2(l) as int
    }
}

/// One side of node `(q, l)` summarizes its half exactly: the empty bit
/// says a free leaf exists there, the full bit says an occupied one does.
spec fn side_ok(nodes: Seq<PackedNode>, q: int, l: nat, left: bool) -> bool {
    let m = node_idx(q, l);
    let lo = side_lo(q, l, left);
    let hi = lo + pow2(l);
    let has_empty = if left {
        nodes[m].left_has_empty
    } else {
        nodes[m].right_has_empty
    };
    let has_full = if left {
        nodes[m].left_has_full
    } else {
        nodes[m].right_has_full
    };
    &&& has_full == (exists|i: int| lo <= i < hi && leaf_bit(nodes, i))
    &&& has_empty == (exists|i: int| lo <= i < hi && !leaf_bit(nodes, i))
}

/// A node position below `len` is a real node: its level fits under the
/// root and its leaf range lies inside the capacity `len + 1`.
proof fn lemma_node_bounds(q: int, l: nat, h: nat)
    requires
        0 <= q,
        node_idx(q, l) < pow2((h + 1) as nat) - 1,
    ensures
        l <= h,
        (q + 1) * pow2((l + 1) as nat) <= pow2((h + 1) as nat),
        0 <= q * pow2((l + 1) as nat),
        node_idx(q, l) + 1 + pow2(l) == side_lo(q, l, false) + pow2(l),
        side_lo(q, l, true) + 2 * pow2(l) == (q + 1) * pow2((l + 1) as nat),
{
    lemma_pow2_pos(l);
    lemma_pow2_pos((l + 1) as nat);
    lemma_pow2_pos((h + 1) as nat);
    lemma_pow2_unfold((l + 1) as nat);
    assert(0 <= q * pow2((l + 1) as nat)) by (nonlinear_arith)
        requires
            0 <= q && 0 < pow2((l + 1) as nat),
    ;
    if l > h {
        lemma_pow2_strictly_increases((h + 1) as nat, l);
        assert(false);
    }
    lemma_pow2_adds((h + 1 - l) as nat, l);
    let p = pow2(l) as int;
    let k = pow2((h + 1 - l) as nat) as int;
    lemma_pow2_pos((h + 1 - l) as nat);
    assert((2 * q + 1) * p < k * p) by (nonlinear_arith)
        requires
            q * (2 * p) + p - 1 < k * p - 1 && 0 < p,
    ;
    assert(2 * q + 1 < k) by (nonlinear_arith)
        requires
            (2 * q + 1) * p < k * p && 0 < p,
    ;
    assert((2 * q + 2) * p <= k * p) by (nonlinear_arith)
        requires
            2 * q + 2 <= k && 0 < p,
    ;
    assert((q + 1) * (2 * p) == (2 * q + 2) * p) by (nonlinear_arith);
    assert((q + 1) * (2 * p) == q * (2 * p) + 2 * p) by (nonlinear_arith);
}

/// The two children of node `(q, l)` sit one half-step left and right of
/// it, and their leaf ranges are exactly its two halves.
proof fn lemma_child(q: int, l: nat)
    requires
        l >= 1,
    ensures
        node_idx(2 * q, (l - 1) as nat) == node_idx(q, l) - pow2((l - 1) as nat),
        node_idx(2 * q + 1, (l - 1) as nat) == node_idx(q, l) + pow2((l - 1) as nat),
        side_lo(2 * q, (l - 1) as nat, true) == side_lo(q, l, true),
        side_lo(2 * q, (l - 1) as nat, false) == side_lo(q, l, true) + pow2((l - 1) as nat),
        side_lo(2 * q, (l - 1) as nat, false) + pow2((l - 1) as nat) == side_lo(q, l, false),
        side_lo(2 * q + 1, (l - 1) as nat, true) == side_lo(q, l, false),
        side_lo(2 * q + 1, (l - 1) as nat, false) == side_lo(q, l, false) + pow2((l - 1) as nat),
        side_lo(2 * q + 1, (l - 1) as nat, false) + pow2((l - 1) as nat) == side_lo(q, l, false)
            + pow2(l),
{
    lemma_pow2_unfold(l);
    lemma_pow2_unfold((l + 1) as nat);
    let p = pow2((l - 1) as nat) as int;
    assert(2 * q * (2 * p) == q * (4 * p)) by (nonlinear_arith);
    assert((2 * q + 1) * (2 * p) == q * (4 * p) + 2 * p) by (nonlinear_arith);
}

/// Leaf `i` lies in the range of exactly one level-`l` node: the one
/// with rank `i / 2^(l+1)`.
proof fn lemma_path(i: int, l: nat)
    requires
        0 <= i,
    ensures
        ({
            let q = i / pow2((l + 1) as nat) as int;
            &&& 0 <= q
            &&& side_lo(q, l, true) <= i < side_lo(q, l, true) + 2 * pow2(l)
            &&& forall|q2: int|
                #[trigger] side_lo(q2, l, true) <= i < side_lo(q2, l, true) + 2 * pow2(l) ==> q2
                    == q
        }),
{
    lemma_pow2_pos((l + 1) as nat);
    lemma_pow2_unfold((l + 1) as nat);
    let d = pow2((l + 1) as nat) as int;
    lemma_fundamental_div_mod(i, d);
    let q = i / d;
    assert(0 <= q) by (nonlinear_arith)
        requires
            i == d * q + i % d && 0 <= i % d < d && 0 <= i && 0 < d,
    ;
    assert(q * d <= i < q * d + d) by (nonlinear_arith)
        requires
            i == d * q + i % d && 0 <= i % d < d,
    ;
    assert forall|q2: int| #[trigger] side_lo(q2, l, true) <= i < side_lo(q2, l, true) + 2 * pow2(
        l,
    ) implies q2 == q by {
        assert(q2 * d <= i < q2 * d + d);
        lemma_fundamental_div_mod_converse(i, d, q2, i - q2 * d);
    }
}

/// The level-`l` node on the path above leaf `i` lies inside the flat
/// array of a tree of height `h`, and its halves lie inside the capacity.
proof fn lemma_path_in_cap(i: int, l: nat, h: nat)
    requires
        0 <= i < pow2((h + 1) as nat),
        l <= h,
    ensures
        ({
            let q = i / pow2((l + 1) as nat) as int;
            &&& 0 <= q
            &&& node_idx(q, l) < pow2((h + 1) as nat) - 1
            &&& node_idx(q, l) % 2 == (if l == 0 {
                0int
            } else {
                1int
            })
            &&& (q + 1) * pow2((l + 1) as nat) <= pow2((h + 1) as nat)
        }),
{
    lemma_path(i, l);
    lemma_pow2_pos(l);
    lemma_pow2_pos((l + 1) as nat);
    lemma_pow2_unfold((l + 1) as nat);
    let d = pow2((l + 1) as nat) as int;
    let q = i / d;
    let k = pow2((h + 1 - l) as nat) as int;
    lemma_pow2_adds((h + 1 - l - 1) as nat, (l + 1) as nat);
    let k2 = pow2((h - l) as nat) as int;
    lemma_pow2_pos((h - l) as nat);
    // q is below the count of level-l nodes, so the node fits
    assert(q * d <= i);
    assert(q < k2) by (nonlinear_arith)
        requires
            q * d <= i && i < k2 * d && 0 < d && 0 <= q,
    ;
    assert((q + 1) * d <= k2 * d) by (nonlinear_arith)
        requires
            q + 1 <= k2 && 0 < d,
    ;
    assert(node_idx(q, l) == q * d + pow2(l) - 1);
    assert(q * d + d == (q + 1) * d) by (nonlinear_arith);
    assert(q * d + d <= k2 * d);
    assert(pow2(l) < d);
    // parity: level-0 nodes sit at even positions, others at odd ones
    if l == 0 {
        vstd::arithmetic::power2::lemma2_to64();
        assert(node_idx(q, 0) == q * 2);
        assert(q * 2 % 2 == 0) by (nonlinear_arith);
    } else {
        lemma_pow2_unfold(l);
        let p1 = pow2((l - 1) as nat) as int;
        let t = q * (2 * p1) + p1;
        assert(q * (4 * p1) + 2 * p1 == 2 * t) by (nonlinear_arith)
            requires
                t == q * (2 * p1) + p1,
        ;
        assert(t >= 1) by (nonlinear_arith)
            requires
                t == q * (2 * p1) + p1 && q >= 0 && p1 >= 1,
        ;
        assert(node_idx(q, l) == 2 * t - 1);
        assert((2 * t - 1) % 2 == 1) by (nonlinear_arith)
            requires
                t >= 1,
        ;
    }
}

/// Distinct rank–level pairs name distinct flat-array positions.
proof fn lemma_node_idx_injective(q: int, l: nat, q2: int, l2: nat)
    requires
        0 <= q,
        0 <= q2,
        node_idx(q, l) == node_idx(q2, l2),
    ensures
        q == q2,
        l == l2,
    decreases l,
{
    vstd::arithmetic::power2::lemma2_to64();
    if l == 0 && l2 == 0 {
        assert(q * 2 == q2 * 2);
        assert(q == q2) by (nonlinear_arith)
            requires
                q * 2 == q2 * 2,
        ;
    } else if l == 0 {
        lemma_pow2_unfold(l2);
        lemma_pow2_unfold((l2 + 1) as nat);
        let p1 = pow2((l2 - 1) as nat) as int;
        let t = q2 * (2 * p1) + p1;
        assert(q2 * (4 * p1) + 2 * p1 == 2 * t) by (nonlinear_arith)
            requires
                t == q2 * (2 * p1) + p1,
        ;
        assert(q * 2 == 2 * t - 1);
        assert(false) by (nonlinear_arith)
            requires
                q * 2 == 2 * t - 1,
        ;
    } else if l2 == 0 {
        lemma_pow2_unfold(l);
        lemma_pow2_unfold((l + 1) as nat);
        let p1 = pow2((l - 1) as nat) as int;
        let t = q * (2 * p1) + p1;
        assert(q * (4 * p1) + 2 * p1 == 2 * t) by (nonlinear_arith)
            requires
                t == q * (2 * p1) + p1,
        ;
        assert(q2 * 2 == 2 * t - 1);
        assert(false) by (nonlinear_arith)
            requires
                q2 * 2 == 2 * t - 1,
        ;
    } else {
        lemma_pow2_unfold(l);
        lemma_pow2_unfold((l + 1) as nat);
        lemma_pow2_unfold(l2);
        lemma_pow2_unfold((l2 + 1) as nat);
        let pa = pow2((l - 1) as nat) as int;
        let pb = pow2((l2 - 1) as nat) as int;
        assert(q * (4 * pa) + 2 * pa == 2 * (q * (2 * pa) + pa)) by (nonlinear_arith);
        assert(q2 * (4 * pb) + 2 * pb == 2 * (q2 * (2 * pb) + pb)) by (nonlinear_arith);
        assert(q * (4 * pa) + 2 * pa == q2 * (4 * pb) + 2 * pb);
        assert(q * (2 * pa) + pa == q2 * (2 * pb) + pb);
        assert(node_idx(q, (l - 1) as nat) == node_idx(q2, (l2 - 1) as nat));
        lemma_node_idx_injective(q, (l - 1) as nat, q2, (l2 - 1) as nat);
    }
}

/// Level-0 node positions and ranges, spelled out.
proof fn lemma_node_idx0(q: int)
    ensures
        node_idx(q, 0) == 2 * q,
        side_lo(q, 0, true) == 2 * q,
        side_lo(q, 0, false) == 2 * q + 1,
        pow2(0) == 1,
{
    vstd::arithmetic::power2::lemma2_to64();
    assert(q * pow2(1) == 2 * q) by (nonlinear_arith)
        requires
            pow2(1) == 2,
    ;
}

/// An occupied (or free) leaf exists in a whole range exactly when one
/// exists in its left or its right part.
proof fn lemma_exists_split(nodes: Seq<PackedNode>, lo: int, mid: int, hi: int)
    requires
        lo <= mid <= hi,
    ensures
        ((exists|i: int| lo <= i < mid && leaf_bit(nodes, i)) || (exists|i: int|
            mid <= i < hi && leaf_bit(nodes, i))) == (exists|i: int|
            lo <= i < hi && leaf_bit(nodes, i)),
        ((exists|i: int| lo <= i < mid && !leaf_bit(nodes, i)) || (exists|i: int|
            mid <= i < hi && !leaf_bit(nodes, i))) == (exists|i: int|
            lo <= i < hi && !leaf_bit(nodes, i)),
{
    if exists|i: int| lo <= i < hi && leaf_bit(nodes, i) {
        let w = choose|i: int| lo <= i < hi && leaf_bit(nodes, i);
        if w < mid {
            assert(lo <= w < mid && leaf_bit(nodes, w));
        } else {
            assert(mid <= w < hi && leaf_bit(nodes, w));
        }
    }
    if exists|i: int| lo <= i < hi && !leaf_bit(nodes, i) {
        let w = choose|i: int| lo <= i < hi && !leaf_bit(nodes, i);
        if w < mid {
            assert(lo <= w < mid && !leaf_bit(nodes, w));
        } else {
            assert(mid <= w < hi && !leaf_bit(nodes, w));
        }
    }
}

/// After folding child `(q, lvl)` into its parent's side, every side
/// away from the path above `idx` is correct, and no leaf bit moved.
#[verifier::rlimit(100)]
proof fn lemma_rebuild_parent(
    prev: Seq<PackedNode>,
    now: Seq<PackedNode>,
    h: nat,
    idx: int,
    lvl: nat,
    q: int,
    qp: int,
    on_left: bool,
    pnode: PackedNode,
)
    requires
        prev.len() + 1 == pow2((h + 1) as nat),
        0 <= idx < prev.len() + 1,
        lvl < h,
        q == idx / pow2((lvl + 1) as nat) as int,
        qp == idx / pow2((lvl + 2) as nat) as int,
        on_left == (q % 2 == 0),
        node_idx(qp, (lvl + 1) as nat) < prev.len(),
        node_idx(q, lvl) < prev.len(),
        now == prev.update(node_idx(qp, (lvl + 1) as nat), pnode),
        ({
            let cur = node_idx(q, lvl);
            let parent = node_idx(qp, (lvl + 1) as nat);
            &&& (if on_left {
                pnode.left_has_empty
            } else {
                pnode.right_has_empty
            }) == (prev[cur].left_has_empty || prev[cur].right_has_empty)
            &&& (if on_left {
                pnode.left_has_full
            } else {
                pnode.right_has_full
            }) == (prev[cur].left_has_full || prev[cur].right_has_full)
            &&& (if on_left {
                pnode.right_has_empty
            } else {
                pnode.left_has_empty
            }) == (if on_left {
                prev[parent].right_has_empty
            } else {
                prev[parent].left_has_empty
            })
            &&& (if on_left {
                pnode.right_has_full
            } else {
                pnode.left_has_full
            }) == (if on_left {
                prev[parent].right_has_full
            } else {
                prev[parent].left_has_full
            })
        }),
        sides_ok_above(prev, idx, lvl),
    ensures
        forall|i: int| 0 <= i < prev.len() + 1 ==> leaf_bit(now, i) == #[trigger] leaf_bit(prev, i),
        sides_ok_above(now, idx, (lvl + 1) as nat),
{
    let cap = prev.len() + 1;
    let cur = node_idx(q, lvl);
    let parent = node_idx(qp, (lvl + 1) as nat);
    lemma_pow2_unfold((lvl + 2) as nat);
    lemma_pow2_unfold((lvl + 1) as nat);
    lemma_pow2_pos(lvl);
    lemma_pow2_pos((lvl + 1) as nat);
    lemma_pow2_unfold((h + 1) as nat);
    lemma_pow2_pos(h);
    lemma_path_in_cap(idx, (lvl + 1) as nat, h);
    lemma_path_in_cap(idx, lvl, h);
    vstd::arithmetic::div_mod::lemma_div_denominator(idx, pow2((lvl + 1) as nat) as int, 2);
    assert(q / 2 == qp);
    lemma_fundamental_div_mod(q, 2);
    lemma_child(qp, (lvl + 1) as nat);
    if on_left {
        assert(q == 2 * qp);
        assert(node_idx(2 * qp, lvl) == cur);
    } else {
        assert(q == 2 * qp + 1);
        assert(node_idx(2 * qp + 1, lvl) == cur);
    }
    // the parent is not a leaf parent, so no leaf bit moved
    assert(parent % 2 == 1);
    assert forall|i: int| 0 <= i < cap implies leaf_bit(now, i) == #[trigger] leaf_bit(
        prev,
        i,
    ) by {
        lemma_fundamental_div_mod(i, 2);
    }
    // the written side summarizes exactly the child's whole range
    let plo = side_lo(qp, (lvl + 1) as nat, on_left);
    let clo = side_lo(q, lvl, true);
    let cmid = side_lo(q, lvl, false);
    if on_left {
        assert(plo == side_lo(2 * qp, lvl, true));
    } else {
        assert(plo == side_lo(2 * qp + 1, lvl, true));
    }
    assert(plo == clo && plo + pow2((lvl + 1) as nat) == cmid + pow2(lvl));
    assert(side_ok(prev, q, lvl, true));
    assert(side_ok(prev, q, lvl, false));
    lemma_exists_split(prev, clo, cmid, cmid + pow2(lvl));
    let wf2 = (if on_left {
        pnode.left_has_full
    } else {
        pnode.right_has_full
    });
    let we2 = (if on_left {
        pnode.left_has_empty
    } else {
        pnode.right_has_empty
    });
    assert(wf2 == (exists|i: int| plo <= i < plo + pow2((lvl + 1) as nat) && leaf_bit(prev, i)));
    assert(we2 == (exists|i: int| plo <= i < plo + pow2((lvl + 1) as nat) && !leaf_bit(prev, i)));
    // all sides below or away from the path are still correct
    assert forall|q2: int, l2: nat, left2: bool|
        0 <= q2 && node_idx(q2, l2) < now.len() && !(l2 > lvl + 1 && side_lo(q2, l2, left2) <= idx
            < side_lo(q2, l2, left2) + pow2(l2)) implies #[trigger] side_ok(
        now,
        q2,
        l2,
        left2,
    ) by {
        lemma_node_bounds(q2, l2, h);
        lemma_pow2_pos(l2);
        let lo2 = side_lo(q2, l2, left2);
        let hi2 = lo2 + pow2(l2);
        assert forall|i: int| lo2 <= i < hi2 implies #[trigger] leaf_bit(now, i) == leaf_bit(
            prev,
            i,
        ) by {
            lemma_fundamental_div_mod(i, 2);
        }
        if q2 == qp && l2 == lvl + 1 && left2 == on_left {
            // the side just written
            assert(now[parent] == pnode);
            assert((exists|i: int| lo2 <= i < hi2 && leaf_bit(now, i)) == (exists|i: int|
                lo2 <= i < hi2 && leaf_bit(prev, i))) by {
                if exists|i: int| lo2 <= i < hi2 && leaf_bit(now, i) {
                    let w = choose|i: int| lo2 <= i < hi2 && leaf_bit(now, i);
                    assert(leaf_bit(prev, w));
                }
                if exists|i: int| lo2 <= i < hi2 && leaf_bit(prev, i) {
                    let w = choose|i: int| lo2 <= i < hi2 && leaf_bit(prev, i);
                    assert(leaf_bit(now, w));
                }
            }
            assert((exists|i: int| lo2 <= i < hi2 && !leaf_bit(now, i)) == (exists|i: int|
                lo2 <= i < hi2 && !leaf_bit(prev, i))) by {
                if exists|i: int| lo2 <= i < hi2 && !leaf_bit(now, i) {
                    let w = choose|i: int| lo2 <= i < hi2 && !leaf_bit(now, i);
                    assert(!leaf_bit(prev, w));
                }
                if exists|i: int| lo2 <= i < hi2 && !leaf_bit(prev, i) {
                    let w = choose|i: int| lo2 <= i < hi2 && !leaf_bit(prev, i);
                    assert(!leaf_bit(now, w));
                }
            }
        } else {
            // a side that was already correct and is untouched
            assert(side_ok(prev, q2, l2, left2)) by {
                if l2 == lvl + 1 && lo2 <= idx < hi2 {
                    lemma_path(idx, (lvl + 1) as nat);
                    assert(side_lo(q2, l2, true) <= idx < side_lo(q2, l2, true) + 2 * pow2(l2)) by {
                        lemma_node_bounds(q2, l2, h);
                    }
                    assert(q2 == qp);
                    assert(left2 != on_left);
                    // idx lies in the written half, not this one
                    assert(side_lo(qp, (lvl + 1) as nat, on_left) <= idx < side_lo(
                        qp,
                        (lvl + 1) as nat,
                        on_left,
                    ) + pow2((lvl + 1) as nat)) by {
                        lemma_path(idx, lvl);
                        assert(clo <= idx < cmid + pow2(lvl));
                    }
                    assert(false);
                }
            }
            if node_idx(q2, l2) == parent {
                lemma_node_idx_injective(q2, l2, qp, (lvl + 1) as nat);
                assert(l2 == lvl + 1 && q2 == qp);
                assert(left2 != on_left);
                assert((if left2 {
                    now[parent].left_has_full
                } else {
                    now[parent].right_has_full
                }) == (if left2 {
                    prev[parent].left_has_full
                } else {
                    prev[parent].right_has_full
                }));
            } else {
                assert(0 <= node_idx(q2, l2) < prev.len());
                assert(now[node_idx(q2, l2)] == prev[node_idx(q2, l2)]);
            }
            assert((exists|i: int| lo2 <= i < hi2 && leaf_bit(now, i)) == (exists|i: int|
                lo2 <= i < hi2 && leaf_bit(prev, i))) by {
                if exists|i: int| lo2 <= i < hi2 && leaf_bit(now, i) {
                    let w = choose|i: int| lo2 <= i < hi2 && leaf_bit(now, i);
                    assert(leaf_bit(prev, w));
                }
                if exists|i: int| lo2 <= i < hi2 && leaf_bit(prev, i) {
                    let w = choose|i: int| lo2 <= i < hi2 && leaf_bit(prev, i);
                    assert(leaf_bit(now, w));
                }
            }
            assert((exists|i: int| lo2 <= i < hi2 && !leaf_bit(now, i)) == (exists|i: int|
                lo2 <= i < hi2 && !leaf_bit(prev, i))) by {
                if exists|i: int| lo2 <= i < hi2 && !leaf_bit(now, i) {
                    let w = choose|i: int| lo2 <= i < hi2 && !leaf_bit(now, i);
                    assert(!leaf_bit(prev, w));
                }
                if exists|i: int| lo2 <= i < hi2 && !leaf_bit(prev, i) {
                    let w = choose|i: int| lo2 <= i < hi2 && !leaf_bit(prev, i);
                    assert(!leaf_bit(now, w));
                }
            }
        }
    }
}

/// Every node side is correct unless its half contains the leaf `idx`.
spec fn sides_ok_except(nodes: Seq<PackedNode>, idx: int) -> bool {
    forall|q: int, l: nat, left: bool|
        0 <= q && node_idx(q, l) < nodes.len() && !(side_lo(q, l, left) <= idx < side_lo(
            q,
            l,
            left,
        ) + pow2(l)) ==> #[trigger] side_ok(nodes, q, l, left)
}

/// Every node side is correct unless its half contains `idx` and its
/// level lies above `lvl`.
spec fn sides_ok_above(nodes: Seq<PackedNode>, idx: int, lvl: nat) -> bool {
    forall|q: int, l: nat, left: bool|
        0 <= q && node_idx(q, l) < nodes.len() && !(l > lvl && side_lo(q, l, left) <= idx
            < side_lo(q, l, left) + pow2(l)) ==> #[trigger] side_ok(nodes, q, l, left)
}

/// Hierarchical free-slot index over `size` leaves. `resize` rounds the
/// internal capacity up to a power of two; leaves at or beyond `size`
/// are hidden from every query.
#[derive(Clone)]
pub struct BinaryTree {
    tree: Vec<PackedNode>,
    height: usize,
    size: usize,
}

impl BinaryTree {
    /// The number of leaves the flat array physically covers.
    pub closed spec fn spec_cap(&self) -> int {
        self.tree@.len() as int + 1
    }

    /// The number of leaves the callers see.
    pub closed spec fn spec_size(&self) -> usize {
        self.size
    }

    /// The tracked occupancy bits, one per visible leaf.
    pub closed spec fn view(&self) -> Seq<bool> {
        Seq::new(self.size as nat, |i: int| leaf_bit(self.tree@, i))
    }

    /// Structural and summary well-formedness: the array length is one
    /// short of a power-of-two capacity that covers `size`, the hidden
    /// leaves all read free, and every node side summarizes its half.
    pub closed spec fn wf(&self) -> bool {
        if self.size == 0 {
            self.tree@.len() == 0
        } else {
            &&& self.tree@.len() + 1 == pow2((self.height + 1) as nat)
            &&& self.tree@.len() < usize::MAX
            &&& self.size <= self.tree@.len() + 1
            &&& forall|i: int|
                self.size <= i < self.tree@.len() + 1 ==> !#[trigger] leaf_bit(self.tree@, i)
            &&& forall|q: int, l: nat, left: bool|
                0 <= q && node_idx(q, l) < self.tree@.len() ==> #[trigger] side_ok(
                    self.tree@,
                    q,
                    l,
                    left,
                )
        }
    }

    /// Creates an index over zero leaves.
    pub fn new() -> (r: Self)
        ensures
            r.wf(),
            r@ =~= Seq::<bool>::empty(),
            r.spec_size() == 0,
    {
        Self { tree: Vec::new(), height: 0, size: 0 }
    }

    /// Writes leaf `idx` and rebuilds the summary path above it. The
    /// entry state may have stale summaries on the sides whose half
    /// contains `idx`; every other side must already be correct.
    #[verifier::rlimit(100)]
    fn set_leaf_inner(&mut self, idx: usize, full: bool)
        requires
            old(self).size > 0,
            old(self).tree@.len() + 1 == pow2((old(self).height + 1) as nat),
            old(self).tree@.len() < usize::MAX,
            old(self).size <= old(self).tree@.len() + 1,
            idx < old(self).size,
            forall|i: int|
                old(self).size <= i < old(self).tree@.len() + 1 ==> !#[trigger] leaf_bit(
                    old(self).tree@,
                    i,
                ),
            sides_ok_except(old(self).tree@, idx as int),
        ensures
            final(self).wf(),
            final(self).size == old(self).size,
            final(self).height == old(self).height,
            final(self).tree@.len() == old(self).tree@.len(),
            forall|i: int|
                0 <= i < old(self).tree@.len() + 1 && i != idx ==> leaf_bit(final(self).tree@, i)
                    == #[trigger] leaf_bit(old(self).tree@, i),
            leaf_bit(final(self).tree@, idx as int) == full,
            final(self)@ =~= old(self)@.update(idx as int, full),
    {
        let ghost h = self.height as nat;
        let ghost cap = pow2((self.height + 1) as nat) as int;
        let tlen: usize = self.tree.len();
        let m0: usize = idx - (idx % 2);
        proof {
            vstd::arithmetic::power2::lemma2_to64();
            lemma_pow2_unfold((self.height + 1) as nat);
            lemma_pow2_pos(h);
            assert(cap == 2 * pow2(h));
            assert(cap % 2 == 0);
            lemma_path_in_cap(idx as int, 0, h);
            lemma_node_idx0(idx as int / 2);
            assert(idx as int / pow2(1) as int == idx as int / 2);
            lemma_fundamental_div_mod(idx as int, 2);
            assert(m0 == node_idx(idx as int / 2, 0));
        }
        let mut node0 = self.tree[m0];
        node0.write(idx % 2 == 0, !full, full);
        self.tree.set(m0, node0);
        let ghost q0 = idx as int / 2;
        proof {
            // only the two leaves of node m0 share a node; only bit idx changed
            assert(self.tree@ == old(self).tree@.update(m0 as int, node0));
            assert forall|i: int| 0 <= i < cap && i != idx implies leaf_bit(self.tree@, i)
                == #[trigger] leaf_bit(old(self).tree@, i) by {
                lemma_fundamental_div_mod(i, 2);
                lemma_fundamental_div_mod(idx as int, 2);
                if i % 2 == 0 {
                    if i == m0 {
                        assert(idx % 2 == 1);
                    } else {
                        assert(self.tree@[i] == old(self).tree@[i]);
                    }
                } else {
                    if i - 1 == m0 {
                        assert(idx == m0 || idx == m0 + 1);
                        if idx != i {
                            assert(idx % 2 == 0);
                        }
                    } else {
                        assert(self.tree@[i - 1] == old(self).tree@[i - 1]);
                    }
                }
            }
            assert(leaf_bit(self.tree@, idx as int) == full) by {
                lemma_fundamental_div_mod(idx as int, 2);
            }
            // the level-0 node above idx is now fully correct; all other
            // sides are correct unless a higher level contains idx
            assert forall|q: int, l: nat, left: bool|
                0 <= q && node_idx(q, l) < self.tree@.len() && !(l > 0 && side_lo(q, l, left)
                    <= idx < side_lo(q, l, left) + pow2(l)) implies #[trigger] side_ok(
                self.tree@,
                q,
                l,
                left,
            ) by {
                let lo = side_lo(q, l, left);
                let hi = lo + pow2(l);
                lemma_node_bounds(q, l, h);
                if l == 0 && lo <= idx < hi {
                    // the freshly written side: a singleton range at idx
                    lemma_node_idx0(q);
                    lemma_node_idx0(idx as int / 2);
                    assert(lo == idx);
                    lemma_path(idx as int, 0);
                    assert(side_lo(q, 0, true) <= idx < side_lo(q, 0, true) + 2 * pow2(0));
                    assert(q == q0);
                    assert(leaf_bit(self.tree@, idx as int) == full);
                } else {
                    // untouched side: same node bits, same leaf bits
                    assert(side_ok(old(self).tree@, q, l, left));
                    let m2 = node_idx(q, l);
                    assert((if left {
                        self.tree@[m2].left_has_full
                    } else {
                        self.tree@[m2].right_has_full
                    }) == (if left {
                        old(self).tree@[m2].left_has_full
                    } else {
                        old(self).tree@[m2].right_has_full
                    }) && (if left {
                        self.tree@[m2].left_has_empty
                    } else {
                        self.tree@[m2].right_has_empty
                    }) == (if left {
                        old(self).tree@[m2].left_has_empty
                    } else {
                        old(self).tree@[m2].right_has_empty
                    })) by {
                        if m2 == m0 {
                            lemma_node_idx_injective(q, l, idx as int / 2, 0);
                            lemma_node_idx0(q);
                            lemma_fundamental_div_mod(idx as int, 2);
                            // the side away from idx is the one the write left alone
                            assert(lo == 2 * q + (if left {
                                0int
                            } else {
                                1int
                            }));
                            assert(idx == m0 || idx == m0 + 1);
                            assert(left != (idx % 2 == 0));
                        } else {
                            lemma_pow2_pos(l);
                            assert(0 <= m2 < old(self).tree@.len());
                            assert(self.tree@ == old(self).tree@.update(m0 as int, node0));
                            assert(self.tree@[m2] == old(self).tree@[m2]);
                        }
                    }
                    assert forall|i: int| lo <= i < hi implies leaf_bit(self.tree@, i)
                        == #[trigger] leaf_bit(old(self).tree@, i) by {
                        if i == idx {
                            assert(!(l > 0));
                            assert(false);
                        }
                        lemma_fundamental_div_mod(i, 2);
                    }
                    lemma_exists_split(self.tree@, lo, lo, hi);
                    lemma_exists_split(old(self).tree@, lo, lo, hi);
                    assert((exists|i: int| lo <= i < hi && leaf_bit(self.tree@, i)) == (exists|
                        i: int,
                    | lo <= i < hi && leaf_bit(old(self).tree@, i))) by {
                        if exists|i: int| lo <= i < hi && leaf_bit(self.tree@, i) {
                            let w = choose|i: int| lo <= i < hi && leaf_bit(self.tree@, i);
                            assert(leaf_bit(old(self).tree@, w));
                        }
                        if exists|i: int| lo <= i < hi && leaf_bit(old(self).tree@, i) {
                            let w = choose|i: int| lo <= i < hi && leaf_bit(old(self).tree@, i);
                            assert(leaf_bit(self.tree@, w));
                        }
                    }
                    assert((exists|i: int| lo <= i < hi && !leaf_bit(self.tree@, i)) == (exists|
                        i: int,
                    | lo <= i < hi && !leaf_bit(old(self).tree@, i))) by {
                        if exists|i: int| lo <= i < hi && !leaf_bit(self.tree@, i) {
                            let w = choose|i: int| lo <= i < hi && !leaf_bit(self.tree@, i);
                            assert(!leaf_bit(old(self).tree@, w));
                        }
                        if exists|i: int| lo <= i < hi && !leaf_bit(old(self).tree@, i) {
                            let w = choose|i: int| lo <= i < hi && !leaf_bit(old(self).tree@, i);
                            assert(!leaf_bit(self.tree@, w));
                        }
                    }
                }
            }
        }
        let mut cur: usize = m0;
        let mut step: usize = 1;
        let mut lvl: usize = 0;
        let ghost mut q: int = q0;
        while lvl < self.height
            invariant
                self.size == old(self).size,
                self.height == old(self).height,
                self.tree@.len() == old(self).tree@.len(),
                self.tree@.len() + 1 == pow2((self.height + 1) as nat),
                idx < self.size <= self.tree@.len() + 1,
                h == self.height as nat,
                cap == pow2((self.height + 1) as nat) as int,
                lvl <= self.height,
                tlen == self.tree@.len(),
                cap % 2 == 0,
                q == idx as int / pow2((lvl + 1) as nat) as int,
                cur == node_idx(q, lvl as nat),
                0 <= cur < self.tree@.len(),
                step == pow2(lvl as nat),
                forall|i: int|
                    0 <= i < cap && i != idx ==> leaf_bit(self.tree@, i) == #[trigger] leaf_bit(
                        old(self).tree@,
                        i,
                    ),
                leaf_bit(self.tree@, idx as int) == full,
                sides_ok_above(self.tree@, idx as int, lvl as nat),
            decreases self.height - lvl,
        {
            let ghost prev = self.tree@;
            let node = self.tree[cur];
            let combined = node.combine();
            proof {
                lemma_pow2_unfold((lvl + 2) as nat);
                lemma_pow2_unfold((lvl + 1) as nat);
                lemma_pow2_pos(lvl as nat);
                lemma_pow2_pos((lvl + 1) as nat);
                lemma_path_in_cap(idx as int, (lvl + 1) as nat, h);
                assert(pow2((lvl + 1) as nat) < pow2((self.height + 1) as nat)) by {
                    lemma_pow2_strictly_increases((lvl + 1) as nat, (self.height + 1) as nat);
                }
                assert(1 <= step && step * 2 == pow2((lvl + 1) as nat));
                assert(step * 2 <= self.tree@.len());
            }
            let on_left = (idx / (step * 2)) % 2 == 0;
            let ghost qp = idx as int / pow2((lvl + 2) as nat) as int;
            proof {
                // the parent's rank is half of ours, and our parity says
                // which of its children we are
                vstd::arithmetic::div_mod::lemma_div_denominator(
                    idx as int,
                    pow2((lvl + 1) as nat) as int,
                    2,
                );
                assert(q / 2 == qp);
                lemma_fundamental_div_mod(q, 2);
                lemma_child(qp, (lvl + 1) as nat);
                assert(on_left == (q % 2 == 0)) by {
                    assert(step * 2 == pow2((lvl + 1) as nat));
                    assert(idx as int / (step * 2) as int == q);
                }
                assert(node_idx(qp, (lvl + 1) as nat) < self.tree@.len());
                if on_left {
                    assert(q == 2 * qp);
                    assert(node_idx(2 * qp, lvl as nat) == cur);
                    assert(cur + step == node_idx(qp, (lvl + 1) as nat));
                } else {
                    assert(q == 2 * qp + 1);
                    assert(node_idx(2 * qp + 1, lvl as nat) == cur);
                    assert(cur >= step && cur - step == node_idx(qp, (lvl + 1) as nat));
                }
            }
            let parent = if on_left {
                cur + step
            } else {
                cur - step
            };
            proof {
                assert(parent == node_idx(qp, (lvl + 1) as nat));
                assert(parent < self.tree@.len());
            }
            let mut pnode = self.tree[parent];
            pnode.write(on_left, combined.0, combined.1);
            self.tree.set(parent, pnode);
            proof {
                assert(self.tree@ == prev.update(parent as int, pnode));
                lemma_rebuild_parent(
                    prev,
                    self.tree@,
                    h,
                    idx as int,
                    lvl as nat,
                    q,
                    qp,
                    on_left,
                    pnode,
                );
                assert forall|i: int| 0 <= i < cap && i != idx implies leaf_bit(self.tree@, i)
                    == #[trigger] leaf_bit(old(self).tree@, i) by {
                    assert(leaf_bit(self.tree@, i) == leaf_bit(prev, i));
                }
                assert(leaf_bit(self.tree@, idx as int) == leaf_bit(prev, idx as int));
            }
            cur = parent;
            step = step * 2;
            lvl += 1;
            proof {
                q = qp;
            }
        }
        proof {
            // no node sits above the root, so every side is correct
            assert forall|q2: int, l2: nat, left2: bool|
                0 <= q2 && node_idx(q2, l2) < self.tree@.len() implies #[trigger] side_ok(
                self.tree@,
                q2,
                l2,
                left2,
            ) by {
                lemma_node_bounds(q2, l2, h);
            }
            assert(self.wf()) by {
                assert forall|i: int|
                    self.size <= i < self.tree@.len() + 1 implies !#[trigger] leaf_bit(
                    self.tree@,
                    i,
                ) by {
                    assert(leaf_bit(self.tree@, i) == leaf_bit(old(self).tree@, i));
                }
            }
        }
    }

    /// Sets the number of leaves this tree tracks. Bits below the old and
    /// new size are kept; new leaves start out free; the internal
    /// capacity is rounded up to a power of two, at least two. The bound
    /// on `size` keeps that rounded capacity inside the machine word.
    #[verifier::rlimit(100)]
    pub fn resize(&mut self, size: usize)
        requires
            old(self).wf(),
            size <= usize::MAX / 2 + 1,
        ensures
            final(self).wf(),
            final(self).spec_size() == size,
            final(self)@ =~= Seq::new(
                size as nat,
                |i: int| if i < old(self)@.len() { old(self)@[i] } else { false },
            ),
    {
        if self.size == size {
            return;
        }
        let min_sz: usize = if size < self.size {
            size
        } else {
            self.size
        };
        let last_safe_idx: usize = if min_sz == 0 {
            0
        } else {
            min_sz - 1
        };
        let last_val: Option<bool> = self.is_full(last_safe_idx);
        if size == 0 {
            self.tree.truncate(0);
            self.height = 0;
            self.size = 0;
            return;
        }
        let mut new_cap: usize = 2;
        let mut h: usize = 0;
        proof {
            vstd::arithmetic::power2::lemma2_to64();
        }
        while new_cap < size
            invariant
                new_cap == pow2((h + 1) as nat),
                2 <= new_cap,
                h + 2 <= new_cap,
                size <= usize::MAX / 2 + 1,
            decreases 2 * size - new_cap,
        {
            proof {
                lemma_pow2_unfold((h + 2) as nat);
            }
            new_cap = new_cap * 2;
            h = h + 1;
        }
        let ghost old_tree = self.tree@;
        let ghost old_size = self.size as int;
        let ghost old_cap = old_tree.len() + 1;
        let ghost oh = self.height as nat;
        let ghost minv = min_sz as int;
        let ghost kept = vstd::math::min(old_tree.len() as int, size - 1);
        self.height = h;
        self.tree.truncate(size - 1);
        while self.tree.len() < new_cap - 1
            invariant
                0 <= kept,
                self.height == h,
                self.size == old(self).size,
                kept <= self.tree@.len() <= new_cap - 1,
                forall|m: int| 0 <= m < kept ==> self.tree@[m] == old_tree[m],
                forall|m: int|
                    kept <= m < self.tree@.len() ==> (#[trigger] self.tree@[m]).left_has_empty && !self.tree@[m].left_has_full
                        && self.tree@[m].right_has_empty && !self.tree@[m].right_has_full,
                new_cap == pow2((h + 1) as nat),
                size <= new_cap,
                kept == vstd::math::min(old_tree.len() as int, size - 1),
            decreases new_cap - 1 - self.tree@.len(),
        {
            let ghost before = self.tree@;
            let filler = PackedNode::empty();
            self.tree.push(filler);
            proof {
                assert(self.tree@ == before.push(filler));
                assert forall|m: int|
                    kept <= m < self.tree@.len() implies (#[trigger] self.tree@[m]).left_has_empty
                        && !self.tree@[m].left_has_full && self.tree@[m].right_has_empty
                        && !self.tree@[m].right_has_full by {
                    if m < before.len() {
                        assert(before.push(filler)[m] == before[m]);
                        assert(self.tree@[m] == before[m]);
                    } else {
                        assert(before.push(filler)[m] == filler);
                        assert(self.tree@[m] == filler);
                    }
                }
            }
        }
        self.size = size;
        let ghost mid = self.tree@;
        proof {
            lemma_pow2_unfold((h + 1) as nat);
            lemma_pow2_pos(h as nat);
            assert(mid.len() == new_cap - 1);
            // where each leaf bit of the rebuilt tree comes from
            assert forall|i: int| 0 <= i < new_cap && i != minv - 1 implies #[trigger] leaf_bit(
                mid,
                i,
            ) == (if i < minv {
                leaf_bit(old_tree, i)
            } else {
                false
            }) by {
                lemma_fundamental_div_mod(i, 2);
                let ni = i - i % 2;
                if i < minv - 1 {
                    assert(ni < kept);
                    assert(mid[ni] == old_tree[ni]);
                } else {
                    // i >= minv here
                    if ni < kept {
                        assert(mid[ni] == old_tree[ni]);
                        if old_size < size {
                            // grown: the old tree already read these leaves as free
                            assert(i < old_cap);
                            assert(!leaf_bit(old_tree, i));
                        } else {
                            // shrunk: such a leaf's node was dropped
                            assert(ni <= size - 2 && i <= ni + 1);
                            assert(false);
                        }
                    } else {
                        assert(mid[ni].left_has_full == false && mid[ni].right_has_full == false);
                    }
                }
            }
        }
        match last_val {
            Some(val) => {
                proof {
                    assert(minv >= 1 && last_safe_idx == minv - 1);
                    assert(val == leaf_bit(old_tree, minv - 1));
                    // hidden leaves of the rebuilt tree read free
                    assert forall|i: int| size <= i < new_cap implies !#[trigger] leaf_bit(
                        mid,
                        i,
                    ) by {
                        assert(i != minv - 1);
                    }
                    // every side whose half avoids the last kept leaf is correct
                    assert forall|q: int, l: nat, left: bool|
                        0 <= q && node_idx(q, l) < mid.len() && !(side_lo(q, l, left) <= minv - 1
                            < side_lo(q, l, left) + pow2(l)) implies #[trigger] side_ok(
                        mid,
                        q,
                        l,
                        left,
                    ) by {
                        lemma_node_bounds(q, l, (h as nat));
                        lemma_pow2_pos(l);
                        let m = node_idx(q, l);
                        let lo = side_lo(q, l, left);
                        let hi = lo + pow2(l);
                        if m < kept {
                            // carried-over node: every leaf of this side keeps its bit
                            assert(m < old_tree.len());
                            lemma_node_bounds(q, l, oh);
                            assert(side_ok(old_tree, q, l, left));
                            assert(hi <= old_cap);
                            assert forall|i: int| lo <= i < hi implies #[trigger] leaf_bit(mid, i)
                                == leaf_bit(old_tree, i) by {
                                assert(i != minv - 1);
                                if i >= minv {
                                    if old_size < size {
                                        assert(!leaf_bit(old_tree, i));
                                        assert(!leaf_bit(mid, i));
                                    } else {
                                        // a kept side cannot reach past the new size
                                        if left {
                                            assert(i < m + 1);
                                            assert(false);
                                        } else {
                                            assert(lo == m + 1 && lo <= minv - 1);
                                            assert(false);
                                        }
                                    }
                                }
                            }
                            assert((exists|i: int| lo <= i < hi && leaf_bit(mid, i)) == (exists|
                                i: int,
                            | lo <= i < hi && leaf_bit(old_tree, i))) by {
                                if exists|i: int| lo <= i < hi && leaf_bit(mid, i) {
                                    let w = choose|i: int| lo <= i < hi && leaf_bit(mid, i);
                                    assert(leaf_bit(old_tree, w));
                                }
                                if exists|i: int| lo <= i < hi && leaf_bit(old_tree, i) {
                                    let w = choose|i: int| lo <= i < hi && leaf_bit(old_tree, i);
                                    assert(leaf_bit(mid, w));
                                }
                            }
                            assert((exists|i: int| lo <= i < hi && !leaf_bit(mid, i)) == (exists|
                                i: int,
                            | lo <= i < hi && !leaf_bit(old_tree, i))) by {
                                if exists|i: int| lo <= i < hi && !leaf_bit(mid, i) {
                                    let w = choose|i: int| lo <= i < hi && !leaf_bit(mid, i);
                                    assert(!leaf_bit(old_tree, w));
                                }
                                if exists|i: int| lo <= i < hi && !leaf_bit(old_tree, i) {
                                    let w = choose|i: int| lo <= i < hi && !leaf_bit(old_tree, i);
                                    assert(!leaf_bit(mid, w));
                                }
                            }
                        } else {
                            // fresh empty node: every leaf of this side is free
                            assert(mid[m].left_has_empty && !mid[m].left_has_full
                                && mid[m].right_has_empty && !mid[m].right_has_full);
                            // this side sits past the last kept leaf
                            assert(hi > minv - 1) by {
                                if left {
                                    assert(hi == m + 1);
                                    if old_size < size {
                                        assert(m >= kept);
                                        assert(old_tree.len() <= size - 1 || m >= size - 1);
                                        if old_tree.len() <= size - 1 {
                                            assert(m + 1 >= old_cap);
                                            assert(old_cap >= old_size);
                                        }
                                    }
                                } else {
                                    assert(lo == m + 1 && hi > lo);
                                }
                            }
                            assert(lo >= minv);
                            assert forall|i: int| lo <= i < hi implies !#[trigger] leaf_bit(
                                mid,
                                i,
                            ) by {
                                assert(i >= minv && i != minv - 1);
                            }
                            assert(!(exists|i: int| lo <= i < hi && leaf_bit(mid, i)));
                            assert(exists|i: int| lo <= i < hi && !leaf_bit(mid, i)) by {
                                assert(lo <= lo < hi && !leaf_bit(mid, lo));
                            }
                        }
                    }
                    assert(sides_ok_except(mid, minv - 1));
                }
                self.set_leaf_inner(last_safe_idx, val);
                proof {
                    assert forall|i: int| 0 <= i < size implies #[trigger] self@[i] == (if i < old(
                        self,
                    )@.len() {
                        old(self)@[i]
                    } else {
                        false
                    }) by {
                        if i == minv - 1 {
                            assert(leaf_bit(self.tree@, i) == val);
                        } else {
                            assert(leaf_bit(self.tree@, i) == leaf_bit(mid, i));
                        }
                    }
                    assert(self@ =~= Seq::new(
                        size as nat,
                        |i: int| if i < old(self)@.len() { old(self)@[i] } else { false },
                    ));
                }
            },
            None => {
                proof {
                    assert(old_size == 0 && minv == 0);
                    assert(kept <= 0);
                    // a tree rebuilt from nothing: every node is empty
                    assert forall|i: int| 0 <= i < new_cap implies !#[trigger] leaf_bit(
                        mid,
                        i,
                    ) by {
                        lemma_fundamental_div_mod(i, 2);
                    }
                    assert forall|q: int, l: nat, left: bool|
                        0 <= q && node_idx(q, l) < mid.len() implies #[trigger] side_ok(
                        mid,
                        q,
                        l,
                        left,
                    ) by {
                        lemma_node_bounds(q, l, (h as nat));
                        lemma_pow2_pos(l);
                        let lo = side_lo(q, l, left);
                        let hi = lo + pow2(l);
                        assert(!(exists|i: int| lo <= i < hi && leaf_bit(mid, i)));
                        assert(exists|i: int| lo <= i < hi && !leaf_bit(mid, i)) by {
                            assert(lo <= lo < hi && !leaf_bit(mid, lo));
                        }
                    }
                    assert(self.wf());
                    assert(self@ =~= Seq::new(
                        size as nat,
                        |i: int| if i < old(self)@.len() { old(self)@[i] } else { false },
                    ));
                }
            },
        }
    }

    /// Writes the bit of leaf `idx` and updates every summary above it,
    /// or returns `None` without any change when `idx` lies beyond the
    /// tracked size.
    pub fn set_leaf(&mut self, idx: usize, full: bool) -> (r: Option<()>)
        requires
            old(self).wf(),
        ensures
            final(self).wf(),
            final(self).spec_size() == old(self).spec_size(),
            idx < old(self).spec_size() ==> r == Some(()) && final(self)@ =~= old(self)@.update(
                idx as int,
                full,
            ),
            idx >= old(self).spec_size() ==> r is None && *final(self) == *old(self),
    {
        if idx >= self.size {
            return None;
        }
        self.set_leaf_inner(idx, full);
        Some(())
    }

    /// Walks down from the root looking for the extreme leaf whose bit
    /// equals `full`: the lowest such leaf when `left` holds, else the
    /// highest. Leaves at or beyond the tracked size always read free,
    /// so a search for the highest free leaf returns `None` whenever
    /// hidden leaves exist.
    pub fn find_leaf(&self, left: bool, full: bool) -> (r: Option<usize>)
        requires
            self.wf(),
        ensures
            match r {
                Some(i) => {
                    &&& i < self.spec_size()
                    &&& self@[i as int] == full
                    &&& (left ==> forall|j: int| 0 <= j < i ==> self@[j] != full)
                    &&& (!left ==> forall|j: int| i < j < self@.len() ==> self@[j] != full)
                },
                None => {
                    if left || full {
                        forall|j: int| 0 <= j < self@.len() ==> self@[j] != full
                    } else {
                        self.spec_size() < self.spec_cap() || forall|j: int|
                            0 <= j < self@.len() ==> self@[j]
                    }
                },
            },
    {
        if self.size == 0 {
            return None;
        }
        let ghost h = self.height as nat;
        let ghost cap = self.spec_cap();
        proof {
            lemma_pow2_unfold((self.height + 1) as nat);
            lemma_pow2_pos(h);
            assert(cap == 2 * pow2(h));
        }
        let mut cur: usize = (self.tree.len() + 1) / 2 - 1;
        let mut step: usize = (self.tree.len() + 1) / 2;
        let mut lvl: usize = self.height;
        let ghost mut q: int = 0;
        proof {
            assert(cur == node_idx(0, h));
            assert((0 + 1) * pow2((h + 1) as nat) == cap) by (nonlinear_arith)
                requires
                    cap == pow2((h + 1) as nat),
            ;
        }
        while lvl > 0
            invariant
                self.wf(),
                self.size > 0,
                h == self.height as nat,
                cap == self.spec_cap(),
                cap == pow2((h + 1) as nat),
                lvl <= self.height,
                0 <= q,
                cur == node_idx(q, lvl as nat),
                0 <= cur < self.tree@.len(),
                (q + 1) * pow2((lvl + 1) as nat) <= cap,
                step == pow2(lvl as nat),
                left ==> forall|j: int|
                    0 <= j < q * pow2((lvl + 1) as nat) ==> #[trigger] leaf_bit(self.tree@, j)
                        != full,
                !left ==> forall|j: int|
                    (q + 1) * pow2((lvl + 1) as nat) <= j < cap ==> #[trigger] leaf_bit(
                        self.tree@,
                        j,
                    ) != full,
                (exists|j: int|
                    q * pow2((lvl + 1) as nat) <= j < (q + 1) * pow2((lvl + 1) as nat)
                        && #[trigger] leaf_bit(self.tree@, j) == full) || (q == 0 && lvl
                    == self.height),
            decreases lvl,
        {
            let node = self.tree[cur];
            let step2 = step / 2;
            let ghost lo = q * pow2((lvl + 1) as nat) as int;
            let ghost mid = lo + pow2(lvl as nat) as int;
            let ghost hi = lo + pow2((lvl + 1) as nat) as int;
            proof {
                lemma_pow2_unfold((lvl + 1) as nat);
                lemma_pow2_unfold(lvl as nat);
                lemma_pow2_pos((lvl - 1) as nat);
                lemma_child(q, lvl as nat);
                lemma_node_bounds(q, lvl as nat, h);
                assert(side_ok(self.tree@, q, lvl as nat, true));
                assert(side_ok(self.tree@, q, lvl as nat, false));
                lemma_exists_split(self.tree@, lo, mid, hi);
                assert(step2 == pow2((lvl - 1) as nat));
                assert(side_lo(q, lvl as nat, true) == lo && side_lo(q, lvl as nat, false) == mid);
                // both children stay inside the array
                assert((2 * q + 1 + 1) * pow2(lvl as nat) == (q + 1) * pow2((lvl + 1) as nat))
                    by (nonlinear_arith)
                    requires
                        pow2((lvl + 1) as nat) == 2 * pow2(lvl as nat),
                ;
                assert((2 * q + 1) * pow2(lvl as nat) < (2 * q + 2) * pow2(lvl as nat))
                    by (nonlinear_arith)
                    requires
                        0 < pow2(lvl as nat),
                ;
                assert(node_idx(2 * q + 1, (lvl - 1) as nat) < cap - 1) by (nonlinear_arith)
                    requires
                        node_idx(2 * q + 1, (lvl - 1) as nat) == (2 * q + 1) * pow2(lvl as nat)
                            + pow2((lvl - 1) as nat) - 1 && 2 * pow2((lvl - 1) as nat) == pow2(
                            lvl as nat,
                        ) && (2 * q + 2) * pow2(lvl as nat) <= cap && 0 < pow2((lvl - 1) as nat),
                ;
                assert(node_idx(2 * q, (lvl - 1) as nat) >= 0);
            }
            if node.read(left, full) {
                proof {
                    if left {
                        assert(exists|j: int| lo <= j < mid && leaf_bit(self.tree@, j) == full);
                        q = 2 * q;
                    } else {
                        assert(exists|j: int| mid <= j < hi && leaf_bit(self.tree@, j) == full);
                        q = 2 * q + 1;
                    }
                }
                cur = if left {
                    cur - step2
                } else {
                    cur + step2
                };
            } else if node.read(!left, full) {
                proof {
                    if left {
                        assert(forall|j: int|
                            lo <= j < mid ==> #[trigger] leaf_bit(self.tree@, j) != full);
                        assert(exists|j: int| mid <= j < hi && leaf_bit(self.tree@, j) == full);
                        q = 2 * q + 1;
                    } else {
                        assert(forall|j: int|
                            mid <= j < hi ==> #[trigger] leaf_bit(self.tree@, j) != full);
                        assert(exists|j: int| lo <= j < mid && leaf_bit(self.tree@, j) == full);
                        q = 2 * q;
                    }
                }
                cur = if left {
                    cur + step2
                } else {
                    cur - step2
                };
            } else {
                proof {
                    assert(forall|j: int|
                        lo <= j < hi ==> #[trigger] leaf_bit(self.tree@, j) != full);
                    if !(q == 0 && lvl == self.height) {
                        assert(false);
                    }
                    assert(lo == 0 && hi == cap) by (nonlinear_arith)
                        requires
                            lo == 0 * pow2((lvl + 1) as nat) && hi == lo + pow2((lvl + 1) as nat)
                                && (0 + 1) * pow2((lvl + 1) as nat) == pow2((lvl + 1) as nat)
                                && pow2((lvl + 1) as nat) == cap,
                    ;
                    if !left && !full && self.spec_size() == self.spec_cap() {
                        assert(forall|j: int| 0 <= j < self@.len() ==> self@[j]);
                    }
                }
                return None;
            }
            step = step2;
            lvl -= 1;
        }
        let node = self.tree[cur];
        let ghost lo = q * pow2(1) as int;
        proof {
            lemma_node_idx0(q);
            vstd::arithmetic::power2::lemma2_to64();
            assert(cur == 2 * q && lo == 2 * q);
            assert(side_ok(self.tree@, q, 0, true));
            assert(side_ok(self.tree@, q, 0, false));
            assert((if node.left_has_full {
                leaf_bit(self.tree@, 2 * q)
            } else {
                !leaf_bit(self.tree@, 2 * q)
            }) && (if node.right_has_full {
                leaf_bit(self.tree@, 2 * q + 1)
            } else {
                !leaf_bit(self.tree@, 2 * q + 1)
            })) by {
                if leaf_bit(self.tree@, 2 * q) {
                    assert(exists|i: int| 2 * q <= i < 2 * q + 1 && #[trigger] leaf_bit(self.tree@, i));
                } else {
                    assert(exists|i: int| 2 * q <= i < 2 * q + 1 && !#[trigger] leaf_bit(self.tree@, i));
                }
                if leaf_bit(self.tree@, 2 * q + 1) {
                    assert(exists|i: int| 2 * q + 1 <= i < 2 * q + 2 && #[trigger] leaf_bit(self.tree@, i));
                } else {
                    assert(exists|i: int| 2 * q + 1 <= i < 2 * q + 2 && !#[trigger] leaf_bit(self.tree@, i));
                }
            }
        }
        let result: usize;
        if node.read(left, full) {
            result = if left {
                cur
            } else {
                cur + 1
            };
        } else if node.read(!left, full) {
            result = if left {
                cur + 1
            } else {
                cur
            };
        } else {
            proof {
                if !(q == 0 && self.height == 0) {
                    assert(false);
                }
                if !left && !full && self.spec_size() == self.spec_cap() {
                    assert(forall|j: int| 0 <= j < self@.len() ==> self@[j]);
                }
            }
            return None;
        }
        proof {
            assert(leaf_bit(self.tree@, result as int) == full);
            if left {
                assert(forall|j: int|
                    0 <= j < result ==> #[trigger] leaf_bit(self.tree@, j) != full);
            } else {
                assert(forall|j: int|
                    result < j < cap ==> #[trigger] leaf_bit(self.tree@, j) != full);
            }
        }
        if result < self.size {
            Some(result)
        } else {
            proof {
                if !left && full {
                    assert(!leaf_bit(self.tree@, result as int));
                    assert(false);
                }
                if !left && !full {
                    assert(self.spec_size() < self.spec_cap());
                }
            }
            None
        }
    }

    /// The lowest free leaf, or `None` when every tracked leaf is occupied.
    pub fn find_first_free(&self) -> (r: Option<usize>)
        requires
            self.wf(),
        ensures
            match r {
                Some(i) => i < self.spec_size() && !self@[i as int] && forall|j: int|
                    0 <= j < i ==> self@[j],
                None => forall|j: int| 0 <= j < self@.len() ==> self@[j],
            },
    {
        self.find_leaf(true, false)
    }

    /// The highest occupied leaf, or `None` when every tracked leaf is free.
    pub fn find_last_full(&self) -> (r: Option<usize>)
        requires
            self.wf(),
        ensures
            match r {
                Some(i) => i < self.spec_size() && self@[i as int] && forall|j: int|
                    i < j < self@.len() ==> !self@[j],
                None => forall|j: int| 0 <= j < self@.len() ==> !self@[j],
            },
    {
        self.find_leaf(false, true)
    }

    /// The stored bit of leaf `idx`, or `None` when `idx` lies beyond the
    /// tracked size.
    pub fn is_full(&self, idx: usize) -> (r: Option<bool>)
        requires
            self.wf(),
        ensures
            idx < self.spec_size() ==> r == Some(self@[idx as int]),
            idx >= self.spec_size() ==> r is None,
    {
        if idx >= self.size {
            return None;
        }
        let m = idx - (idx % 2);
        proof {
            lemma_pow2_unfold((self.height + 1) as nat);
            assert(self.spec_cap() % 2 == 0);
            assert(m + 1 < self.spec_cap());
        }
        Some(self.tree[m].read(idx % 2 == 0, true))
    }
}

} // verus!
