use vstd::prelude::*;

use vstd::arithmetic::power2::{
    lemma2_to64, lemma2_to64_rest, lemma_pow2_pos, lemma_pow2_strictly_increases,
    lemma_pow2_unfold, pow2,
};

use crate::error::SleepError;

verus! {

/// Depth of a flat-tree node: the number of trailing one bits of its
/// index. Even indices are leaves, at depth 0.
pub open spec fn spec_depth(i: nat) -> nat
    decreases i,
{
    if i % 2 == 0 {
        0
    } else {
        1 + spec_depth(((i - 1) / 2) as nat)
    }
}

/// Position of a node among all nodes of its depth, left to right.
pub open spec fn spec_offset(i: nat) -> nat
    decreases i,
{
    if i % 2 == 0 {
        i / 2
    } else {
        spec_offset(((i - 1) / 2) as nat)
    }
}

/// The flat index of the node at a given depth and offset: nodes of
/// depth `d` sit at `(2 * o + 1) * 2^d - 1`.
pub open spec fn node_index(d: nat, o: nat) -> nat {
    ((2 * o + 1) * pow2(d) - 1) as nat
}

/// The offset of the other child of the same parent.
pub open spec fn flip_offset(o: nat) -> nat {
    if o % 2 == 0 {
        o + 1
    } else {
        (o - 1) as nat
    }
}

/// The unique node one depth up whose subtree spans this node.
pub open spec fn spec_parent(i: nat) -> nat {
    node_index(spec_depth(i) + 1, spec_offset(i) / 2)
}

/// The other child of this node's parent.
pub open spec fn spec_sibling(i: nat) -> nat {
    node_index(spec_depth(i), flip_offset(spec_offset(i)))
}

/// Left child of an internal node.
pub open spec fn spec_left_child(i: nat) -> nat
    recommends
        spec_depth(i) > 0,
{
    node_index((spec_depth(i) - 1) as nat, 2 * spec_offset(i))
}

/// Right child of an internal node.
pub open spec fn spec_right_child(i: nat) -> nat
    recommends
        spec_depth(i) > 0,
{
    node_index((spec_depth(i) - 1) as nat, 2 * spec_offset(i) + 1)
}

/// First leaf index (an even flat index) spanned by this node's subtree.
pub open spec fn spec_span_first(i: nat) -> nat {
    spec_offset(i) * pow2(spec_depth(i) + 1)
}

/// Last leaf index (inclusive, an even flat index) spanned by this
/// node's subtree: the subtree of a depth-`d` node covers `2^d` leaves.
pub open spec fn spec_span_last(i: nat) -> nat {
    (spec_span_first(i) + pow2(spec_depth(i) + 1) - 2) as nat
}

/// `node_index` inverts depth and offset: the node written at depth `d`
/// and offset `o` has exactly that depth and offset.
pub proof fn lemma_node_index_inverse(d: nat, o: nat)
    ensures
        spec_depth(node_index(d, o)) == d,
        spec_offset(node_index(d, o)) == o,
    decreases d,
{
    if d == 0 {
        lemma2_to64();
        assert(node_index(0, o) == 2 * o);
    } else {
        let prev = node_index((d - 1) as nat, o);
        lemma_pow2_unfold(d);
        lemma_pow2_pos((d - 1) as nat);
        assert((2 * o + 1) * pow2(d) == 2 * ((2 * o + 1) * pow2((d - 1) as nat)))
            by (nonlinear_arith)
            requires
                pow2(d) == 2 * pow2((d - 1) as nat),
        ;
        assert((2 * o + 1) * pow2((d - 1) as nat) >= 1) by (nonlinear_arith)
            requires
                pow2((d - 1) as nat) >= 1,
        ;
        let n = node_index(d, o);
        assert(n == 2 * prev + 1);
        lemma_node_index_inverse((d - 1) as nat, o);
    }
}

/// Every index is the node of its own depth and offset.
pub proof fn lemma_node_index_of(i: nat)
    ensures
        node_index(spec_depth(i), spec_offset(i)) == i,
        i + 1 == (2 * spec_offset(i) + 1) * pow2(spec_depth(i)),
    decreases i,
{
    if i % 2 == 0 {
        lemma2_to64();
        assert(node_index(0, i / 2) == 2 * (i / 2));
    } else {
        let j = ((i - 1) / 2) as nat;
        lemma_node_index_of(j);
        let dj = spec_depth(j);
        let oj = spec_offset(j);
        lemma_pow2_unfold(dj + 1);
        assert((2 * oj + 1) * pow2(dj + 1) == 2 * ((2 * oj + 1) * pow2(dj))) by (nonlinear_arith)
            requires
                pow2(dj + 1) == 2 * pow2(dj),
        ;
        assert(i == 2 * j + 1);
    }
}

/// Leaves are exactly the nodes of depth zero.
pub proof fn lemma_leaf_depth_zero(i: nat)
    requires
        i % 2 == 0,
    ensures
        spec_depth(i) == 0,
{
}

/// A node's sibling has the same depth, the adjacent offset, and the
/// same parent; taking the sibling twice leads back.
pub proof fn lemma_sibling_involution(i: nat)
    ensures
        spec_depth(spec_sibling(i)) == spec_depth(i),
        spec_sibling(spec_sibling(i)) == i,
        spec_parent(spec_sibling(i)) == spec_parent(i),
{
    lemma_node_index_of(i);
    lemma_node_index_inverse(spec_depth(i), flip_offset(spec_offset(i)));
    assert(flip_offset(flip_offset(spec_offset(i))) == spec_offset(i));
    assert(flip_offset(spec_offset(i)) / 2 == spec_offset(i) / 2);
}

/// The parent sits one depth up, at half the offset, and this node is
/// one of its two children.
pub proof fn lemma_parent_child(i: nat)
    ensures
        spec_depth(spec_parent(i)) == spec_depth(i) + 1,
        spec_offset(spec_parent(i)) == spec_offset(i) / 2,
        spec_left_child(spec_parent(i)) == i || spec_right_child(spec_parent(i)) == i,
        spec_offset(i) % 2 == 0 ==> spec_left_child(spec_parent(i)) == i,
        spec_offset(i) % 2 == 1 ==> spec_right_child(spec_parent(i)) == i,
{
    lemma_node_index_of(i);
    lemma_node_index_inverse(spec_depth(i) + 1, spec_offset(i) / 2);
    let o = spec_offset(i);
    if o % 2 == 0 {
        assert(2 * (o / 2) == o);
    } else {
        assert(2 * (o / 2) + 1 == o);
    }
}

/// The two children of an internal node: one depth down, at twice the
/// offset and its successor; this node is their parent and they are
/// each other's siblings, on either side of their parent's index.
pub proof fn lemma_children_of(i: nat)
    requires
        spec_depth(i) > 0,
    ensures
        spec_depth(spec_left_child(i)) == spec_depth(i) - 1,
        spec_depth(spec_right_child(i)) == spec_depth(i) - 1,
        spec_offset(spec_left_child(i)) == 2 * spec_offset(i),
        spec_offset(spec_right_child(i)) == 2 * spec_offset(i) + 1,
        spec_parent(spec_left_child(i)) == i,
        spec_parent(spec_right_child(i)) == i,
        spec_sibling(spec_left_child(i)) == spec_right_child(i),
        spec_sibling(spec_right_child(i)) == spec_left_child(i),
        spec_left_child(i) == i - pow2((spec_depth(i) - 1) as nat),
        spec_right_child(i) == i + pow2((spec_depth(i) - 1) as nat),
{
    let d = spec_depth(i);
    let o = spec_offset(i);
    lemma_node_index_of(i);
    lemma_node_index_inverse((d - 1) as nat, 2 * o);
    lemma_node_index_inverse((d - 1) as nat, 2 * o + 1);
    lemma_pow2_unfold(d);
    lemma_pow2_pos((d - 1) as nat);
    assert((2 * (2 * o) + 1) * pow2((d - 1) as nat) == (2 * o + 1) * pow2(d) - pow2(
        (d - 1) as nat,
    ) && (2 * (2 * o + 1) + 1) * pow2((d - 1) as nat) == (2 * o + 1) * pow2(d) + pow2(
        (d - 1) as nat,
    )) by (nonlinear_arith)
        requires
            pow2(d) == 2 * pow2((d - 1) as nat),
    ;
}

/// Where a node sits inside its own span: `2^d - 1` places after the
/// first spanned leaf and `2^d - 1` before the last.
pub proof fn lemma_span_around(i: nat)
    ensures
        spec_span_first(i) == i + 1 - pow2(spec_depth(i)),
        spec_span_last(i) == i + pow2(spec_depth(i)) - 1,
        spec_span_first(i) <= i <= spec_span_last(i),
        spec_span_first(i) % 2 == 0,
        spec_span_last(i) % 2 == 0,
        spec_span_last(i) + 2 == (spec_offset(i) + 1) * pow2(spec_depth(i) + 1),
{
    let d = spec_depth(i);
    let o = spec_offset(i);
    lemma_node_index_of(i);
    lemma_pow2_unfold(d + 1);
    lemma_pow2_pos(d);
    assert((o + 1) * pow2(d + 1) == o * pow2(d + 1) + pow2(d + 1)) by (nonlinear_arith);
    assert(o * pow2(d + 1) + pow2(d) == (2 * o + 1) * pow2(d) && o * pow2(d + 1) == 2 * (o * pow2(
        d,
    ))) by (nonlinear_arith)
        requires
            pow2(d + 1) == 2 * pow2(d),
    ;
}

/// A child's span lies inside its parent's: the parent's span is the
/// two children's spans laid side by side.
pub proof fn lemma_children_span(i: nat)
    requires
        spec_depth(i) > 0,
    ensures
        spec_span_first(spec_left_child(i)) == spec_span_first(i),
        spec_span_last(spec_right_child(i)) == spec_span_last(i),
        spec_span_last(spec_left_child(i)) + 2 == spec_span_first(spec_right_child(i)),
        spec_span_last(spec_left_child(i)) == i - 1,
        spec_span_first(spec_right_child(i)) == i + 1,
{
    let d = spec_depth(i);
    lemma_children_of(i);
    lemma_span_around(i);
    lemma_span_around(spec_left_child(i));
    lemma_span_around(spec_right_child(i));
    lemma_pow2_unfold(d);
    lemma_pow2_pos((d - 1) as nat);
}

/// Depth never exceeds 64 for a 64-bit index.
pub proof fn lemma_depth_bound(i: nat)
    requires
        i <= u64::MAX,
    ensures
        spec_depth(i) <= 64,
{
    lemma_node_index_of(i);
    if spec_depth(i) > 64 {
        lemma_pow2_strictly_increases(64, spec_depth(i));
        lemma2_to64();
        assert((2 * spec_offset(i) + 1) * pow2(spec_depth(i)) >= pow2(spec_depth(i)))
            by (nonlinear_arith)
            requires
                pow2(spec_depth(i)) >= 0,
        ;
    }
}

/// Compute `2^e` as a 64-bit value.
#[verifier::loop_isolation(false)]
pub(crate) fn pow2_u64(e: u32) -> (r: u64)
    requires
        e <= 63,
    ensures
        r as nat == pow2(e as nat),
{
    let mut r: u64 = 1;
    let mut j: u32 = 0;
    proof {
        lemma2_to64();
    }
    while j < e
        invariant
            j <= e,
            r as nat == pow2(j as nat),
        decreases e - j,
    {
        proof {
            lemma_pow2_unfold(j as nat + 1);
            if j as nat + 1 < 63 {
                lemma_pow2_strictly_increases(j as nat + 1, 63);
            }
            lemma2_to64_rest();
        }
        r = r * 2;
        j = j + 1;
    }
    r
}

/// Depth and offset of a node, computed together by stripping the
/// index's trailing one bits.
#[verifier::loop_isolation(false)]
fn depth_offset(index: u64) -> (r: (u32, u64))
    ensures
        r.0 as nat == spec_depth(index as nat),
        r.1 as nat == spec_offset(index as nat),
        r.0 <= 64,
{
    let mut n: u64 = index;
    let mut d: u32 = 0;
    proof {
        lemma2_to64();
    }
    while n % 2 == 1
        invariant
            spec_depth(index as nat) == d as nat + spec_depth(n as nat),
            spec_offset(index as nat) == spec_offset(n as nat),
            pow2(d as nat) * (n as nat + 1) == index as nat + 1,
            d <= 64,
        decreases n,
    {
        proof {
            lemma_pow2_unfold(d as nat + 1);
            assert(2 * ((n as nat / 2) + 1) == n as nat + 1);
            assert(pow2(d as nat + 1) * ((n as nat / 2) + 1) == pow2(d as nat) * (n as nat + 1))
                by (nonlinear_arith)
                requires
                    pow2(d as nat + 1) == 2 * pow2(d as nat),
                    2 * ((n as nat / 2) + 1) == n as nat + 1,
            ;
            assert(pow2(d as nat + 1) <= pow2(d as nat + 1) * ((n as nat / 2) + 1))
                by (nonlinear_arith)
                requires
                    (n as nat / 2) + 1 >= 1,
                    pow2(d as nat + 1) >= 0,
            ;
            if d as nat + 1 > 64 {
                lemma_pow2_strictly_increases(64, d as nat + 1);
                lemma2_to64();
                assert(false);
            }
        }
        n = n / 2;
        d = d + 1;
    }
    (d, n / 2)
}

/// Depth of a node: leaves (even indices) are at depth 0.
pub fn depth(index: u64) -> (d: u32)
    ensures
        d as nat == spec_depth(index as nat),
{
    depth_offset(index).0
}

/// Offset of a node among the nodes of its depth, left to right.
pub fn offset(index: u64) -> (o: u64)
    ensures
        o as nat == spec_offset(index as nat),
{
    depth_offset(index).1
}

/// The parent of a node, or an invalid-index error when the parent's
/// index does not fit in 64 bits.
pub fn parent(index: u64) -> (r: Result<u64, SleepError>)
    ensures
        match r {
            Ok(p) => p as nat == spec_parent(index as nat),
            Err(e) => e == SleepError::InvalidIndex && spec_parent(index as nat) > u64::MAX,
        },
{
    let (d, o) = depth_offset(index);
    proof {
        lemma_node_index_of(index as nat);
        lemma_pow2_unfold(d as nat + 1);
    }
    if d >= 64 {
        proof {
            lemma_pow2_strictly_increases(64, d as nat + 1);
            lemma2_to64();
            assert(pow2(d as nat + 1) <= (2 * (o as nat / 2) + 1) * pow2(d as nat + 1))
                by (nonlinear_arith)
                requires
                    pow2(d as nat + 1) >= 0,
            ;
        }
        return Err(SleepError::InvalidIndex);
    }
    let p2 = pow2_u64(d);
    if o % 2 == 0 {
        proof {
            assert((2 * (o as nat / 2) + 1) * pow2(d as nat + 1) == (2 * o as nat + 1) * pow2(
                d as nat,
            ) + pow2(d as nat)) by (nonlinear_arith)
                requires
                    o as nat % 2 == 0,
                    pow2(d as nat + 1) == 2 * pow2(d as nat),
            ;
        }
        if index > u64::MAX - p2 {
            return Err(SleepError::InvalidIndex);
        }
        Ok(index + p2)
    } else {
        proof {
            assert((2 * (o as nat / 2) + 1) * pow2(d as nat + 1) == (2 * o as nat + 1) * pow2(
                d as nat,
            ) - pow2(d as nat) && (2 * o as nat + 1) * pow2(d as nat) >= 3 * pow2(d as nat))
                by (nonlinear_arith)
                requires
                    o as nat % 2 == 1,
                    pow2(d as nat + 1) == 2 * pow2(d as nat),
            ;
        }
        Ok(index - p2)
    }
}

/// The sibling of a node: the other child of its parent, or an
/// invalid-index error when the sibling's index does not fit in 64 bits.
pub fn sibling(index: u64) -> (r: Result<u64, SleepError>)
    ensures
        match r {
            Ok(s) => s as nat == spec_sibling(index as nat),
            Err(e) => e == SleepError::InvalidIndex && spec_sibling(index as nat) > u64::MAX,
        },
{
    let (d, o) = depth_offset(index);
    proof {
        lemma_node_index_of(index as nat);
    }
    if o % 2 == 1 {
        proof {
            assert((2 * o as nat + 1) * pow2(d as nat) >= 3 * pow2(d as nat)) by (nonlinear_arith)
                requires
                    o as nat >= 1,
                    pow2(d as nat) >= 0,
            ;
            if d >= 63 {
                lemma2_to64();
                lemma2_to64_rest();
                if d as nat > 63 {
                    lemma_pow2_strictly_increases(63, d as nat);
                }
                assert(false);
            }
            lemma_pow2_unfold(d as nat + 1);
            assert((2 * (o as nat - 1) + 1) * pow2(d as nat) == (2 * o as nat + 1) * pow2(d as nat)
                - pow2(d as nat + 1)) by (nonlinear_arith)
                requires
                    o as nat >= 1,
                    pow2(d as nat + 1) == 2 * pow2(d as nat),
            ;
        }
        let p2 = pow2_u64(d + 1);
        Ok(index - p2)
    } else {
        proof {
            lemma_pow2_unfold(d as nat + 1);
            assert((2 * (o as nat + 1) + 1) * pow2(d as nat) == (2 * o as nat + 1) * pow2(d as nat)
                + pow2(d as nat + 1)) by (nonlinear_arith)
                requires
                    pow2(d as nat + 1) == 2 * pow2(d as nat),
            ;
        }
        if d >= 63 {
            proof {
                lemma2_to64();
                lemma2_to64_rest();
                if d as nat + 1 > 64 {
                    lemma_pow2_strictly_increases(64, d as nat + 1);
                }
                assert(pow2(d as nat + 1) >= 0x10000000000000000);
            }
            return Err(SleepError::InvalidIndex);
        }
        let p2 = pow2_u64(d + 1);
        if index > u64::MAX - p2 {
            return Err(SleepError::InvalidIndex);
        }
        Ok(index + p2)
    }
}

/// The two children of an internal node, left then right. A leaf has
/// no children; an internal node whose right child's index does not
/// fit in 64 bits is an invalid-index error.
pub fn children(index: u64) -> (r: Result<(u64, u64), SleepError>)
    ensures
        match r {
            Ok(c) => {
                &&& spec_depth(index as nat) > 0
                &&& c.0 as nat == spec_left_child(index as nat)
                &&& c.1 as nat == spec_right_child(index as nat)
            },
            Err(e) => {
                if spec_depth(index as nat) == 0 {
                    e == SleepError::LeafHasNoChildren
                } else {
                    e == SleepError::InvalidIndex && spec_right_child(index as nat) > u64::MAX
                }
            },
        },
{
    let (d, o) = depth_offset(index);
    if d == 0 {
        return Err(SleepError::LeafHasNoChildren);
    }
    proof {
        lemma_node_index_of(index as nat);
        lemma_pow2_unfold(d as nat);
        assert((2 * (2 * o as nat) + 1) * pow2((d as nat - 1) as nat) == (2 * o as nat + 1) * pow2(
            d as nat,
        ) - pow2((d as nat - 1) as nat) && (2 * (2 * o as nat + 1) + 1) * pow2(
            (d as nat - 1) as nat,
        ) == (2 * o as nat + 1) * pow2(d as nat) + pow2((d as nat - 1) as nat))
            by (nonlinear_arith)
            requires
                pow2(d as nat) == 2 * pow2((d as nat - 1) as nat),
        ;
    }
    if d >= 64 {
        proof {
            lemma2_to64();
            lemma2_to64_rest();
            if d as nat - 1 > 63 {
                lemma_pow2_strictly_increases(63, (d as nat - 1) as nat);
            }
            assert(pow2((d as nat - 1) as nat) >= 0x8000000000000000);
            assert((2 * (2 * o as nat + 1) + 1) * pow2((d as nat - 1) as nat) >= 3 * pow2(
                (d as nat - 1) as nat,
            )) by (nonlinear_arith)
                requires
                    pow2((d as nat - 1) as nat) >= 0,
            ;
        }
        return Err(SleepError::InvalidIndex);
    }
    let p2h = pow2_u64(d - 1);
    if index > u64::MAX - p2h {
        return Err(SleepError::InvalidIndex);
    }
    proof {
        lemma_pow2_pos((d as nat - 1) as nat);
        assert((2 * o as nat + 1) * pow2(d as nat) >= 2 * pow2((d as nat - 1) as nat))
            by (nonlinear_arith)
            requires
                pow2(d as nat) == 2 * pow2((d as nat - 1) as nat),
                pow2((d as nat - 1) as nat) >= 1,
        ;
    }
    Ok((index - p2h, index + p2h))
}

/// The contiguous range of leaf indices this node's subtree covers,
/// first and last inclusive, both even; an invalid-index error when
/// the last one does not fit in 64 bits.
pub fn spanning_leaf_range(index: u64) -> (r: Result<(u64, u64), SleepError>)
    ensures
        match r {
            Ok(range) => {
                &&& range.0 as nat == spec_span_first(index as nat)
                &&& range.1 as nat == spec_span_last(index as nat)
            },
            Err(e) => e == SleepError::InvalidIndex && spec_span_last(index as nat) > u64::MAX,
        },
{
    let (d, o) = depth_offset(index);
    proof {
        lemma_node_index_of(index as nat);
        lemma_span_around(index as nat);
    }
    if d >= 64 {
        proof {
            lemma2_to64();
            lemma2_to64_rest();
            if d as nat > 64 {
                lemma_pow2_strictly_increases(64, d as nat);
            }
            assert(pow2(d as nat) >= 0x10000000000000000);
        }
        return Err(SleepError::InvalidIndex);
    }
    let p2 = pow2_u64(d);
    proof {
        lemma_pow2_pos(d as nat);
    }
    let first = index - (p2 - 1);
    if index > u64::MAX - (p2 - 1) {
        return Err(SleepError::InvalidIndex);
    }
    Ok((first, index + (p2 - 1)))
}

} // verus!
