use vstd::prelude::*;

use vstd::arithmetic::power2::{
    lemma2_to64, lemma2_to64_rest, lemma_pow2_adds, lemma_pow2_pos, lemma_pow2_strictly_increases,
    lemma_pow2_unfold, pow2,
};
use vstd::pervasive::VecAdditionalExecFns;

use crate::entry::Entry;
use crate::error::SleepError;
use crate::flat_tree::{
    lemma_children_of, lemma_children_span, lemma_leaf_depth_zero, lemma_node_index_of,
    lemma_span_around, spec_depth, spec_left_child, spec_offset, spec_right_child,
    spec_span_first, spec_span_last,
};
use crate::hashing::{combine, combine_hash};

verus! {

/// The growing entry sequence of a tree file, addressed by flat-tree
/// index: slot `j` holds the entry of node `j` once that node exists,
/// and `None` while the node's subtree is still incomplete.
pub struct Tree {
    nodes: Vec<Option<Entry>>,
}

impl View for Tree {
    type V = Seq<Option<Entry>>;

    closed spec fn view(&self) -> Seq<Option<Entry>> {
        self.nodes@
    }
}

/// How many leaves a sequence of the given slot count holds: slots
/// `0, 2, ..., len - 1`, so `(len + 1) / 2` of them.
pub open spec fn leaf_count(s: Seq<Option<Entry>>) -> nat {
    ((s.len() + 1) / 2) as nat
}

/// Whether node `j`'s whole subtree lies within a sequence of `len`
/// slots: its last spanned leaf must be a slot.
pub open spec fn node_complete(j: nat, len: nat) -> bool {
    spec_span_last(j) < len
}

/// The shape invariant of a tree sequence: the slot count is odd (or
/// zero), and a slot is filled exactly when its node's subtree is
/// complete. Every leaf slot is complete, so every even slot is filled.
pub open spec fn wf_shape(s: Seq<Option<Entry>>) -> bool {
    &&& s.len() % 2 == 1 || s.len() == 0
    &&& forall|j: int|
        0 <= j < s.len() ==> ((#[trigger] s[j]) is Some <==> node_complete(j as nat, s.len()))
}

/// The byte length recorded in slot `j`, or 0 when the slot is absent
/// or out of range.
pub open spec fn slot_bytes(s: Seq<Option<Entry>>, j: nat) -> nat {
    if j < s.len() && s[j as int] is Some {
        s[j as int]->0.byte_length as nat
    } else {
        0
    }
}

/// Total byte length of the leaf slots `lo, lo + 2, ...` below `hi`.
#[verifier::opaque]
pub open spec fn leaf_bytes(s: Seq<Option<Entry>>, lo: nat, hi: nat) -> nat
    decreases hi - lo,
{
    if lo + 2 <= hi {
        slot_bytes(s, lo) + leaf_bytes(s, lo + 2, hi)
    } else {
        0
    }
}

/// Total byte length of all leaves of the sequence.
pub open spec fn total_bytes(s: Seq<Option<Entry>>) -> nat {
    leaf_bytes(s, 0, s.len() + 1)
}

/// Every stored node's byte length is the total byte length of the
/// leaf slots its subtree spans.
pub open spec fn lengths_consistent(s: Seq<Option<Entry>>) -> bool {
    forall|j: int|
        0 <= j < s.len() && (#[trigger] s[j]) is Some ==> s[j]->0.byte_length as nat == leaf_bytes(
            s,
            spec_span_first(j as nat),
            spec_span_last(j as nat) + 2,
        )
}

/// Whether slot `j` holds exactly the entry recomputed from its two
/// children: the combined hash, and the sum of the byte lengths.
pub open spec fn combined_at(s: Seq<Option<Entry>>, j: nat) -> bool
    recommends
        spec_depth(j) > 0,
{
    let l = spec_left_child(j);
    let r = spec_right_child(j);
    &&& j < s.len() && l < s.len() && r < s.len()
    &&& s[j as int] is Some && s[l as int] is Some && s[r as int] is Some
    &&& s[j as int]->0.hash@ == combine_hash(s[l as int]->0.hash@, s[r as int]->0.hash@)
    &&& s[j as int]->0.byte_length as nat == s[l as int]->0.byte_length as nat + s[
        r as int
    ]->0.byte_length as nat
}

/// How many of the first `n` slots are filled.
pub open spec fn present_upto(s: Seq<Option<Entry>>, n: int) -> nat
    decreases n,
{
    if n <= 0 {
        0
    } else {
        present_upto(s, n - 1) + (if s[n - 1] is Some {
            1nat
        } else {
            0nat
        })
    }
}

/// How many of the first `n` slots are odd (internal) and complete.
pub open spec fn internal_complete_upto(s: Seq<Option<Entry>>, n: int) -> nat
    decreases n,
{
    if n <= 0 {
        0
    } else {
        internal_complete_upto(s, n - 1) + (if (n - 1) % 2 == 1 && node_complete(
            (n - 1) as nat,
            s.len(),
        ) {
            1nat
        } else {
            0nat
        })
    }
}

/// Two sequences that agree on the slots of an even-aligned range have
/// the same leaf byte total over it.
proof fn lemma_leaf_bytes_frame(s1: Seq<Option<Entry>>, s2: Seq<Option<Entry>>, lo: nat, hi: nat)
    requires
        forall|t: nat|
            lo <= t < hi && (t - lo) % 2 == 0 ==> #[trigger] slot_bytes(s1, t) == slot_bytes(s2, t),
    ensures
        leaf_bytes(s1, lo, hi) == leaf_bytes(s2, lo, hi),
    decreases hi - lo,
{
    reveal(leaf_bytes);
    if lo + 2 <= hi {
        assert(slot_bytes(s1, lo) == slot_bytes(s2, lo));
        lemma_leaf_bytes_frame(s1, s2, lo + 2, hi);
    }
}

/// Leaf byte totals add up over adjacent even-aligned ranges.
proof fn lemma_leaf_bytes_split(s: Seq<Option<Entry>>, a: nat, b: nat, c: nat)
    requires
        a <= b <= c,
        (b - a) % 2 == 0,
    ensures
        leaf_bytes(s, a, c) == leaf_bytes(s, a, b) + leaf_bytes(s, b, c),
    decreases b - a,
{
    reveal(leaf_bytes);
    if a + 2 <= b {
        lemma_leaf_bytes_split(s, a + 2, b, c);
    }
}

/// A leaf byte total never exceeds one taken over an enclosing range.
proof fn lemma_leaf_bytes_within(s: Seq<Option<Entry>>, a: nat, b: nat, lo: nat, hi: nat)
    requires
        lo <= a <= b <= hi,
        (a - lo) % 2 == 0,
        (b - a) % 2 == 0,
    ensures
        leaf_bytes(s, a, b) <= leaf_bytes(s, lo, hi),
{
    lemma_leaf_bytes_split(s, lo, a, hi);
    lemma_leaf_bytes_split(s, a, b, hi);
}

/// What validating the subtree under node `j` yields, walking bottom
/// up from the leaves, left before right: the first missing node is an
/// incomplete tree; the first stored internal entry whose hash is not
/// the combined hash of its two children is a mismatch at that index;
/// a subtree where every check passes is valid.
pub open spec fn spec_validate(s: Seq<Option<Entry>>, j: nat) -> Result<(), SleepError>
    decreases spec_depth(j),
    via spec_validate_decreases
{
    if !(j < s.len() && s[j as int] is Some) {
        Err(SleepError::IncompleteTree)
    } else if spec_depth(j) == 0 {
        Ok(())
    } else {
        let l = spec_left_child(j);
        let r = spec_right_child(j);
        let lv = spec_validate(s, l);
        let rv = spec_validate(s, r);
        if lv is Err {
            lv
        } else if rv is Err {
            rv
        } else if s[j as int]->0.hash@ == combine_hash(s[l as int]->0.hash@, s[r as int]->0.hash@) {
            Ok(())
        } else {
            Err(SleepError::HashMismatch(j as u64))
        }
    }
}

#[via_fn]
proof fn spec_validate_decreases(s: Seq<Option<Entry>>, j: nat) {
    if j < s.len() && s[j as int] is Some && spec_depth(j) != 0 {
        lemma_children_of(j);
    }
}

/// Validation catches corruption: an internal node over two stored
/// leaves whose recorded hash is not the combined hash of theirs is
/// reported as a mismatch at exactly that index, never a pass.
pub proof fn lemma_corruption_detected(s: Seq<Option<Entry>>, j: nat)
    requires
        spec_depth(j) == 1,
        j + 1 < s.len(),
        s[j as int] is Some,
        s[j - 1] is Some,
        s[j as int + 1] is Some,
        s[j as int]->0.hash@ != combine_hash(s[j - 1]->0.hash@, s[j as int + 1]->0.hash@),
    ensures
        spec_validate(s, j) == Err::<(), SleepError>(SleepError::HashMismatch(j as u64)),
{
    lemma2_to64();
    lemma_children_of(j);
    assert(spec_left_child(j) == j - 1 && spec_right_child(j) == j + 1);
    assert(spec_validate(s, (j - 1) as nat) == Ok::<(), SleepError>(()));
    assert(spec_validate(s, (j + 1) as nat) == Ok::<(), SleepError>(()));
}

/// In a well-formed tree the number of stored entries up to slot `n`
/// is the number of leaf slots plus the number of complete internal
/// nodes there.
proof fn lemma_entry_count_upto(s: Seq<Option<Entry>>, n: int)
    requires
        wf_shape(s),
        0 <= n <= s.len(),
    ensures
        present_upto(s, n) == (n + 1) / 2 + internal_complete_upto(s, n),
    decreases n,
{
    if n > 0 {
        lemma_entry_count_upto(s, n - 1);
        if (n - 1) % 2 == 0 {
            lemma2_to64();
            lemma_leaf_depth_zero((n - 1) as nat);
            lemma_span_around((n - 1) as nat);
            assert(node_complete((n - 1) as nat, s.len()));
        }
    }
}

/// Monotonic append accounting: in a well-formed tree the entry count
/// equals the leaf count plus the number of completed internal nodes.
pub proof fn lemma_entry_count(s: Seq<Option<Entry>>)
    requires
        wf_shape(s),
    ensures
        present_upto(s, s.len() as int) == leaf_count(s) + internal_complete_upto(
            s,
            s.len() as int,
        ),
{
    lemma_entry_count_upto(s, s.len() as int);
}

/// Filling slots can only grow the entry count: appends never lose an
/// entry.
pub proof fn lemma_present_count_monotone(s1: Seq<Option<Entry>>, s2: Seq<Option<Entry>>, n: int)
    requires
        forall|j: int| 0 <= j < n ==> ((#[trigger] s1[j]) is Some ==> s2[j] is Some),
    ensures
        present_upto(s1, n) <= present_upto(s2, n),
    decreases n,
{
    if n > 0 {
        lemma_present_count_monotone(s1, s2, n - 1);
    }
}

/// A range of exactly one leaf slot sums to that slot alone.
proof fn lemma_leaf_bytes_single(s: Seq<Option<Entry>>, j: nat)
    ensures
        leaf_bytes(s, j, j + 2) == slot_bytes(s, j),
{
    reveal(leaf_bytes);
    assert(leaf_bytes(s, j + 2, j + 2) == 0);
}

/// Two nodes of the same depth whose spans end at the same leaf are
/// the same node.
proof fn lemma_node_unique(a: nat, b: nat)
    requires
        spec_span_last(a) == spec_span_last(b),
        spec_depth(a) == spec_depth(b),
    ensures
        a == b,
{
    let d = spec_depth(a);
    lemma_span_around(a);
    lemma_span_around(b);
    lemma_pow2_pos(d + 1);
    assert(spec_offset(a) == spec_offset(b)) by (nonlinear_arith)
        requires
            (spec_offset(a) + 1) * pow2(d + 1) == (spec_offset(b) + 1) * pow2(d + 1),
            pow2(d + 1) > 0,
    ;
    lemma_node_index_of(a);
    lemma_node_index_of(b);
}

/// Writing one slot of depth above an internal node's leaves does not
/// disturb the node's recomputed entry: the node and its children all
/// sit strictly below the written depth.
proof fn lemma_update_keeps_combined(
    prev: Seq<Option<Entry>>,
    s: Seq<Option<Entry>>,
    p: nat,
    j: nat,
)
    requires
        s.len() == prev.len(),
        forall|i: int| 0 <= i < s.len() && i != p ==> s[i] == prev[i],
        spec_depth(j) > 0,
        spec_depth(j) < spec_depth(p),
        combined_at(prev, j),
    ensures
        combined_at(s, j),
{
    lemma_children_of(j);
}

/// Writing one odd slot with the leaf total of its own span keeps the
/// whole sequence's byte lengths consistent: leaf slots are even, so
/// no leaf total changes.
proof fn lemma_update_keeps_lengths(prev: Seq<Option<Entry>>, s: Seq<Option<Entry>>, p: nat)
    requires
        lengths_consistent(prev),
        s.len() == prev.len(),
        p < s.len(),
        p % 2 == 1,
        forall|i: int| 0 <= i < s.len() && i != p ==> s[i] == prev[i],
        s[p as int] is Some,
        s[p as int]->0.byte_length as nat == leaf_bytes(
            s,
            spec_span_first(p),
            spec_span_last(p) + 2,
        ),
    ensures
        lengths_consistent(s),
        total_bytes(s) == total_bytes(prev),
{
    assert forall|t: nat| t % 2 == 0 implies #[trigger] slot_bytes(s, t) == slot_bytes(
        prev,
        t,
    ) by {}
    assert forall|j: int|
        0 <= j < s.len() && (#[trigger] s[j]) is Some implies s[j]->0.byte_length as nat
        == leaf_bytes(s, spec_span_first(j as nat), spec_span_last(j as nat) + 2) by {
        if j != p {
            lemma_span_around(j as nat);
            lemma_leaf_bytes_frame(
                s,
                prev,
                spec_span_first(j as nat),
                spec_span_last(j as nat) + 2,
            );
        }
    }
    lemma_leaf_bytes_frame(s, prev, 0, s.len() + 1);
}

/// After writing the parent at `p`, every node whose span ends at the
/// new leaf and whose depth is at most `p`'s carries its recomputed
/// entry: the shallower ones were done before and are untouched, and
/// at `p`'s own depth there is only `p`.
proof fn lemma_step_progress(
    prev: Seq<Option<Entry>>,
    s: Seq<Option<Entry>>,
    p: nat,
    dp: nat,
    leaf: nat,
)
    requires
        s.len() == prev.len(),
        p < s.len(),
        forall|i: int| 0 <= i < s.len() && i != p ==> s[i] == prev[i],
        spec_depth(p) == dp,
        dp >= 1,
        spec_span_last(p) == leaf,
        combined_at(s, p),
        forall|j: int|
            0 <= j < prev.len() && j % 2 == 1 && #[trigger] spec_span_last(j as nat) == leaf
                && spec_depth(j as nat) <= dp - 1 ==> combined_at(prev, j as nat),
    ensures
        forall|j: int|
            0 <= j < s.len() && j % 2 == 1 && #[trigger] spec_span_last(j as nat) == leaf
                && spec_depth(j as nat) <= dp ==> combined_at(s, j as nat),
{
    assert forall|j: int|
        0 <= j < s.len() && j % 2 == 1 && #[trigger] spec_span_last(j as nat) == leaf
            && spec_depth(j as nat) <= dp implies combined_at(s, j as nat) by {
        assert(spec_depth(j as nat) >= 1);
        if spec_depth(j as nat) < dp {
            lemma_update_keeps_combined(prev, s, p, j as nat);
        } else {
            lemma_node_unique(j as nat, p);
        }
    }
}

/// Writing an odd slot leaves every leaf byte total over an
/// even-aligned range unchanged.
proof fn lemma_odd_write_frames(
    prev: Seq<Option<Entry>>,
    s: Seq<Option<Entry>>,
    p: nat,
    lo: nat,
    hi: nat,
)
    requires
        prev.len() == s.len(),
        p % 2 == 1,
        forall|i: int| 0 <= i < s.len() && i != p ==> s[i] == prev[i],
        lo % 2 == 0,
    ensures
        leaf_bytes(s, lo, hi) == leaf_bytes(prev, lo, hi),
{
    assert forall|t: nat| lo <= t < hi && (t - lo) % 2 == 0 implies #[trigger] slot_bytes(s, t)
        == slot_bytes(prev, t) by {
        assert(t % 2 == 0);
    }
    lemma_leaf_bytes_frame(s, prev, lo, hi);
}

/// The sequence state after one completion step: writing the parent at
/// `p` (one depth up, span still ending at the new leaf) preserves the
/// stored leaves, the untouched slots, and the walk's bookkeeping, now
/// one depth higher.
proof fn lemma_step_state(
    prev: Seq<Option<Entry>>,
    s: Seq<Option<Entry>>,
    old_s: Seq<Option<Entry>>,
    p: nat,
    d: nat,
    leaf: nat,
)
    requires
        wf_shape(old_s),
        old_s.len() % 2 == 1,
        leaf == old_s.len() + 1,
        s.len() == leaf + 1,
        prev.len() == s.len(),
        p < s.len(),
        forall|i: int| 0 <= i < s.len() && i != p ==> s[i] == prev[i],
        spec_depth(p) == d + 1,
        spec_span_last(p) == leaf,
        combined_at(s, p),
        forall|j: int| 0 <= j < old_s.len() && old_s[j] is Some ==> prev[j] == old_s[j],
        forall|j: int|
            0 <= j < prev.len() && j % 2 == 1 && #[trigger] spec_span_last(j as nat) == leaf
                && spec_depth(j as nat) <= d ==> combined_at(prev, j as nat),
        forall|j: int|
            0 <= j < prev.len() && j % 2 == 1 && #[trigger] spec_span_last(j as nat) == leaf
                && spec_depth(j as nat) > d ==> prev[j] is None,
        forall|j: int|
            0 <= j < prev.len() && j % 2 == 1 && !node_complete(j as nat, prev.len()) ==> prev[
                j
            ] is None,
    ensures
        forall|j: int| 0 <= j < old_s.len() && old_s[j] is Some ==> s[j] == old_s[j],
        s[leaf as int] == prev[leaf as int],
        forall|j: int|
            0 <= j < s.len() && j % 2 == 1 && #[trigger] spec_span_last(j as nat) == leaf
                && spec_depth(j as nat) <= d + 1 ==> combined_at(s, j as nat),
        forall|j: int|
            0 <= j < s.len() && j % 2 == 1 && #[trigger] spec_span_last(j as nat) == leaf
                && spec_depth(j as nat) > d + 1 ==> s[j] is None,
        forall|j: int|
            0 <= j < s.len() && j % 2 == 1 && !node_complete(j as nat, s.len()) ==> s[j] is None,
{
    assert(p % 2 == 1);
    assert(node_complete(p, s.len()));
    lemma_step_progress(prev, s, p, d + 1, leaf);
    assert forall|j: int|
        0 <= j < s.len() && j % 2 == 1 && #[trigger] spec_span_last(j as nat) == leaf
            && spec_depth(j as nat) > d + 1 implies s[j] is None by {
        assert(j != p);
        assert(prev[j] is None);
    }
    assert forall|j: int|
        0 <= j < s.len() && j % 2 == 1 && !node_complete(j as nat, s.len()) implies s[
        j
    ] is None by {
        assert(j != p);
    }
    assert forall|j: int| 0 <= j < old_s.len() && old_s[j] is Some implies s[j] == old_s[j] by {
        if j == p {
            assert(!node_complete(p, old_s.len()));
            assert(old_s[j] is None);
        }
    }
}

/// When the completion walk stops (the last node written sits at an
/// even offset), the slots filled so far are exactly the complete
/// subtrees, and every newly completed internal node carries its
/// recomputed entry.
proof fn lemma_walk_finish(
    old_s: Seq<Option<Entry>>,
    s: Seq<Option<Entry>>,
    leaf_idx: nat,
    cur: nat,
    d: nat,
)
    requires
        wf_shape(old_s),
        old_s.len() % 2 == 1,
        leaf_idx == old_s.len() + 1,
        s.len() == old_s.len() + 2,
        s[leaf_idx as int] is Some,
        forall|j: int| 0 <= j < old_s.len() && old_s[j] is Some ==> s[j] == old_s[j],
        spec_offset(cur) % 2 == 0,
        spec_depth(cur) == d,
        spec_span_last(cur) == leaf_idx,
        forall|j: int|
            0 <= j < s.len() && j % 2 == 1 && #[trigger] spec_span_last(j as nat) == leaf_idx
                && spec_depth(j as nat) <= d ==> combined_at(s, j as nat),
        forall|j: int|
            0 <= j < s.len() && j % 2 == 1 && !node_complete(j as nat, s.len()) ==> s[j] is None,
    ensures
        wf_shape(s),
        forall|j: int|
            0 <= j < s.len() && j % 2 == 1 && #[trigger] node_complete(j as nat, s.len())
                && !node_complete(j as nat, old_s.len()) ==> combined_at(s, j as nat),
{
    lemma2_to64();
    let ol = old_s.len();
    let nl = s.len();
    // nothing deeper than the stop point ends at the new leaf
    assert forall|j: int|
        0 <= j < nl && j % 2 == 1 && #[trigger] spec_span_last(j as nat) == leaf_idx implies
        spec_depth(j as nat) <= d by {
        lemma_chain_stop(cur, j as nat);
    }
    // a slot is filled exactly when its subtree is complete
    assert forall|j: int| 0 <= j < nl implies ((#[trigger] s[j]) is Some <==> node_complete(
        j as nat,
        nl,
    )) by {
        lemma_span_around(j as nat);
        if j % 2 == 0 {
            lemma_leaf_depth_zero(j as nat);
            if j < ol {
                assert(node_complete(j as nat, ol));
                assert(old_s[j] is Some);
            }
        } else {
            if node_complete(j as nat, nl) {
                if node_complete(j as nat, ol) {
                    assert(old_s[j] is Some);
                } else {
                    assert(spec_span_last(j as nat) == leaf_idx);
                    assert(combined_at(s, j as nat));
                }
            }
        }
    }
    // every newly completed internal node got its combined entry
    assert forall|j: int|
        0 <= j < nl && j % 2 == 1 && #[trigger] node_complete(j as nat, nl) && !node_complete(
            j as nat,
            ol,
        ) implies combined_at(s, j as nat) by {
        lemma_span_around(j as nat);
        assert(spec_span_last(j as nat) == leaf_idx);
    }
}

/// One step of the completion walk: when the node at `cur` sits at an
/// odd offset, its parent is one depth up at `cur - 2^d`, its sibling
/// (the parent's left child) two blocks down, and the parent's span
/// ends at the same leaf as `cur`'s.
proof fn lemma_step_geometry(cur: nat, d: nat, o: nat, leaf: nat)
    requires
        cur + 1 == (2 * o + 1) * pow2(d),
        spec_depth(cur) == d,
        spec_offset(cur) == o,
        o % 2 == 1,
        cur + pow2(d) == leaf + 1,
        cur + 1 <= 0x10000000000000000,
    ensures
        pow2(d + 1) == 2 * pow2(d),
        pow2(d) >= 1,
        cur + 1 >= 3 * pow2(d),
        d <= 62,
        (cur - pow2(d)) + 1 == (2 * (o / 2) + 1) * pow2(d + 1),
        spec_depth((cur - pow2(d)) as nat) == d + 1,
        spec_offset((cur - pow2(d)) as nat) == o / 2,
        spec_left_child((cur - pow2(d)) as nat) == (cur - 2 * pow2(d)) as nat,
        spec_right_child((cur - pow2(d)) as nat) == cur,
        spec_span_last((cur - pow2(d)) as nat) == leaf,
        spec_span_first((cur - pow2(d)) as nat) == spec_span_first((cur - 2 * pow2(d)) as nat),
        spec_span_last((cur - 2 * pow2(d)) as nat) + 2 == spec_span_first(cur),
        spec_span_last((cur - 2 * pow2(d)) as nat) == (cur - pow2(d)) as nat - 1,
        spec_span_first((cur - pow2(d)) as nat) % 2 == 0,
        (cur - pow2(d)) + pow2(d + 1) == leaf + 1,
{
    lemma_pow2_unfold(d + 1);
    lemma_pow2_pos(d);
    assert((2 * o + 1) * pow2(d) >= 3 * pow2(d) && 2 * ((o - 1) / 2) + 1 == o && (2 * o + 1)
        * pow2(d) - 2 * pow2(d) == (2 * ((o - 1) / 2) + 1) * pow2(d + 1) - pow2(d))
        by (nonlinear_arith)
        requires
            o % 2 == 1,
            pow2(d + 1) == 2 * pow2(d),
    ;
    if d >= 63 {
        lemma2_to64();
        lemma2_to64_rest();
        if d > 63 {
            lemma_pow2_strictly_increases(63, d);
        }
        assert(3 * pow2(d) >= 3 * 0x8000000000000000);
    }
    let p = (cur - pow2(d)) as nat;
    crate::flat_tree::lemma_node_index_inverse(d + 1, o / 2);
    assert(crate::flat_tree::node_index(d + 1, o / 2) == p);
    lemma_children_of(p);
    lemma_children_span(p);
    lemma_span_around(p);
    lemma_span_around((cur - 2 * pow2(d)) as nat);
    lemma_span_around(cur);
}

/// Once the newest node's offset is even, no deeper node's span can
/// end at the same leaf: the eager completion walk may stop.
proof fn lemma_chain_stop(cur: nat, j: nat)
    requires
        spec_offset(cur) % 2 == 0,
        spec_span_last(j) == spec_span_last(cur),
    ensures
        spec_depth(j) <= spec_depth(cur),
{
    let d = spec_depth(cur);
    let o = spec_offset(cur);
    let d2 = spec_depth(j);
    let o2 = spec_offset(j);
    if d2 > d {
        lemma_span_around(cur);
        lemma_span_around(j);
        lemma_pow2_adds(d + 1, (d2 - d) as nat);
        lemma_pow2_pos(d + 1);
        lemma_pow2_unfold((d2 - d) as nat);
        assert((o2 + 1) * pow2(d2 + 1) == ((o2 + 1) * pow2((d2 - d) as nat)) * pow2(d + 1))
            by (nonlinear_arith)
            requires
                pow2(d2 + 1) == pow2(d + 1) * pow2((d2 - d) as nat),
        ;
        assert((o2 + 1) * pow2((d2 - d) as nat) == o + 1) by (nonlinear_arith)
            requires
                ((o2 + 1) * pow2((d2 - d) as nat)) * pow2(d + 1) == (o + 1) * pow2(d + 1),
                pow2(d + 1) > 0,
        ;
        assert((o2 + 1) * pow2((d2 - d) as nat) == 2 * ((o2 + 1) * pow2((d2 - d - 1) as nat)))
            by (nonlinear_arith)
            requires
                pow2((d2 - d) as nat) == 2 * pow2((d2 - d - 1) as nat),
        ;
    }
}

impl Tree {
    /// An empty tree: no leaves, no nodes.
    pub fn new() -> (t: Tree)
        ensures
            t@ == Seq::<Option<Entry>>::empty(),
            wf_shape(t@),
            lengths_consistent(t@),
            total_bytes(t@) == 0,
    {
        let t = Tree { nodes: Vec::new() };
        proof {
            assert(t@ =~= Seq::<Option<Entry>>::empty());
            reveal(leaf_bytes);
        }
        t
    }

    /// Reattach to an already stored slot sequence, as read back from a
    /// file body: filled slots carry entries, unwritten slots are None.
    pub fn from_entries(nodes: Vec<Option<Entry>>) -> (t: Tree)
        ensures
            t@ == nodes@,
    {
        Tree { nodes }
    }

    /// The number of slots, filled or not.
    pub fn len(&self) -> (n: usize)
        ensures
            n == self@.len(),
    {
        self.nodes.len()
    }

    /// The number of leaves.
    pub fn leaves(&self) -> (n: usize)
        ensures
            n as nat == leaf_count(self@),
    {
        self.nodes.len() / 2 + self.nodes.len() % 2
    }

    /// The entry stored for node `index`, if that node exists.
    pub fn get(&self, index: u64) -> (r: Option<Entry>)
        ensures
            r == (if (index as nat) < self@.len() {
                self@[index as int]
            } else {
                None::<Entry>
            }),
    {
        if index < self.nodes.len() as u64 {
            self.nodes[index as usize]
        } else {
            None
        }
    }

    /// The number of entries stored so far.
    pub fn entry_count(&self) -> (n: usize)
        ensures
            n as nat == present_upto(self@, self@.len() as int),
    {
        let mut n: usize = 0;
        let mut i: usize = 0;
        while i < self.nodes.len()
            invariant
                0 <= i <= self@.len(),
                n as nat == present_upto(self@, i as int),
                n <= i,
            decreases self@.len() - i,
        {
            if self.nodes[i].is_some() {
                n = n + 1;
            }
            i = i + 1;
        }
        n
    }

    /// Append one leaf entry, then eagerly fill in every parent whose
    /// two children are now both present, walking up from the new leaf
    /// and stopping at the first ancestor whose right subtree is still
    /// missing. The slot count grows by two (one new internal slot,
    /// one leaf slot), or to one for the first leaf; it never shrinks.
    #[verifier::loop_isolation(false)]
    #[verifier::rlimit(100)]
    pub fn append_leaf(&mut self, hash: [u8; 32], byte_length: u64)
        requires
            wf_shape(old(self)@),
            lengths_consistent(old(self)@),
            total_bytes(old(self)@) + byte_length <= u64::MAX,
            old(self)@.len() + 2 <= usize::MAX,
        ensures
            final(self)@.len() == (if old(self)@.len() == 0 {
                1nat
            } else {
                old(self)@.len() + 2
            }),
            wf_shape(final(self)@),
            lengths_consistent(final(self)@),
            leaf_count(final(self)@) == leaf_count(old(self)@) + 1,
            total_bytes(final(self)@) == total_bytes(old(self)@) + byte_length,
            final(self)@[final(self)@.len() - 1] == Some(Entry { hash, byte_length }),
            forall|j: int|
                0 <= j < old(self)@.len() && old(self)@[j] is Some ==> final(self)@[j] == old(
                    self,
                )@[j],
            forall|j: int|
                0 <= j < final(self)@.len() && j % 2 == 1 && !node_complete(
                    j as nat,
                    final(self)@.len(),
                ) ==> final(self)@[j] is None,
            forall|j: int|
                0 <= j < final(self)@.len() && j % 2 == 1 && #[trigger] node_complete(
                    j as nat,
                    final(self)@.len(),
                ) && !node_complete(j as nat, old(self)@.len()) ==> combined_at(
                    final(self)@,
                    j as nat,
                ),
    {
        proof {
            lemma2_to64();
        }
        if self.nodes.len() == 0 {
            self.nodes.push(Some(Entry { hash, byte_length }));
            proof {
                lemma_leaf_depth_zero(0);
                lemma_span_around(0);
                lemma_leaf_bytes_single(self@, 0);
                assert(total_bytes(old(self)@) == 0) by {
                    reveal(leaf_bytes);
                }
                assert forall|j: int|
                    0 <= j < self@.len() && (#[trigger] self@[j]) is Some implies self@[
                    j
                ]->0.byte_length as nat == leaf_bytes(
                    self@,
                    spec_span_first(j as nat),
                    spec_span_last(j as nat) + 2,
                ) by {
                    lemma_leaf_depth_zero(j as nat);
                    lemma_span_around(j as nat);
                }
            }
            return;
        }
        let ol = self.nodes.len();
        let nl = ol + 2;
        let leaf_idx = ol + 1;
        self.nodes.push(None);
        self.nodes.push(Some(Entry { hash, byte_length }));
        proof {
            lemma_leaf_depth_zero(leaf_idx as nat);
            lemma_span_around(leaf_idx as nat);
            // every odd slot that should be empty is empty, and nothing deep is filled yet
            assert forall|j: int|
                0 <= j < nl && j % 2 == 1 && (!node_complete(j as nat, nl as nat)
                    || #[trigger] spec_span_last(j as nat) == leaf_idx as nat) implies self@[
                j
            ] is None by {
                lemma_span_around(j as nat);
                if j < ol {
                    assert(!node_complete(j as nat, ol as nat));
                    assert(old(self)@[j] is None);
                }
            }
            // byte lengths of old nodes are framed into the extended sequence
            assert forall|j: int|
                0 <= j < self@.len() && (#[trigger] self@[j]) is Some implies self@[
                j
            ]->0.byte_length as nat == leaf_bytes(
                self@,
                spec_span_first(j as nat),
                spec_span_last(j as nat) + 2,
            ) by {
                lemma_span_around(j as nat);
                if j < ol {
                    assert(node_complete(j as nat, ol as nat));
                    lemma_leaf_bytes_frame(
                        self@,
                        old(self)@,
                        spec_span_first(j as nat),
                        spec_span_last(j as nat) + 2,
                    );
                } else {
                    assert(j == leaf_idx);
                    lemma_leaf_depth_zero(j as nat);
                    lemma_leaf_bytes_single(self@, j as nat);
                }
            }
            // the running total grows by exactly the new leaf's length
            lemma_leaf_bytes_split(self@, 0, (ol + 1) as nat, (nl + 1) as nat);
            lemma_leaf_bytes_frame(self@, old(self)@, 0, (ol + 1) as nat);
            lemma_leaf_bytes_single(self@, leaf_idx as nat);
        }
        self.complete_new_parents(leaf_idx, Ghost(old(self)@));
    }

    /// Walk upward from the leaf just placed at `leaf_idx`, filling in
    /// each parent as soon as its right child exists, and stop at the
    /// first ancestor whose subtree still reaches past the new leaf.
    #[verifier::rlimit(100)]
    fn complete_new_parents(&mut self, leaf_idx: usize, old_s: Ghost<Seq<Option<Entry>>>)
        requires
            wf_shape(old_s@),
            old_s@.len() % 2 == 1,
            leaf_idx == old_s@.len() + 1,
            total_bytes(old(self)@) <= u64::MAX,
            old(self)@.len() == old_s@.len() + 2,
            old(self)@[leaf_idx as int] is Some,
            forall|j: int| 0 <= j < old_s@.len() && old_s@[j] is Some ==> old(self)@[j] == old_s@[j],
            forall|j: int|
                0 <= j < old(self)@.len() && j % 2 == 1 && #[trigger] spec_span_last(j as nat)
                    == leaf_idx as nat ==> old(self)@[j] is None,
            forall|j: int|
                0 <= j < old(self)@.len() && j % 2 == 1 && !node_complete(
                    j as nat,
                    old(self)@.len(),
                ) ==> old(self)@[j] is None,
            lengths_consistent(old(self)@),
        ensures
            final(self)@.len() == old(self)@.len(),
            wf_shape(final(self)@),
            lengths_consistent(final(self)@),
            total_bytes(final(self)@) == total_bytes(old(self)@),
            final(self)@[leaf_idx as int] == old(self)@[leaf_idx as int],
            forall|j: int|
                0 <= j < old_s@.len() && old_s@[j] is Some ==> final(self)@[j] == old_s@[j],
            forall|j: int|
                0 <= j < final(self)@.len() && j % 2 == 1 && !node_complete(
                    j as nat,
                    final(self)@.len(),
                ) ==> final(self)@[j] is None,
            forall|j: int|
                0 <= j < final(self)@.len() && j % 2 == 1 && #[trigger] node_complete(
                    j as nat,
                    final(self)@.len(),
                ) && !node_complete(j as nat, old_s@.len()) ==> combined_at(
                    final(self)@,
                    j as nat,
                ),
    {
        let ghost ol = old_s@.len();
        let nl = leaf_idx + 1;
        proof {
            lemma2_to64();
            lemma_leaf_depth_zero(leaf_idx as nat);
            lemma_span_around(leaf_idx as nat);
        }
        let mut cur: usize = leaf_idx;
        let mut d: u32 = 0;
        let mut o: usize = leaf_idx / 2;
        let mut p2: usize = 1;
        proof {
            assert(2 * (leaf_idx / 2) == leaf_idx);
            assert(spec_offset(cur as nat) == o as nat);
        }
        while o % 2 == 1
            invariant
                wf_shape(old_s@),
                ol == old_s@.len(),
                ol % 2 == 1,
                total_bytes(old(self)@) <= u64::MAX,
                self@.len() == nl,
                nl as nat == ol + 2,
                leaf_idx as nat == ol + 1,
                old(self)@.len() == ol + 2,
                old(self)@[leaf_idx as int] is Some,
                self@[leaf_idx as int] == old(self)@[leaf_idx as int],
                forall|j: int| 0 <= j < ol && old_s@[j] is Some ==> self@[j] == old_s@[j],
                cur as nat + 1 == (2 * (o as nat) + 1) * pow2(d as nat),
                p2 as nat == pow2(d as nat),
                spec_depth(cur as nat) == d as nat,
                spec_offset(cur as nat) == o as nat,
                cur as nat + pow2(d as nat) == leaf_idx as nat + 1,
                cur <= leaf_idx,
                self@[cur as int] is Some,
                forall|j: int|
                    0 <= j < nl && j % 2 == 1 && #[trigger] spec_span_last(j as nat)
                        == leaf_idx as nat && spec_depth(j as nat) <= d as nat ==> combined_at(
                        self@,
                        j as nat,
                    ),
                forall|j: int|
                    0 <= j < nl && j % 2 == 1 && #[trigger] spec_span_last(j as nat)
                        == leaf_idx as nat && spec_depth(j as nat) > d as nat ==> self@[j] is None,
                forall|j: int|
                    0 <= j < nl && j % 2 == 1 && !node_complete(j as nat, nl as nat)
                        ==> self@[j] is None,
                lengths_consistent(self@),
                total_bytes(self@) == total_bytes(old(self)@),
            decreases o,
        {
            let step = self.walk_step(cur, d, o, p2, leaf_idx, old_s);
            cur = step.0;
            d = step.1;
            o = step.2;
            p2 = step.3;
        }
        proof {
            lemma_span_around(cur as nat);
            lemma_walk_finish(old_s@, self@, leaf_idx as nat, cur as nat, d as nat);
        }
    }

    /// One step of the completion walk: the node at `cur` sits at an
    /// odd offset, so its parent's right child is `cur` itself and the
    /// parent can be filled in; hand back the parent as the new
    /// position, one depth up.
    #[verifier::rlimit(100)]
    fn walk_step(
        &mut self,
        cur: usize,
        d: u32,
        o: usize,
        p2: usize,
        leaf_idx: usize,
        old_s: Ghost<Seq<Option<Entry>>>,
    ) -> (step: (usize, u32, usize, usize))
        requires
            wf_shape(old_s@),
            old_s@.len() % 2 == 1,
            leaf_idx == old_s@.len() + 1,
            total_bytes(old(self)@) <= u64::MAX,
            old(self)@.len() == old_s@.len() + 2,
            old(self)@[leaf_idx as int] is Some,
            forall|j: int|
                0 <= j < old_s@.len() && old_s@[j] is Some ==> old(self)@[j] == old_s@[j],
            o % 2 == 1,
            cur as nat + 1 == (2 * (o as nat) + 1) * pow2(d as nat),
            p2 as nat == pow2(d as nat),
            spec_depth(cur as nat) == d as nat,
            spec_offset(cur as nat) == o as nat,
            cur as nat + pow2(d as nat) == leaf_idx as nat + 1,
            cur <= leaf_idx,
            old(self)@[cur as int] is Some,
            forall|j: int|
                0 <= j < old(self)@.len() && j % 2 == 1 && #[trigger] spec_span_last(j as nat)
                    == leaf_idx as nat && spec_depth(j as nat) <= d as nat ==> combined_at(
                    old(self)@,
                    j as nat,
                ),
            forall|j: int|
                0 <= j < old(self)@.len() && j % 2 == 1 && #[trigger] spec_span_last(j as nat)
                    == leaf_idx as nat && spec_depth(j as nat) > d as nat ==> old(self)@[j] is None,
            forall|j: int|
                0 <= j < old(self)@.len() && j % 2 == 1 && !node_complete(
                    j as nat,
                    old(self)@.len(),
                ) ==> old(self)@[j] is None,
            lengths_consistent(old(self)@),
        ensures
            final(self)@.len() == old(self)@.len(),
            final(self)@[leaf_idx as int] == old(self)@[leaf_idx as int],
            forall|j: int|
                0 <= j < old_s@.len() && old_s@[j] is Some ==> final(self)@[j] == old_s@[j],
            step.2 == o / 2,
            step.1 == d + 1,
            step.0 as nat + 1 == (2 * (step.2 as nat) + 1) * pow2(step.1 as nat),
            step.3 as nat == pow2(step.1 as nat),
            spec_depth(step.0 as nat) == step.1 as nat,
            spec_offset(step.0 as nat) == step.2 as nat,
            step.0 as nat + pow2(step.1 as nat) == leaf_idx as nat + 1,
            step.0 <= leaf_idx,
            final(self)@[step.0 as int] is Some,
            forall|j: int|
                0 <= j < final(self)@.len() && j % 2 == 1 && #[trigger] spec_span_last(j as nat)
                    == leaf_idx as nat && spec_depth(j as nat) <= step.1 as nat ==> combined_at(
                    final(self)@,
                    j as nat,
                ),
            forall|j: int|
                0 <= j < final(self)@.len() && j % 2 == 1 && #[trigger] spec_span_last(j as nat)
                    == leaf_idx as nat && spec_depth(j as nat) > step.1 as nat
                    ==> final(self)@[j] is None,
            forall|j: int|
                0 <= j < final(self)@.len() && j % 2 == 1 && !node_complete(
                    j as nat,
                    final(self)@.len(),
                ) ==> final(self)@[j] is None,
            lengths_consistent(final(self)@),
            total_bytes(final(self)@) == total_bytes(old(self)@),
    {
        let ghost ol = old_s@.len();
        proof {
            lemma_step_geometry(cur as nat, d as nat, o as nat, leaf_idx as nat);
        }
        let p = cur - p2;
        let l = cur - 2 * p2;
        proof {
            assert(spec_span_last(l as nat) < ol);
            assert(node_complete(l as nat, ol));
            assert(old_s@[l as int] is Some);
            assert(self@[l as int] is Some);
            assert(!node_complete(p as nat, ol));
            if (p as nat) < ol {
                assert(old_s@[p as int] is None);
            }
        }
        let le = self.nodes[l].unwrap();
        let ce = self.nodes[cur].unwrap();
        proof {
            // the two byte lengths are disjoint leaf totals, so their sum fits
            lemma_leaf_bytes_split(
                self@,
                spec_span_first(p as nat),
                spec_span_first(cur as nat),
                spec_span_last(p as nat) + 2,
            );
            lemma_leaf_bytes_within(
                self@,
                spec_span_first(p as nat),
                spec_span_last(p as nat) + 2,
                0,
                self@.len() + 1,
            );
            assert(le.byte_length as nat + ce.byte_length as nat <= u64::MAX);
        }
        let parent_hash = combine(&le.hash, &ce.hash);
        let parent_entry = Entry { hash: parent_hash, byte_length: le.byte_length
            + ce.byte_length };
        let ghost prev = self@;
        self.nodes.set(p, Some(parent_entry));
        proof {
            // the new slot holds the leaf total of its own span
            assert(p as nat % 2 == 1);
            lemma_odd_write_frames(
                prev,
                self@,
                p as nat,
                spec_span_first(p as nat),
                spec_span_last(p as nat) + 2,
            );
            lemma_update_keeps_lengths(prev, self@, p as nat);
            assert(combined_at(self@, p as nat));
            lemma_step_state(prev, self@, old_s@, p as nat, d as nat, leaf_idx as nat);
        }
        (p, d + 1, o / 2, 2 * p2)
    }

    /// Recompute, bottom up from the leaves spanned by `index`, each
    /// internal node's hash from its two children, and compare it with
    /// the stored entry: the first divergence is a mismatch at that
    /// node, a missing node is an incomplete tree. The result is a
    /// function of the stored entries alone, so repeating the call on
    /// an unmodified tree yields the same answer.
    pub fn validate_subtree(&self, index: u64) -> (r: Result<(), SleepError>)
        ensures
            r == spec_validate(self@, index as nat),
    {
        self.validate_node(index)
    }

    /// The recursive worker behind subtree validation.
    fn validate_node(&self, index: u64) -> (r: Result<(), SleepError>)
        ensures
            r == spec_validate(self@, index as nat),
        decreases spec_depth(index as nat),
    {
        if index >= self.nodes.len() as u64 {
            return Err(SleepError::IncompleteTree);
        }
        let stored = match self.nodes[index as usize] {
            Some(e) => e,
            None => {
                return Err(SleepError::IncompleteTree);
            },
        };
        let d = crate::flat_tree::depth(index);
        if d == 0 {
            return Ok(());
        }
        proof {
            crate::flat_tree::lemma_depth_bound(index as nat);
            lemma_children_of(index as nat);
        }
        let p2h = crate::flat_tree::pow2_u64(d - 1);
        let left = index - p2h;
        if index > u64::MAX - p2h {
            // the right child's index cannot exist, so after the left
            // subtree the walk must stop short
            return match self.validate_node(left) {
                Err(e) => Err(e),
                Ok(()) => Err(SleepError::IncompleteTree),
            };
        }
        let right = index + p2h;
        match self.validate_node(left) {
            Err(e) => {
                return Err(e);
            },
            Ok(()) => {},
        }
        match self.validate_node(right) {
            Err(e) => {
                return Err(e);
            },
            Ok(()) => {},
        }
        let le = self.nodes[left as usize].unwrap();
        let re = self.nodes[right as usize].unwrap();
        let recomputed = combine(&le.hash, &re.hash);
        if hashes_equal(&stored.hash, &recomputed) {
            Ok(())
        } else {
            Err(SleepError::HashMismatch(index))
        }
    }
}

/// Compare two 32-byte hashes for equality.
fn hashes_equal(a: &[u8; 32], b: &[u8; 32]) -> (eq: bool)
    ensures
        eq == (a@ == b@),
{
    let mut i: usize = 0;
    while i < 32
        invariant
            0 <= i <= 32,
            forall|t: int| 0 <= t < i ==> a@[t] == b@[t],
        decreases 32 - i,
    {
        if a[i] != b[i] {
            return false;
        }
        i = i + 1;
    }
    proof {
        assert(a@ =~= b@);
    }
    true
}

/// Whether `n` is a power of two: exactly these leaf counts are
/// spanned by one single root node.
pub open spec fn is_power_of_two(n: nat) -> bool
    decreases n,
{
    if n == 0 {
        false
    } else if n == 1 {
        true
    } else {
        n % 2 == 0 && is_power_of_two(n / 2)
    }
}

/// The greatest power of two at most `n`: how many leaves the leftmost
/// maximal complete subtree over `n` leaves covers.
pub open spec fn greatest_power_le(n: nat) -> nat
    recommends
        n >= 1,
    decreases n,
{
    if n <= 1 {
        1
    } else {
        2 * greatest_power_le(n / 2)
    }
}

proof fn lemma_greatest_power_le(n: nat)
    requires
        n >= 1,
    ensures
        1 <= greatest_power_le(n) <= n,
        is_power_of_two(greatest_power_le(n)),
    decreases n,
{
    if n > 1 {
        lemma_greatest_power_le(n / 2);
    }
}

/// A power of two `p` with `p <= n < 2 * p` is the greatest power of
/// two at most `n`.
proof fn lemma_greatest_power_char(n: nat, p: nat)
    requires
        n >= 1,
        is_power_of_two(p),
        p <= n < 2 * p,
    ensures
        greatest_power_le(n) == p,
    decreases n,
{
    if n <= 1 {
        assert(p != 0);
    } else {
        assert(p != 1);
        lemma_greatest_power_char(n / 2, p / 2);
    }
}

/// The roots of the maximal complete subtrees over `n` leaves whose
/// leftmost leaf is leaf number `base`, enumerated left to right: the
/// largest power-of-two block first, then the rest. A block of `p`
/// leaves starting at leaf number `base` has its root at flat index
/// `2 * base + p - 1`.
pub open spec fn spec_roots(n: nat, base: nat) -> Seq<nat>
    decreases n,
    via spec_roots_decreases
{
    if n == 0 {
        Seq::empty()
    } else {
        let p = greatest_power_le(n);
        seq![(2 * base + p - 1) as nat] + spec_roots((n - p) as nat, base + p)
    }
}

#[via_fn]
proof fn spec_roots_decreases(n: nat, base: nat) {
    if n > 0 {
        lemma_greatest_power_le(n);
    }
}

/// For a power-of-two leaf count the forest of maximal subtree roots
/// collapses to the one single spanning root.
pub proof fn lemma_single_root_forest(n: nat)
    requires
        n >= 1,
        is_power_of_two(n),
    ensures
        spec_roots(n, 0) == seq![(n - 1) as nat],
{
    lemma_greatest_power_char(n, n);
    assert(spec_roots((n - n) as nat, 0 + n) =~= Seq::<nat>::empty());
    assert(spec_roots(n, 0) =~= seq![(n - 1) as nat]);
}

/// The single node whose subtree spans exactly the leaves `0 .. n`, if
/// one exists: only a power-of-two leaf count has one, at flat index
/// `n - 1`; any other count has a forest of several roots instead.
pub fn root_for_leaf_count(n: u64) -> (r: Result<u64, SleepError>)
    ensures
        match r {
            Ok(i) => {
                &&& is_power_of_two(n as nat)
                &&& i as nat == n as nat - 1
                &&& spec_span_first(i as nat) == 0
                &&& spec_span_last(i as nat) == 2 * (n as nat) - 2
            },
            Err(e) => e == SleepError::NoSingleRoot && !is_power_of_two(n as nat),
        },
{
    if n == 0 {
        return Err(SleepError::NoSingleRoot);
    }
    proof {
        lemma2_to64();
    }
    let mut m = n;
    let ghost mut dd: nat = 0;
    while m % 2 == 0 && m > 1
        invariant
            m >= 1,
            n as nat == m as nat * pow2(dd),
            is_power_of_two(n as nat) == is_power_of_two(m as nat),
        decreases m,
    {
        proof {
            lemma_pow2_unfold(dd + 1);
            assert((m as nat / 2) * pow2(dd + 1) == m as nat * pow2(dd)) by (nonlinear_arith)
                requires
                    m as nat % 2 == 0,
                    pow2(dd + 1) == 2 * pow2(dd),
            ;
        }
        m = m / 2;
        proof {
            dd = dd + 1;
        }
    }
    if m == 1 {
        proof {
            crate::flat_tree::lemma_node_index_inverse(dd, 0);
            lemma_pow2_unfold(dd + 1);
            lemma_span_around((n - 1) as nat);
            assert(crate::flat_tree::node_index(dd, 0) == n as nat - 1);
        }
        Ok(n - 1)
    } else {
        Err(SleepError::NoSingleRoot)
    }
}

/// The roots of the maximal complete subtrees over the first `n`
/// leaves, left to right: the logical root set of an in-progress tree
/// whose leaf count is not a power of two.
#[verifier::loop_isolation(false)]
pub fn full_roots(n: u64) -> (r: Vec<u64>)
    requires
        n <= u64::MAX / 2,
    ensures
        r@.map_values(|x: u64| x as nat) == spec_roots(n as nat, 0),
{
    let mut out: Vec<u64> = Vec::new();
    let mut base: u64 = 0;
    let mut rem: u64 = n;
    proof {
        assert(out@.map_values(|x: u64| x as nat) =~= Seq::<nat>::empty());
    }
    while rem > 0
        invariant
            base + rem == n,
            spec_roots(n as nat, 0) == out@.map_values(|x: u64| x as nat) + spec_roots(
                rem as nat,
                base as nat,
            ),
        decreases rem,
    {
        let mut p: u64 = 1;
        while 2 * p <= rem
            invariant
                1 <= p <= rem,
                is_power_of_two(p as nat),
            decreases rem - p,
        {
            p = 2 * p;
        }
        proof {
            lemma_greatest_power_char(rem as nat, p as nat);
        }
        let ghost before = out@;
        out.push(2 * base + p - 1);
        base = base + p;
        rem = rem - p;
        proof {
            assert(out@.map_values(|x: u64| x as nat) =~= before.map_values(|x: u64| x as nat)
                + seq![(2 * (n - rem - p) as nat + p as nat - 1) as nat]);
            assert(spec_roots(n as nat, 0) =~= out@.map_values(|x: u64| x as nat) + spec_roots(
                rem as nat,
                base as nat,
            ));
        }
    }
    proof {
        assert(spec_roots(n as nat, 0) =~= out@.map_values(|x: u64| x as nat));
    }
    out
}

} // verus!
