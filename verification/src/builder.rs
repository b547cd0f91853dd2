use vstd::prelude::*;

use vstd::multiset::Multiset;

use crate::bow::{lemma_sum64_nonneg, lemma_sum64_take, sum64};
use crate::desc::{desc_eq, hamming, spec_hamming, Desc};
use crate::rng::{gen_index, new_rng, weighted_new, weighted_sample};
use crate::vocab::{
    best_child, best_prefix, block_wf, child_wf, leaf_ids_distinct, paths_consistent, paths_consistent_with, voc_wf,
    word_covered, word_in_block, words_covered, Block, BlockView, Children, ChildrenView, NodeId,
    NodeIdView, Vocabulary, VocabularyView,
};

verus! {

/// Safety bound on Lloyd iterations: if the assignment has not
/// reached a fixed point after this many rounds, the current
/// partition is accepted as is. This makes construction total even
/// on adversarial inputs with many equidistant descriptors.
pub const MAX_LLOYD_ITERS: usize = 64;

/// Bit pattern of the default word weight (numerically one). A slot
/// is reserved per child for future inverse-document-frequency
/// weighting; construction always assigns the default.
pub const WEIGHT_ONE_BITS: u32 = 0x3f80_0000;

/// Intermediate clustering tree grown by pass one of construction.
/// `size` is the number of training descriptors in the node's
/// cluster; `bc` caches how many blocks the subtree will emit.
enum TreeNode {
    Leaf { centroid: Desc, size: usize },
    Branch { centroid: Desc, size: usize, bc: usize, kids: Vec<TreeNode> },
}

/// Blocks the subtrees of a node list will emit, per the cached
/// `bc` fields.
spec fn forest_bc(s: Seq<TreeNode>) -> int
    decreases s.len(),
{
    if s.len() == 0 {
        0
    } else {
        forest_bc(s.drop_last()) + match s.last() {
            TreeNode::Leaf { .. } => 0int,
            TreeNode::Branch { bc, .. } => bc as int,
        }
    }
}

proof fn lemma_forest_bc_nonneg(s: Seq<TreeNode>)
    ensures
        0 <= forest_bc(s),
    decreases s.len(),
{
    if s.len() > 0 {
        lemma_forest_bc_nonneg(s.drop_last());
    }
}

proof fn lemma_forest_bc_take(s: Seq<TreeNode>, n: int)
    requires
        0 <= n <= s.len(),
    ensures
        forest_bc(s.take(n)) <= forest_bc(s),
    decreases s.len() - n,
{
    if n == s.len() {
        assert(s.take(n) =~= s);
    } else {
        assert(s.take(n + 1).drop_last() =~= s.take(n));
        lemma_forest_bc_take(s, n + 1);
    }
}

/// Total number of nodes in the subtrees of a node list, counted
/// down to the depth limit.
spec fn forest_size(s: Seq<TreeNode>, level: int, levels: int) -> int
    decreases levels - level, s.len()
        when level <= levels
{
    if s.len() == 0 {
        0
    } else {
        forest_size(s.drop_last(), level, levels) + 1 + match s.last() {
            TreeNode::Leaf { .. } => 0int,
            TreeNode::Branch { kids, .. } => if level < levels {
                forest_size(kids@, level + 1, levels)
            } else {
                0int
            },
        }
    }
}

proof fn lemma_forest_size_nonneg(s: Seq<TreeNode>, level: int, levels: int)
    requires
        level <= levels,
    ensures
        0 <= forest_size(s, level, levels),
    decreases levels - level, s.len(),
{
    if s.len() > 0 {
        lemma_forest_size_nonneg(s.drop_last(), level, levels);
        match s.last() {
            TreeNode::Leaf { .. } => {},
            TreeNode::Branch { kids, .. } => {
                if level < levels {
                    lemma_forest_size_nonneg(kids@, level + 1, levels);
                }
            },
        }
    }
}

/// Number of leaves directly in a node list.
spec fn leaf_cnt(s: Seq<TreeNode>) -> int
    decreases s.len(),
{
    if s.len() == 0 {
        0
    } else {
        leaf_cnt(s.drop_last()) + match s.last() {
            TreeNode::Leaf { .. } => 1int,
            TreeNode::Branch { .. } => 0int,
        }
    }
}

proof fn lemma_leaf_cnt_nonneg(s: Seq<TreeNode>)
    ensures
        0 <= leaf_cnt(s),
    decreases s.len(),
{
    if s.len() > 0 {
        lemma_leaf_cnt_nonneg(s.drop_last());
    }
}

/// Total node count in the sub-forests of the branches of a node
/// list.
spec fn branch_fs(s: Seq<TreeNode>, level: int, levels: int) -> int
    decreases levels - level, s.len()
        when level <= levels
{
    if s.len() == 0 {
        0
    } else {
        branch_fs(s.drop_last(), level, levels) + match s.last() {
            TreeNode::Leaf { .. } => 0int,
            TreeNode::Branch { kids, .. } => if level < levels {
                forest_size(kids@, level + 1, levels)
            } else {
                0int
            },
        }
    }
}

/// Each node in a list accounts for its own leaf (if it is one) and
/// all nodes of its sub-forest.
proof fn lemma_leaf_branch_budget(s: Seq<TreeNode>, level: int, levels: int)
    requires
        level <= levels,
    ensures
        leaf_cnt(s) + branch_fs(s, level, levels) <= forest_size(s, level, levels),
    decreases s.len(),
{
    if s.len() > 0 {
        lemma_leaf_branch_budget(s.drop_last(), level, levels);
    }
}

/// Sum of the recorded cluster sizes of a node list.
spec fn sizes_sum(s: Seq<TreeNode>) -> int
    decreases s.len(),
{
    if s.len() == 0 {
        0
    } else {
        sizes_sum(s.drop_last()) + match s.last() {
            TreeNode::Leaf { size, .. } => size as int,
            TreeNode::Branch { size, .. } => size as int,
        }
    }
}

/// A node of the intermediate tree is sound for its depth: a leaf
/// holds at least one member and sits at the depth limit or holds a
/// single one; a branch occurs only above the depth limit, holds at
/// least two members, has between 1 and `k` children whose sizes
/// partition its own, caches the exact block count of its
/// sub-forest, and its children are sound one level down.
spec fn node_ok(n: TreeNode, level: int, levels: int, k: int) -> bool
    decreases levels - level
        when level <= levels
{
    match n {
        TreeNode::Leaf { size, .. } => 1 <= size && (level == levels || size == 1),
        TreeNode::Branch { size, bc, kids, .. } => {
            if level < levels {
                &&& 2 <= size
                &&& 1 <= kids@.len() <= k
                &&& bc as int == 1 + forest_bc(kids@)
                &&& size as int == sizes_sum(kids@)
                &&& forall|i: int| 0 <= i < kids@.len() ==> node_ok(kids@[i], level + 1, levels, k)
            } else {
                false
            }
        },
    }
}

/// Sum of the group sizes of a partition.
spec fn sum_lens(gs: Seq<Vec<usize>>) -> int
    decreases gs.len(),
{
    if gs.len() == 0 {
        0
    } else {
        sum_lens(gs.drop_last()) + gs.last()@.len()
    }
}

proof fn lemma_sum_lens_nonneg(gs: Seq<Vec<usize>>)
    ensures
        0 <= sum_lens(gs),
    decreases gs.len(),
{
    if gs.len() > 0 {
        lemma_sum_lens_nonneg(gs.drop_last());
    }
}

proof fn lemma_sum_lens_update(gs: Seq<Vec<usize>>, j: int, v: Vec<usize>)
    requires
        0 <= j < gs.len(),
    ensures
        sum_lens(gs.update(j, v)) == sum_lens(gs) - gs[j]@.len() + v@.len(),
    decreases gs.len(),
{
    if j == gs.len() - 1 {
        assert(gs.update(j, v).drop_last() =~= gs.drop_last());
    } else {
        assert(gs.update(j, v).drop_last() =~= gs.drop_last().update(j, v));
        lemma_sum_lens_update(gs.drop_last(), j, v);
    }
}

proof fn lemma_sum_lens_element(gs: Seq<Vec<usize>>, j: int)
    requires
        0 <= j < gs.len(),
    ensures
        gs[j]@.len() <= sum_lens(gs),
    decreases gs.len(),
{
    lemma_sum_lens_nonneg(gs.drop_last());
    if j < gs.len() - 1 {
        lemma_sum_lens_element(gs.drop_last(), j);
    }
}

/// Every group member is a valid index into the feature set.
spec fn group_indices_ok(gs: Seq<Vec<usize>>, n: int) -> bool {
    forall|j: int, t: int|
        0 <= j < gs.len() && 0 <= t < gs[j]@.len() ==> #[trigger] gs[j]@[t] < n
}

/// All-zero descriptor, the majority vote of an empty cluster.
fn zero_desc() -> (r: Desc) {
    [0u8; 32]
}

/// Bit `i` of a descriptor's bytes, most significant bit of each
/// byte first (bit 0 is the high bit of byte 0).
pub open spec fn bit_of(d: Seq<u8>, i: int) -> bool
    recommends
        0 <= i < 8 * d.len(),
{
    ((d[i / 8] as u32) >> ((7 - (i % 8)) as u32)) & 1 == 1
}

/// How many of the group's descriptors set bit `i`.
pub open spec fn bit_count(features: Seq<Desc>, group: Seq<usize>, i: int) -> int
    decreases group.len(),
{
    if group.len() == 0 {
        0
    } else {
        bit_count(features, group.drop_last(), i) + if bit_of(
            features[group.last() as int]@,
            i,
        ) {
            1int
        } else {
            0int
        }
    }
}

proof fn lemma_bit_count_identical(features: Seq<Desc>, group: Seq<usize>, d: Desc, i: int)
    requires
        forall|t: int| 0 <= t < group.len() ==> (#[trigger] group[t]) < features.len(),
        forall|t: int| 0 <= t < group.len() ==> features[(#[trigger] group[t]) as int] == d,
    ensures
        bit_count(features, group, i) == if bit_of(d@, i) {
            group.len() as int
        } else {
            0
        },
    decreases group.len(),
{
    if group.len() > 0 {
        lemma_bit_count_identical(features, group.drop_last(), d, i);
    }
}

/// The per-bit majority vote of identical descriptors reproduces
/// them: any result meeting the majority contract on a non-empty
/// group of copies of `d` equals `d`.
pub proof fn lemma_majority_of_identical(features: Seq<Desc>, group: Seq<usize>, d: Desc, r: Desc)
    requires
        1 <= group.len(),
        forall|t: int| 0 <= t < group.len() ==> (#[trigger] group[t]) < features.len(),
        forall|t: int| 0 <= t < group.len() ==> features[(#[trigger] group[t]) as int] == d,
        forall|i: int|
            0 <= i < 256 ==> (bit_of(r@, i) <==> 2 * bit_count(features, group, i) > group.len()),
    ensures
        r == d,
{
    broadcast use vstd::array::group_array_axioms;

    assert forall|i: int| 0 <= i < 256 implies (bit_of(r@, i) <==> bit_of(d@, i)) by {
        lemma_bit_count_identical(features, group, d, i);
    }
    assert forall|j: int| 0 <= j < 32 implies r@[j] == d@[j] by {
        let x = r@[j];
        let y = d@[j];
        assert((8 * j + 0) / 8 == j && (8 * j + 0) % 8 == 0) by (nonlinear_arith)
            requires
                0 <= j,
        ;
        assert(bit_of(r@, 8 * j + 0) <==> bit_of(d@, 8 * j + 0));
        assert((8 * j + 1) / 8 == j && (8 * j + 1) % 8 == 1) by (nonlinear_arith)
            requires
                0 <= j,
        ;
        assert(bit_of(r@, 8 * j + 1) <==> bit_of(d@, 8 * j + 1));
        assert((8 * j + 2) / 8 == j && (8 * j + 2) % 8 == 2) by (nonlinear_arith)
            requires
                0 <= j,
        ;
        assert(bit_of(r@, 8 * j + 2) <==> bit_of(d@, 8 * j + 2));
        assert((8 * j + 3) / 8 == j && (8 * j + 3) % 8 == 3) by (nonlinear_arith)
            requires
                0 <= j,
        ;
        assert(bit_of(r@, 8 * j + 3) <==> bit_of(d@, 8 * j + 3));
        assert((8 * j + 4) / 8 == j && (8 * j + 4) % 8 == 4) by (nonlinear_arith)
            requires
                0 <= j,
        ;
        assert(bit_of(r@, 8 * j + 4) <==> bit_of(d@, 8 * j + 4));
        assert((8 * j + 5) / 8 == j && (8 * j + 5) % 8 == 5) by (nonlinear_arith)
            requires
                0 <= j,
        ;
        assert(bit_of(r@, 8 * j + 5) <==> bit_of(d@, 8 * j + 5));
        assert((8 * j + 6) / 8 == j && (8 * j + 6) % 8 == 6) by (nonlinear_arith)
            requires
                0 <= j,
        ;
        assert(bit_of(r@, 8 * j + 6) <==> bit_of(d@, 8 * j + 6));
        assert((8 * j + 7) / 8 == j && (8 * j + 7) % 8 == 7) by (nonlinear_arith)
            requires
                0 <= j,
        ;
        assert(bit_of(r@, 8 * j + 7) <==> bit_of(d@, 8 * j + 7));
        assert(x == y) by (bit_vector)
            requires
                (((x as u32) >> 7u32) & 1 == 1) <==> (((y as u32) >> 7u32) & 1 == 1),
                (((x as u32) >> 6u32) & 1 == 1) <==> (((y as u32) >> 6u32) & 1 == 1),
                (((x as u32) >> 5u32) & 1 == 1) <==> (((y as u32) >> 5u32) & 1 == 1),
                (((x as u32) >> 4u32) & 1 == 1) <==> (((y as u32) >> 4u32) & 1 == 1),
                (((x as u32) >> 3u32) & 1 == 1) <==> (((y as u32) >> 3u32) & 1 == 1),
                (((x as u32) >> 2u32) & 1 == 1) <==> (((y as u32) >> 2u32) & 1 == 1),
                (((x as u32) >> 1u32) & 1 == 1) <==> (((y as u32) >> 1u32) & 1 == 1),
                (((x as u32) >> 0u32) & 1 == 1) <==> (((y as u32) >> 0u32) & 1 == 1),
        ;
    }
    assert(r@ =~= d@);
}

/// Per-bit majority vote across the group's descriptors: a result
/// bit is set exactly when strictly more than half of the group's
/// descriptors set it (ties resolve toward zero; an empty group
/// votes the zero descriptor).
fn desc_mean(features: &Vec<Desc>, group: &Vec<usize>) -> (r: Desc)
    requires
        forall|t: int| 0 <= t < group@.len() ==> #[trigger] group@[t] < features@.len(),
    ensures
        forall|i: int|
            0 <= i < 256 ==> (bit_of(r@, i) <==> 2 * bit_count(features@, group@, i)
                > group@.len()),
{
    let n2: usize = group.len() / 2;
    let mut out: Desc = [0u8; 32];
    let mut byte: usize = 0;
    while byte < 32
        invariant
            byte <= 32,
            out@.len() == 32,
            n2 == group@.len() / 2,
            forall|t: int| 0 <= t < group@.len() ==> #[trigger] group@[t] < features@.len(),
            forall|i: int|
                0 <= i < 8 * byte ==> (bit_of(out@, i) <==> 2 * bit_count(features@, group@, i)
                    > group@.len()),
        decreases 32 - byte,
    {
        let mut bacc: u32 = 0;
        let mut bit: usize = 0;
        proof {
            assert(forall|s2: u32| ((0u32 >> s2) & 1u32) == 0) by (bit_vector);
        }
        while bit < 8
            invariant
                bit <= 8,
                byte < 32,
                bacc < 256,
                n2 == group@.len() / 2,
                forall|t: int| 0 <= t < group@.len() ==> #[trigger] group@[t] < features@.len(),
                forall|b2: int|
                    #![trigger bit_count(features@, group@, 8 * byte + b2)]
                    0 <= b2 < bit ==> (((bacc >> ((7 - b2) as u32)) & 1u32) == 1 <==> 2
                        * bit_count(features@, group@, 8 * byte + b2) > group@.len()),
                forall|s2: u32| s2 < 8 - bit ==> ((bacc >> s2) & 1u32) == 0,
            decreases 8 - bit,
        {
            let sh: u32 = (7 - bit) as u32;
            let ghost gi: int = 8 * byte + bit;
            let mut cnt: usize = 0;
            let mut t: usize = 0;
            proof {
                assert(group@.take(0) =~= Seq::<usize>::empty());
            }
            while t < group.len()
                invariant
                    t <= group@.len(),
                    cnt <= t,
                    sh == 7 - bit,
                    bit < 8,
                    byte < 32,
                    gi == 8 * byte + bit,
                    forall|t2: int| 0 <= t2 < group@.len() ==> #[trigger] group@[t2] < features@.len(),
                    cnt == bit_count(features@, group@.take(t as int), gi),
                decreases group@.len() - t,
            {
                proof {
                    assert(group@.take(t + 1).drop_last() =~= group@.take(t as int));
                    assert(group@.take(t + 1).last() == group@[t as int]);
                    assert(gi / 8 == byte && gi % 8 == bit) by (nonlinear_arith)
                        requires
                            gi == 8 * byte + bit,
                            0 <= bit < 8,
                            0 <= byte,
                    ;
                }
                let d = &features[group[t]];
                if ((d[byte] as u32) >> sh) & 1 == 1 {
                    cnt = cnt + 1;
                }
                t = t + 1;
            }
            proof {
                assert(group@.take(group@.len() as int) =~= group@);
                assert(cnt > n2 <==> 2 * (cnt as int) > group@.len()) by (nonlinear_arith)
                    requires
                        n2 == group@.len() / 2,
                        0 <= cnt,
                ;
            }
            let ghost old_bacc = bacc;
            if cnt > n2 {
                proof {
                    assert((1u32 << sh) < 256) by (bit_vector)
                        requires
                            sh < 8,
                    ;
                    assert((old_bacc | (1u32 << sh)) < 256) by (bit_vector)
                        requires
                            sh < 8,
                            old_bacc < 256,
                    ;
                }
                bacc = bacc | (1u32 << sh);
                proof {
                    assert(forall|s2: u32|
                        s2 < 32 && s2 != sh ==> ((old_bacc | (1u32 << sh)) >> s2) & 1 == (old_bacc
                            >> s2) & 1) by (bit_vector);
                    assert(((old_bacc | (1u32 << sh)) >> sh) & 1 == 1) by (bit_vector)
                        requires
                            sh < 8,
                    ;
                }
            } else {
                proof {
                    assert(((bacc >> sh) & 1u32) == 0);
                }
            }
            proof {
                assert forall|b2: int|
                    #![trigger bit_count(features@, group@, 8 * byte + b2)]
                    0 <= b2 < bit + 1 implies (((bacc >> ((7 - b2) as u32)) & 1u32) == 1 <==> 2
                        * bit_count(features@, group@, 8 * byte + b2) > group@.len()) by {
                    if b2 < bit {
                        assert((7 - b2) as u32 != sh);
                        assert(((old_bacc >> ((7 - b2) as u32)) & 1u32) == 1 <==> 2 * bit_count(
                            features@,
                            group@,
                            8 * byte + b2,
                        ) > group@.len());
                    }
                }
                assert forall|s2: u32| s2 < 8 - (bit + 1) implies ((bacc >> s2) & 1u32) == 0 by {
                    assert(s2 != sh);
                    assert(((old_bacc >> s2) & 1u32) == 0);
                }
            }
            bit = bit + 1;
        }
        let ghost old_out = out@;
        out[byte] = bacc as u8;
        proof {
            assert(((bacc as u8) as u32) == bacc);
            assert forall|i: int|
                0 <= i < 8 * (byte + 1) implies (bit_of(out@, i) <==> 2 * bit_count(
                features@,
                group@,
                i,
            ) > group@.len()) by {
                if i < 8 * byte {
                    assert(i / 8 < byte && 0 <= i / 8) by (nonlinear_arith)
                        requires
                            0 <= i < 8 * byte,
                    ;
                    assert(out@[i / 8] == old_out[i / 8]);
                    assert(bit_of(old_out, i) <==> 2 * bit_count(features@, group@, i)
                        > group@.len());
                } else {
                    let b2 = i - 8 * byte;
                    assert(i / 8 == byte && i % 8 == b2) by (nonlinear_arith)
                        requires
                            i == 8 * byte + b2,
                            0 <= b2 < 8,
                            0 <= byte,
                    ;
                    assert(((bacc >> ((7 - b2) as u32)) & 1u32) == 1 <==> 2 * bit_count(
                        features@,
                        group@,
                        8 * byte + b2,
                    ) > group@.len());
                }
            }
        }
        byte = byte + 1;
    }
    out
}

/// Assign every feature to its nearest cluster (first minimum wins),
/// returning the member indices of each cluster.
/// Every member of every group sits with its nearest centroid: the
/// first centroid at minimum Hamming distance.
spec fn groups_nearest(gs: Seq<Vec<usize>>, cviews: Seq<Seq<u8>>, features: Seq<Desc>) -> bool {
    forall|j: int, x: int|
        #![trigger gs[j]@[x]]
        0 <= j < gs.len() && 0 <= x < gs[j]@.len() && gs[j]@[x] < features.len() ==> best_child(
            cviews,
            features[gs[j]@[x] as int]@,
        ) == j
}

fn assign_groups(features: &Vec<Desc>, clusters: &Vec<Desc>) -> (g: Vec<Vec<usize>>)
    requires
        1 <= clusters@.len(),
    ensures
        g@.len() == clusters@.len(),
        group_indices_ok(g@, features@.len() as int),
        sum_lens(g@) == features@.len(),
        groups_nearest(g@, clusters@.map(|i2: int, d: Desc| d@), features@),
{
    let ghost cviews = clusters@.map(|i2: int, d: Desc| d@);
    let mut g: Vec<Vec<usize>> = Vec::new();
    let mut j: usize = 0;
    while j < clusters.len()
        invariant
            j <= clusters@.len(),
            g@.len() == j,
            sum_lens(g@) == 0,
            group_indices_ok(g@, features@.len() as int),
            forall|j2: int| 0 <= j2 < g@.len() ==> g@[j2]@.len() == 0,
        decreases clusters@.len() - j,
    {
        let ghost old_g = g@;
        g.push(Vec::new());
        proof {
            assert(g@.drop_last() =~= old_g);
        }
        j = j + 1;
    }
    let mut i: usize = 0;
    while i < features.len()
        invariant
            i <= features@.len(),
            g@.len() == clusters@.len(),
            1 <= clusters@.len(),
            cviews == clusters@.map(|i2: int, d: Desc| d@),
            sum_lens(g@) == i,
            group_indices_ok(g@, features@.len() as int),
            groups_nearest(g@, cviews, features@),
        decreases features@.len() - i,
    {
        let mut best_j: usize = 0;
        let mut best_d: u32 = hamming(&clusters[0], &features[i]);
        let mut c: usize = 1;
        while c < clusters.len()
            invariant
                1 <= c <= clusters@.len(),
                best_j < c,
                i < features@.len(),
                cviews == clusters@.map(|i2: int, d: Desc| d@),
                best_j == best_prefix(cviews, features@[i as int]@, c as nat),
                best_d == spec_hamming(cviews[best_j as int], features@[i as int]@),
            decreases clusters@.len() - c,
        {
            let d = hamming(&clusters[c], &features[i]);
            if d < best_d {
                best_j = c;
                best_d = d;
            }
            c = c + 1;
        }
        proof {
            assert(best_j == best_child(cviews, features@[i as int]@));
        }
        let ghost old_g = g@;
        let mut row: Vec<usize> = Vec::new();
        core::mem::swap(&mut row, &mut g[best_j]);
        row.push(i);
        core::mem::swap(&mut row, &mut g[best_j]);
        proof {
            assert(g@ =~= old_g.update(best_j as int, g@[best_j as int]));
            assert(g@[best_j as int]@ =~= old_g[best_j as int]@.push(i));
            lemma_sum_lens_update(old_g, best_j as int, g@[best_j as int]);
            assert forall|j2: int, x: int|
                #![trigger g@[j2]@[x]]
                0 <= j2 < g@.len() && 0 <= x < g@[j2]@.len() && g@[j2]@[x]
                    < features@.len() implies best_child(
                cviews,
                features@[g@[j2]@[x] as int]@,
            ) == j2 by {
                if j2 != best_j || x < g@[j2]@.len() - 1 {
                    assert(g@[j2]@[x] == old_g[j2]@[x]);
                    assert(best_child(cviews, features@[(old_g[j2]@[x]) as int]@) == j2);
                }
            }
        }
        i = i + 1;
    }
    g
}

/// Deep equality of two partitions; used only to detect that the
/// Lloyd iteration reached a fixed point.
fn groups_eq(a: &Vec<Vec<usize>>, b: &Vec<Vec<usize>>) -> (r: bool) {
    if a.len() != b.len() {
        return false;
    }
    let mut j: usize = 0;
    while j < a.len()
        invariant
            j <= a@.len(),
            a@.len() == b@.len(),
        decreases a@.len() - j,
    {
        if a[j].len() != b[j].len() {
            return false;
        }
        let mut t: usize = 0;
        while t < a[j].len()
            invariant
                j < a@.len(),
                a@.len() == b@.len(),
                t <= a@[j as int]@.len(),
                a@[j as int]@.len() == b@[j as int]@.len(),
            decreases a@[j as int]@.len() - t,
        {
            if a[j][t] != b[j][t] {
                return false;
            }
            t = t + 1;
        }
        j = j + 1;
    }
    true
}

/// Recompute every cluster centroid as the majority vote of its
/// group.
fn means(features: &Vec<Desc>, groups: &Vec<Vec<usize>>) -> (c: Vec<Desc>)
    requires
        group_indices_ok(groups@, features@.len() as int),
    ensures
        c@.len() == groups@.len(),
{
    let mut c: Vec<Desc> = Vec::new();
    let mut j: usize = 0;
    while j < groups.len()
        invariant
            j <= groups@.len(),
            c@.len() == j,
            group_indices_ok(groups@, features@.len() as int),
        decreases groups@.len() - j,
    {
        if groups[j].len() == 0 {
            c.push(zero_desc());
        } else {
            c.push(desc_mean(features, &groups[j]));
        }
        j = j + 1;
    }
    c
}

/// Some element of `s` holds exactly the bytes `x`.
pub open spec fn has_desc(s: Seq<Desc>, x: Seq<u8>) -> bool {
    exists|j: int| 0 <= j < s.len() && (#[trigger] s[j])@ == x
}

/// No two elements of `s` hold the same bytes.
pub open spec fn descs_nodup(s: Seq<Desc>) -> bool {
    forall|a: int, b: int| #![trigger s[a], s[b]] 0 <= a < b < s.len() ==> s[a]@ != s[b]@
}

/// `a` and `b` hold the same descriptor values (ignoring order and
/// multiplicity).
pub open spec fn same_descs(a: Seq<Desc>, b: Seq<Desc>) -> bool {
    &&& forall|t: int| 0 <= t < a.len() ==> has_desc(b, (#[trigger] a[t])@)
    &&& forall|t: int| 0 <= t < b.len() ==> has_desc(a, (#[trigger] b[t])@)
}

/// The distinct descriptor values of `s`.
pub open spec fn view_set(s: Seq<Desc>) -> Set<Seq<u8>> {
    s.map(|i: int, d: Desc| d@).to_set()
}

/// A duplicate-free list holding the same values as `s` measures the
/// number of distinct values of `s`.
proof fn lemma_distinct_measure(d: Seq<Desc>, s: Seq<Desc>)
    requires
        descs_nodup(d),
        same_descs(d, s),
    ensures
        view_set(s).len() == d.len(),
{
    broadcast use vstd::seq_lib::seq_to_set_is_finite, vstd::set::group_set_axioms;

    let dv = d.map(|i: int, x: Desc| x@);
    let sv = s.map(|i: int, x: Desc| x@);
    assert(dv.no_duplicates()) by {
        assert forall|a: int, b: int|
            0 <= a < dv.len() && 0 <= b < dv.len() && a != b implies dv[a] != dv[b] by {
            if a < b {
                assert(d[a]@ != d[b]@);
            } else {
                assert(d[b]@ != d[a]@);
            }
        }
    }
    dv.unique_seq_to_set();
    assert(dv.to_set() =~= sv.to_set()) by {
        assert forall|x: Seq<u8>| dv.to_set().contains(x) implies sv.to_set().contains(x) by {
            let j = choose|j: int| 0 <= j < dv.len() && dv[j] == x;
            assert(has_desc(d, d[j]@));
            assert(has_desc(s, x));
            let j2 = choose|j2: int| 0 <= j2 < s.len() && s[j2]@ == x;
            assert(sv[j2] == x);
            assert(sv.contains(x));
        }
        assert forall|x: Seq<u8>| sv.to_set().contains(x) implies dv.to_set().contains(x) by {
            let j = choose|j: int| 0 <= j < sv.len() && sv[j] == x;
            assert(has_desc(s, s[j]@));
            assert(has_desc(d, x));
            let j2 = choose|j2: int| 0 <= j2 < d.len() && d[j2]@ == x;
            assert(dv[j2] == x);
            assert(dv.contains(x));
        }
    }
}

/// Collect the distinct descriptors, in first-occurrence order, as
/// long as there are at most `cap` of them; `None` exactly when the
/// features hold more than `cap` distinct descriptors.
fn distinct_up_to(features: &Vec<Desc>, cap: usize) -> (r: Option<Vec<Desc>>)
    requires
        1 <= features@.len(),
        1 <= cap,
    ensures
        r matches Some(d) ==> {
            &&& 1 <= d@.len() <= cap
            &&& descs_nodup(d@)
            &&& same_descs(d@, features@)
            &&& view_set(features@).len() == d@.len()
        },
        r is None ==> cap < features@.len() && view_set(features@).len() > cap,
{
    let mut d: Vec<Desc> = Vec::new();
    let mut i: usize = 0;
    while i < features.len()
        invariant
            i <= features@.len(),
            d@.len() <= i,
            d@.len() <= cap,
            1 <= cap,
            i >= 1 ==> 1 <= d@.len(),
            descs_nodup(d@),
            forall|j: int| 0 <= j < d@.len() ==> has_desc(features@, (#[trigger] d@[j])@),
            forall|t: int| 0 <= t < i ==> has_desc(d@, (#[trigger] features@[t])@),
        decreases features@.len() - i,
    {
        let mut found = false;
        let mut j: usize = 0;
        while j < d.len()
            invariant
                j <= d@.len(),
                i < features@.len(),
                found ==> has_desc(d@, features@[i as int]@),
                !found ==> forall|j2: int| 0 <= j2 < j ==> (#[trigger] d@[j2])@ != features@[i as int]@,
            decreases d@.len() - j,
        {
            if desc_eq(&d[j], &features[i]) {
                found = true;
                proof {
                    assert(d@[j as int]@ == features@[i as int]@);
                }
            }
            j = j + 1;
        }
        if !found {
            if d.len() == cap {
                proof {
                    lemma_is_more_distinct(d@, features@, cap as int, i as int);
                }
                return None;
            }
            let ghost old_d = d@;
            d.push(features[i]);
            proof {
                assert forall|a: int, b: int| #![trigger d@[a], d@[b]]
                    0 <= a < b < d@.len() implies d@[a]@ != d@[b]@ by {
                    if b == d@.len() - 1 {
                        assert(old_d[a]@ != features@[i as int]@);
                    } else {
                        assert(old_d[a]@ != old_d[b]@);
                    }
                }
                assert forall|t: int| 0 <= t < i + 1 implies has_desc(
                    d@,
                    (#[trigger] features@[t])@,
                ) by {
                    if t < i {
                        let j0 = choose|j0: int|
                            0 <= j0 < old_d.len() && old_d[j0]@ == features@[t]@;
                        assert(d@[j0]@ == features@[t]@);
                    } else {
                        assert(d@[d@.len() - 1]@ == features@[i as int]@);
                    }
                }
                assert forall|j2: int| 0 <= j2 < d@.len() implies has_desc(
                    features@,
                    (#[trigger] d@[j2])@,
                ) by {
                    if j2 < d@.len() - 1 {
                        assert(has_desc(features@, old_d[j2]@));
                    } else {
                        assert(features@[i as int]@ == d@[j2]@);
                    }
                }
            }
        }
        i = i + 1;
    }
    proof {
        lemma_distinct_measure(d@, features@);
    }
    Some(d)
}

/// A duplicate-free list of `cap` values of `s`, plus one more value
/// of `s` outside it, witness more than `cap` distinct values.
proof fn lemma_is_more_distinct(d: Seq<Desc>, s: Seq<Desc>, cap: int, i: int)
    requires
        descs_nodup(d),
        d.len() == cap,
        0 <= i < s.len(),
        forall|j: int| 0 <= j < d.len() ==> has_desc(s, (#[trigger] d[j])@),
        forall|j: int| 0 <= j < d.len() ==> (#[trigger] d[j])@ != s[i]@,
    ensures
        view_set(s).len() > cap,
{
    broadcast use vstd::seq_lib::seq_to_set_is_finite, vstd::set::group_set_axioms;

    let dv = d.map(|t: int, x: Desc| x@);
    let sv = s.map(|t: int, x: Desc| x@);
    assert(dv.no_duplicates()) by {
        assert forall|a: int, b: int|
            0 <= a < dv.len() && 0 <= b < dv.len() && a != b implies dv[a] != dv[b] by {
            if a < b {
                assert(d[a]@ != d[b]@);
            } else {
                assert(d[b]@ != d[a]@);
            }
        }
    }
    dv.unique_seq_to_set();
    let bigger = dv.to_set().insert(s[i]@);
    assert(!dv.to_set().contains(s[i]@)) by {
        if dv.to_set().contains(s[i]@) {
            let j = choose|j: int| 0 <= j < dv.len() && dv[j] == s[i]@;
            assert(d[j]@ == s[i]@);
        }
    }
    assert(bigger.len() == cap + 1);
    assert(bigger.subset_of(view_set(s))) by {
        assert forall|x: Seq<u8>| bigger.contains(x) implies view_set(s).contains(x) by {
            if x == s[i]@ {
                assert(sv[i] == x);
                assert(sv.contains(x));
            } else {
                let j = choose|j: int| 0 <= j < dv.len() && dv[j] == x;
                assert(has_desc(s, d[j]@));
                let j2 = choose|j2: int| 0 <= j2 < s.len() && s[j2]@ == x;
                assert(sv[j2] == x);
                assert(sv.contains(x));
            }
        }
    }
    vstd::set_lib::lemma_len_subset(bigger, view_set(s));
}

/// Copy a descriptor list.
fn copy_descs(v: &Vec<Desc>) -> (r: Vec<Desc>)
    ensures
        r@ == v@,
{
    let mut r: Vec<Desc> = Vec::new();
    let mut i: usize = 0;
    while i < v.len()
        invariant
            i <= v@.len(),
            r@ == v@.take(i as int),
        decreases v@.len() - i,
    {
        proof {
            assert(v@.take(i as int).push(v@[i as int]) =~= v@.take(i + 1));
        }
        r.push(v[i]);
        i = i + 1;
    }
    proof {
        assert(v@.take(v@.len() as int) =~= v@);
    }
    r
}

/// `w` is the Hamming distance from `f` to one of the centroids.
spec fn is_dist_to_some(w: u64, cents: Seq<Desc>, f: Desc) -> bool {
    exists|s2: int| 0 <= s2 < cents.len() && w as nat == spec_hamming((#[trigger] cents[s2])@, f@)
}

/// Minimum Hamming distance from each pool member to the chosen
/// centroids: the seeding weights handed to the weighted draw.
fn nearest_distances(pool: &Vec<Desc>, cents: &Vec<Desc>) -> (d: Vec<u64>)
    requires
        1 <= cents@.len(),
    ensures
        d@.len() == pool@.len(),
        forall|t: int|
            0 <= t < d@.len() ==> is_dist_to_some(#[trigger] d@[t], cents@, pool@[t]),
        forall|t: int, s2: int|
            0 <= t < d@.len() && 0 <= s2 < cents@.len() ==> (#[trigger] d@[t]) as nat
                <= spec_hamming((#[trigger] cents@[s2])@, pool@[t]@),
{
    let mut d: Vec<u64> = Vec::new();
    let mut t: usize = 0;
    while t < pool.len()
        invariant
            t <= pool@.len(),
            d@.len() == t,
            1 <= cents@.len(),
            forall|t2: int|
                0 <= t2 < d@.len() ==> is_dist_to_some(#[trigger] d@[t2], cents@, pool@[t2]),
            forall|t2: int, s2: int|
                0 <= t2 < d@.len() && 0 <= s2 < cents@.len() ==> (#[trigger] d@[t2]) as nat
                    <= spec_hamming((#[trigger] cents@[s2])@, pool@[t2]@),
        decreases pool@.len() - t,
    {
        let mut dmin: u32 = hamming(&cents[0], &pool[t]);
        proof {
            assert(0 <= 0 < cents@.len() && dmin as nat == spec_hamming(
                cents@[0]@,
                pool@[t as int]@,
            ));
        }
        let mut s: usize = 1;
        while s < cents.len()
            invariant
                1 <= s <= cents@.len(),
                t < pool@.len(),
                exists|s2: int|
                    0 <= s2 < s && dmin as nat == spec_hamming(
                        (#[trigger] cents@[s2])@,
                        pool@[t as int]@,
                    ),
                forall|s2: int|
                    0 <= s2 < s ==> dmin as nat <= spec_hamming(
                        (#[trigger] cents@[s2])@,
                        pool@[t as int]@,
                    ),
            decreases cents@.len() - s,
        {
            let dd = hamming(&cents[s], &pool[t]);
            if dd < dmin {
                dmin = dd;
                proof {
                    assert(0 <= s < s + 1 && dmin as nat == spec_hamming(
                        cents@[s as int]@,
                        pool@[t as int]@,
                    ));
                }
            }
            s = s + 1;
        }
        proof {
            assert(is_dist_to_some(dmin as u64, cents@, pool@[t as int]));
        }
        d.push(dmin as u64);
        t = t + 1;
    }
    d
}

/// Whether the weights sum within a 64-bit total, as the weighted
/// draw requires.
fn sum_fits(v: &Vec<u64>) -> (r: bool)
    ensures
        r <==> sum64(v@) <= u64::MAX,
{
    let mut total: u64 = 0;
    let mut i: usize = 0;
    while i < v.len()
        invariant
            i <= v@.len(),
            total == sum64(v@.take(i as int)),
        decreases v@.len() - i,
    {
        proof {
            assert(v@.take(i + 1).drop_last() =~= v@.take(i as int));
            lemma_sum64_take(v@, i + 1);
            lemma_sum64_nonneg(v@.take(i + 1));
        }
        if v[i] > u64::MAX - total {
            proof {
                if sum64(v@) <= u64::MAX {
                    assert(false);
                }
            }
            return false;
        }
        total = total + v[i];
        i = i + 1;
    }
    proof {
        assert(v@.take(v@.len() as int) =~= v@);
    }
    true
}

/// Move the drawn descriptor from the pool to the centroids; exact
/// for every drawn index.
fn take_from_pool(pool: &mut Vec<Desc>, cents: &mut Vec<Desc>, idx: usize)
    requires
        idx < old(pool)@.len(),
    ensures
        final(cents)@ == old(cents)@.push(old(pool)@[idx as int]),
        final(pool)@ == old(pool)@.remove(idx as int),
{
    let d = pool.remove(idx);
    cents.push(d);
}

/// One descriptor moved from the pool to the centroids keeps the
/// two together a rearrangement of the original features.
proof fn lemma_draw_step(
    pre_pool: Seq<Desc>,
    pre_cents: Seq<Desc>,
    new_pool: Seq<Desc>,
    new_cents: Seq<Desc>,
    fm: Multiset<Desc>,
    idx: int,
)
    requires
        0 <= idx < pre_pool.len(),
        new_pool == pre_pool.remove(idx),
        new_cents == pre_cents.push(pre_pool[idx]),
        pre_pool.to_multiset().add(pre_cents.to_multiset()) == fm,
    ensures
        new_pool.to_multiset().add(new_cents.to_multiset()) == fm,
{
    broadcast use vstd::seq_lib::group_to_multiset_ensures, vstd::multiset::group_multiset_axioms;

    let x = pre_pool[idx];
    assert(new_pool.to_multiset() =~= pre_pool.to_multiset().remove(x));
    assert(new_cents.to_multiset() =~= pre_cents.to_multiset().insert(x));
    assert(pre_pool.contains(x));
    assert(pre_pool.to_multiset().count(x) >= 1);
    assert(new_pool.to_multiset().add(new_cents.to_multiset()) =~= fm) by {
        assert forall|y: Desc|
            new_pool.to_multiset().add(new_cents.to_multiset()).count(y) == fm.count(y) by {
            assert(fm.count(y) == pre_pool.to_multiset().count(y) + pre_cents.to_multiset().count(
                y,
            ));
        }
    }
}

/// Hamming-space k-means++-style seeding: the first centroid is
/// drawn uniformly from the pool; each further one is drawn with
/// probability proportional to its distance to the nearest centroid
/// chosen so far (linear, not squared, weighting — a deliberate
/// deviation from the textbook scheme, kept for reproducibility).
/// Chosen descriptors leave the pool, so whatever the draws return,
/// the result is `k` members of the features drawn without
/// replacement. If the weighted draw is unavailable (all remaining
/// distances zero, or a weight total past 64 bits), the first pool
/// entry is taken.
fn init_kmeanspp(features: &Vec<Desc>, k: usize, rng: &mut rand::rngs::ThreadRng) -> (c: Vec<
    Desc,
>)
    requires
        2 <= k,
        k < features@.len(),
    ensures
        c@.len() == k,
        c@.to_multiset().subset_of(features@.to_multiset()),
{
    let ghost fm = features@.to_multiset();
    let mut pool: Vec<Desc> = copy_descs(features);
    let mut cents: Vec<Desc> = Vec::new();
    proof {
        broadcast use vstd::seq_lib::group_to_multiset_ensures,
            vstd::multiset::group_multiset_axioms;

        assert(cents@.to_multiset() =~= Multiset::<Desc>::empty());
        assert(pool@.to_multiset().add(cents@.to_multiset()) =~= fm);
    }
    let ghost pre_pool = pool@;
    let ghost pre_cents = cents@;
    let first = gen_index(rng, pool.len());
    take_from_pool(&mut pool, &mut cents, first);
    proof {
        lemma_draw_step(pre_pool, pre_cents, pool@, cents@, fm, first as int);
    }
    while cents.len() < k
        invariant
            pool@.len() + cents@.len() == features@.len(),
            1 <= cents@.len() <= k,
            k < features@.len(),
            fm == features@.to_multiset(),
            pool@.to_multiset().add(cents@.to_multiset()) == fm,
        decreases k - cents@.len(),
    {
        let dists = nearest_distances(&pool, &cents);
        let idx: usize = if sum_fits(&dists) {
            match weighted_new(&dists) {
                Some(d) => weighted_sample(&d, rng),
                None => 0,
            }
        } else {
            0
        };
        let ghost pre_pool2 = pool@;
        let ghost pre_cents2 = cents@;
        take_from_pool(&mut pool, &mut cents, idx);
        proof {
            lemma_draw_step(pre_pool2, pre_cents2, pool@, cents@, fm, idx as int);
        }
    }
    proof {
        broadcast use vstd::multiset::group_multiset_axioms;

        assert forall|y: Desc| cents@.to_multiset().count(y) <= fm.count(y) by {
            assert(fm.count(y) == pool@.to_multiset().count(y) + cents@.to_multiset().count(y));
        }
    }
    cents
}

/// Pick the initial centroids: the distinct descriptors themselves
/// when there are at most `k` of them, else `k` features chosen by
/// k-means++-style seeding without replacement.
fn initialize_clusters(features: &Vec<Desc>, k: usize, rng: &mut rand::rngs::ThreadRng) -> (c:
    Vec<Desc>)
    requires
        1 <= features@.len(),
        2 <= k,
    ensures
        1 <= c@.len() <= k,
        view_set(features@).len() <= k as int ==> descs_nodup(c@) && same_descs(c@, features@),
        view_set(features@).len() > k as int ==> c@.len() == k && c@.to_multiset().subset_of(
            features@.to_multiset(),
        ),
{
    match distinct_up_to(features, k) {
        Some(d) => d,
        None => init_kmeanspp(features, k, rng),
    }
}

/// One clustering step: partition `features` with capped Lloyd
/// iteration over Hamming distance, drop empty clusters, and turn
/// each surviving cluster into a leaf (at the depth limit, or when
/// it holds a single member) or into a branch grown recursively.
/// The iteration loop ends — at a fixed point or at the cap — with
/// the last computed assignment, so the partition it hands on always
/// maps every descriptor to its nearest centroid.
fn make_children(
    features: &Vec<Desc>,
    k: usize,
    levels: usize,
    level: usize,
    rng: &mut rand::rngs::ThreadRng,
) -> (r: Vec<TreeNode>)
    requires
        1 <= features@.len(),
        2 <= k,
        1 <= level <= levels,
        features@.len() * ((levels - level + 1) as int) + 1 <= usize::MAX as int,
    ensures
        1 <= r@.len() <= k,
        forall|i: int| 0 <= i < r@.len() ==> node_ok(#[trigger] r@[i], level as int, levels as int, k as int),
        sizes_sum(r@) == features@.len(),
        forest_bc(r@) <= features@.len() * ((levels - level) as int),
        forest_size(r@, level as int, levels as int) <= features@.len() * ((levels - level
            + 1) as int),
    decreases levels - level,
{
    let ghost n = features@.len() as int;
    let mut clusters = initialize_clusters(features, k, rng);
    let mut groups: Vec<Vec<usize>> = Vec::new();
    let mut j0: usize = 0;
    while j0 < clusters.len()
        invariant
            j0 <= clusters@.len(),
            groups@.len() == j0,
            forall|j2: int| 0 <= j2 < groups@.len() ==> #[trigger] groups@[j2]@.len() == 0,
        decreases clusters@.len() - j0,
    {
        groups.push(Vec::new());
        j0 = j0 + 1;
    }
    let mut iter: usize = 0;
    loop
        invariant
            1 <= clusters@.len() <= k,
            groups@.len() == clusters@.len(),
            iter < MAX_LLOYD_ITERS,
            n == features@.len(),
            1 <= n,
            group_indices_ok(groups@, n),
        ensures
            1 <= clusters@.len() <= k,
            groups@.len() == clusters@.len(),
            group_indices_ok(groups@, n),
            sum_lens(groups@) == n,
            groups_nearest(groups@, clusters@.map(|i2: int, d: Desc| d@), features@),
        decreases MAX_LLOYD_ITERS - iter,
    {
        let newg = assign_groups(features, &clusters);
        if iter + 1 >= MAX_LLOYD_ITERS || groups_eq(&groups, &newg) {
            groups = newg;
            break;
        }
        clusters = means(features, &newg);
        groups = newg;
        iter = iter + 1;
    }
    // Drop clusters whose group ended up empty (their centroid was
    // duplicated or orphaned); this can reduce the branching factor
    // below k at this node.
    let mut kept_g: Vec<Vec<usize>> = Vec::new();
    let mut kept_c: Vec<Desc> = Vec::new();
    let mut j: usize = 0;
    while j < groups.len()
        invariant
            j <= groups@.len(),
            groups@.len() == clusters@.len(),
            kept_g@.len() == kept_c@.len(),
            kept_g@.len() <= j,
            n == features@.len(),
            group_indices_ok(groups@, n),
            group_indices_ok(kept_g@, n),
            sum_lens(groups@) == n,
            sum_lens(kept_g@) == sum_lens(groups@.take(j as int)),
            forall|t: int| 0 <= t < kept_g@.len() ==> 1 <= #[trigger] kept_g@[t]@.len(),
        decreases groups@.len() - j,
    {
        proof {
            assert(groups@.take(j + 1).drop_last() =~= groups@.take(j as int));
            assert(groups@.take(j + 1).last() == groups@[j as int]);
        }
        if groups[j].len() > 0 {
            let ghost old_kept = kept_g@;
            let row = groups[j].clone();
            proof {
                assert(row@ =~= groups@[j as int]@);
            }
            kept_g.push(row);
            kept_c.push(clusters[j]);
            proof {
                assert(kept_g@.drop_last() =~= old_kept);
            }
        }
        j = j + 1;
    }
    proof {
        assert(groups@.take(groups@.len() as int) =~= groups@);
        if kept_g@.len() == 0 {
            assert(sum_lens(kept_g@) == 0);
            assert(false);
        }
    }
    // Turn the surviving clusters into child nodes.
    let mut out: Vec<TreeNode> = Vec::new();
    let mut j: usize = 0;
    while j < kept_g.len()
        invariant
            j <= kept_g@.len(),
            kept_g@.len() == kept_c@.len(),
            kept_g@.len() <= k,
            out@.len() == j,
            n == features@.len(),
            1 <= level <= levels,
            2 <= k,
            n * ((levels - level + 1) as int) + 1 <= usize::MAX as int,
            group_indices_ok(kept_g@, n),
            sum_lens(kept_g@) == n,
            forall|t: int| 0 <= t < kept_g@.len() ==> 1 <= #[trigger] kept_g@[t]@.len(),
            forall|i: int| 0 <= i < out@.len() ==> node_ok(
                #[trigger] out@[i],
                level as int,
                levels as int,
                k as int,
            ),
            sizes_sum(out@) == sum_lens(kept_g@.take(j as int)),
            forest_bc(out@) <= sum_lens(kept_g@.take(j as int)) * ((levels - level) as int),
            forest_size(out@, level as int, levels as int) <= sum_lens(kept_g@.take(j as int)) * ((
            levels - level + 1) as int),
        decreases kept_g@.len() - j,
    {
        let ghost szs_pre = sum_lens(kept_g@.take(j as int));
        let ghost out_pre = out@;
        let sz = kept_g[j].len();
        proof {
            assert(kept_g@.take(j + 1).drop_last() =~= kept_g@.take(j as int));
            assert(kept_g@.take(j + 1).last() == kept_g@[j as int]);
            lemma_sum_lens_element(kept_g@, j as int);
            lemma_sum_lens_nonneg(kept_g@.take(j as int));
            lemma_forest_bc_nonneg(out@);
            lemma_forest_size_nonneg(out@, level as int, levels as int);
        }
        if level == levels || sz == 1 {
            out.push(TreeNode::Leaf { centroid: kept_c[j], size: sz });
            proof {
                assert(out@.drop_last() =~= out_pre);
                assert(forest_bc(out@) == forest_bc(out_pre));
                assert(forest_size(out@, level as int, levels as int) == forest_size(
                    out_pre,
                    level as int,
                    levels as int,
                ) + 1);
                assert(forest_bc(out@) <= sum_lens(kept_g@.take(j + 1)) * ((levels
                    - level) as int) && forest_size(out@, level as int, levels as int) <= sum_lens(
                    kept_g@.take(j + 1),
                ) * ((levels - level + 1) as int)) by (nonlinear_arith)
                    requires
                        forest_bc(out@) <= szs_pre * ((levels - level) as int),
                        forest_size(out@, level as int, levels as int) <= szs_pre * ((levels - level
                            + 1) as int) + 1,
                        sum_lens(kept_g@.take(j + 1)) == szs_pre + sz,
                        1 <= sz,
                        0 <= szs_pre,
                        level <= levels,
                ;
            }
        } else {
            // Gather the cluster's own descriptors and grow a branch.
            let mut sub: Vec<Desc> = Vec::new();
            let mut t: usize = 0;
            while t < kept_g[j].len()
                invariant
                    j < kept_g@.len(),
                    t <= kept_g@[j as int]@.len(),
                    sub@.len() == t,
                    n == features@.len(),
                    group_indices_ok(kept_g@, n),
                decreases kept_g@[j as int]@.len() - t,
            {
                sub.push(features[kept_g[j][t]]);
                t = t + 1;
            }
            proof {
                assert(sub@.len() == sz);
                assert((sz as int) * ((levels - (level + 1) + 1) as int) + 1 <= n * ((levels - level
                    + 1) as int) + 1) by (nonlinear_arith)
                    requires
                        1 <= sz as int <= n,
                        level < levels,
                ;
            }
            let kids = make_children(&sub, k, levels, level + 1, rng);
            let mut bc: usize = 1;
            let mut t2: usize = 0;
            while t2 < kids.len()
                invariant
                    t2 <= kids@.len(),
                    bc as int == 1 + forest_bc(kids@.take(t2 as int)),
                    forest_bc(kids@) <= (sz as int) * ((levels - level - 1) as int),
                    1 <= sz as int <= n,
                    level < levels,
                    n * ((levels - level + 1) as int) + 1 <= usize::MAX as int,
                decreases kids@.len() - t2,
            {
                proof {
                    assert(kids@.take(t2 + 1).drop_last() =~= kids@.take(t2 as int));
                    assert(kids@.take(t2 + 1).last() == kids@[t2 as int]);
                    lemma_forest_bc_take(kids@, t2 + 1);
                    lemma_forest_bc_nonneg(kids@.take(t2 + 1));
                    assert((sz as int) * ((levels - level - 1) as int) + 1 <= n * ((levels - level
                        + 1) as int)) by (nonlinear_arith)
                        requires
                            1 <= sz as int <= n,
                            level < levels,
                    ;
                }
                match &kids[t2] {
                    TreeNode::Leaf { .. } => {},
                    TreeNode::Branch { bc: kb, .. } => {
                        bc = bc + *kb;
                    },
                }
                t2 = t2 + 1;
            }
            proof {
                assert(kids@.take(kids@.len() as int) =~= kids@);
            }
            out.push(TreeNode::Branch { centroid: kept_c[j], size: sz, bc, kids });
            proof {
                assert(out@.drop_last() =~= out_pre);
                assert(out@.last() matches TreeNode::Branch { bc: b2, kids: k2, .. } && b2 == bc
                    && k2@ == kids@);
                assert(node_ok(out@.last(), level as int, levels as int, k as int));
                assert(forest_bc(out@) == forest_bc(out_pre) + bc);
                assert(forest_size(out@, level as int, levels as int) == forest_size(
                    out_pre,
                    level as int,
                    levels as int,
                ) + 1 + forest_size(kids@, (level + 1) as int, levels as int));
                assert(forest_bc(out@) <= sum_lens(kept_g@.take(j + 1)) * ((levels
                    - level) as int)) by (nonlinear_arith)
                    requires
                        forest_bc(out@) == forest_bc(out_pre) + bc,
                        forest_bc(out_pre) <= szs_pre * ((levels - level) as int),
                        bc as int == 1 + forest_bc(kids@),
                        forest_bc(kids@) <= (sz as int) * ((levels - level - 1) as int),
                        sum_lens(kept_g@.take(j + 1)) == szs_pre + sz,
                        1 <= sz,
                        0 <= szs_pre,
                        level < levels,
                ;
                assert(forest_size(out@, level as int, levels as int) <= sum_lens(
                    kept_g@.take(j + 1),
                ) * ((levels - level + 1) as int)) by (nonlinear_arith)
                    requires
                        forest_size(out@, level as int, levels as int) == forest_size(
                            out_pre,
                            level as int,
                            levels as int,
                        ) + 1 + forest_size(kids@, (level + 1) as int, levels as int),
                        forest_size(out_pre, level as int, levels as int) <= szs_pre * ((levels
                            - level + 1) as int),
                        forest_size(kids@, (level + 1) as int, levels as int) <= (sz as int) * ((
                        levels - level) as int),
                        sum_lens(kept_g@.take(j + 1)) == szs_pre + sz,
                        1 <= sz,
                        0 <= szs_pre,
                        level < levels,
                ;
            }
        }
        j = j + 1;
    }
    proof {
        assert(kept_g@.take(kept_g@.len() as int) =~= kept_g@);
    }
    out
}

proof fn lemma_branch_fs_nonneg(s: Seq<TreeNode>, level: int, levels: int)
    requires
        level <= levels,
    ensures
        0 <= branch_fs(s, level, levels),
    decreases s.len(),
{
    if s.len() > 0 {
        lemma_branch_fs_nonneg(s.drop_last(), level, levels);
        match s.last() {
            TreeNode::Leaf { .. } => {},
            TreeNode::Branch { kids, .. } => {
                if level < levels {
                    lemma_forest_size_nonneg(kids@, level + 1, levels);
                }
            },
        }
    }
}

proof fn lemma_branch_fs_take(s: Seq<TreeNode>, n: int, level: int, levels: int)
    requires
        0 <= n <= s.len(),
        level <= levels,
    ensures
        branch_fs(s.take(n), level, levels) <= branch_fs(s, level, levels),
    decreases s.len() - n,
{
    if n == s.len() {
        assert(s.take(n) =~= s);
    } else {
        assert(s.take(n + 1).drop_last() =~= s.take(n));
        match s.take(n + 1).last() {
            TreeNode::Leaf { .. } => {},
            TreeNode::Branch { kids, .. } => {
                if level < levels {
                    lemma_forest_size_nonneg(kids@, level + 1, levels);
                }
            },
        }
        lemma_branch_fs_take(s, n + 1, level, levels);
    }
}

proof fn lemma_leaf_cnt_take(s: Seq<TreeNode>, n: int)
    requires
        0 <= n <= s.len(),
    ensures
        leaf_cnt(s.take(n)) <= leaf_cnt(s),
    decreases s.len() - n,
{
    if n == s.len() {
        assert(s.take(n) =~= s);
    } else {
        assert(s.take(n + 1).drop_last() =~= s.take(n));
        lemma_leaf_cnt_take(s, n + 1);
    }
}

/// At the depth limit a sound node list is all leaves, so it emits
/// no blocks.
proof fn lemma_forest_bc_all_leaves(s: Seq<TreeNode>, levels: int, k: int)
    requires
        forall|i: int| 0 <= i < s.len() ==> node_ok(#[trigger] s[i], levels, levels, k),
    ensures
        forest_bc(s) == 0,
    decreases s.len(),
{
    if s.len() > 0 {
        assert(node_ok(s[s.len() - 1], levels, levels, k));
        lemma_forest_bc_all_leaves(s.drop_last(), levels, k);
    }
}

/// One child slot of an emitted block stays within the block bound
/// `hi` and the leaf ids handed out so far.
spec fn slot_ok(id: NodeIdView, my_id: int, hi: int, nl: int, levels: int) -> bool {
    match id {
        NodeIdView::Block(b) => my_id < b && b < hi,
        NodeIdView::Leaf(p) => 1 <= p.len() && p.len() <= levels && p.last() < nl,
    }
}

/// An emitted block is sound relative to the block bound `hi` and
/// the number of leaf ids handed out so far.
spec fn built_block_ok(b: BlockView, i: int, hi: int, nl: int, levels: int) -> bool {
    &&& b.id == NodeIdView::Block(i as usize)
    &&& 1 <= b.children.ids.len()
    &&& b.children.features.len() == b.children.ids.len()
    &&& b.children.weight_bits.len() == b.children.ids.len()
    &&& b.children.cluster_size.len() == b.children.ids.len()
    &&& forall|c: int|
        0 <= c < b.children.ids.len() ==> slot_ok(#[trigger] b.children.ids[c], i, hi, nl, levels)
}

/// Sum of a cluster-size list.
pub open spec fn sum_cs(s: Seq<usize>) -> int
    decreases s.len(),
{
    if s.len() == 0 {
        0
    } else {
        sum_cs(s.drop_last()) + s.last()
    }
}

/// Construction facts of a built block's children: at most `k`
/// child slots, every weight at the default bit pattern, and
/// cluster sizes witnessing the leaf rule — a leaf child sits at
/// the depth limit or holds exactly one training descriptor, and a
/// block child holds at least two.
pub open spec fn built_children_facts(ch: ChildrenView, levels: int, k: int) -> bool {
    &&& ch.ids.len() <= k
    &&& forall|c: int| 0 <= c < ch.ids.len() ==> (#[trigger] ch.weight_bits[c]) == WEIGHT_ONE_BITS
    &&& forall|c: int|
        0 <= c < ch.ids.len() ==> match #[trigger] ch.ids[c] {
            NodeIdView::Leaf(p) => 1 <= ch.cluster_size[c] && (p.len() == levels
                || ch.cluster_size[c] == 1),
            NodeIdView::Block(_) => 2 <= ch.cluster_size[c],
        }
}

proof fn lemma_built_mono(b: BlockView, i: int, hi: int, nl: int, nl2: int, levels: int)
    requires
        built_block_ok(b, i, hi, nl, levels),
        nl <= nl2,
    ensures
        built_block_ok(b, i, hi, nl2, levels),
{
    assert forall|c: int| 0 <= c < b.children.ids.len() implies slot_ok(
        #[trigger] b.children.ids[c],
        i,
        hi,
        nl2,
        levels,
    ) by {
        assert(slot_ok(b.children.ids[c], i, hi, nl, levels));
    }
}

proof fn lemma_forest_bc_take_range(s: Seq<TreeNode>, a: int, b: int)
    requires
        0 <= a <= b <= s.len(),
    ensures
        forest_bc(s.take(a)) <= forest_bc(s.take(b)),
    decreases b - a,
{
    if a < b {
        assert(s.take(a + 1).drop_last() =~= s.take(a));
        lemma_forest_bc_take_range(s, a + 1, b);
    }
}

/// Settled path consistency of the blocks emitted so far, relative
/// to a path assignment: a block child already emitted extends its
/// parent's path by its own id, and every stored leaf path extends
/// its block's path by the word id.
spec fn amap_ok(bs: Seq<Block>, amap: Seq<Seq<usize>>) -> bool {
    &&& amap.len() == bs.len()
    &&& forall|i: int, c: int|
        0 <= i < bs.len() && 0 <= c < bs[i]@.children.ids.len()
            ==> match #[trigger] bs[i]@.children.ids[c] {
            NodeIdView::Block(b) => (b as int) < bs.len() ==> amap[b as int] == amap[i].push(b),
            NodeIdView::Leaf(p) => p == amap[i].push(p.last()),
        }
}

/// Word `w` is carried by some leaf slot of the id list.
spec fn ids_word(ids: Seq<NodeIdView>, w: int) -> bool {
    exists|t: int|
        0 <= t < ids.len() && ((#[trigger] ids[t]) matches NodeIdView::Leaf(p) && p.last() == w)
}

/// Word `w` is carried by some leaf slot of the pending id list.
spec fn vec_ids_word(ids: Seq<NodeId>, w: int) -> bool {
    exists|t: int|
        0 <= t < ids.len() && (((#[trigger] ids[t])@) matches NodeIdView::Leaf(p) && p.last() == w)
}

/// Word `w` is carried by some leaf slot of the emitted blocks.
spec fn blocks_word(bs: Seq<Block>, w: int) -> bool {
    exists|i: int, c: int|
        0 <= i < bs.len() && 0 <= c < bs[i]@.children.ids.len() && ((
        #[trigger] bs[i]@.children.ids[c]) matches NodeIdView::Leaf(p) && p.last() == w)
}

/// Every word id below `nl` is carried by some emitted leaf slot.
spec fn blocks_covered(bs: Seq<Block>, nl: int) -> bool {
    forall|w: int| 0 <= w < nl ==> #[trigger] blocks_word(bs, w)
}

/// No two emitted leaf slots carry the same word id.
spec fn blocks_distinct(bs: Seq<Block>) -> bool {
    forall|i: int, c: int, i2: int, c2: int|
        #![trigger bs[i]@.children.ids[c], bs[i2]@.children.ids[c2]]
        0 <= i < bs.len() && 0 <= c < bs[i]@.children.ids.len() && 0 <= i2 < bs.len() && 0 <= c2
            < bs[i2]@.children.ids.len() && (i != i2 || c != c2) ==> match (
        bs[i]@.children.ids[c],
        bs[i2]@.children.ids[c2],
        ) {
            (NodeIdView::Leaf(p), NodeIdView::Leaf(q)) => p.last() != q.last(),
            _ => true,
        }
}

/// No emitted child slot points strictly inside the open range
/// `(lo, hi2)` of block offsets.
spec fn no_refs_inside(bs: Seq<Block>, lo: int, hi2: int) -> bool {
    forall|i: int, c: int|
        0 <= i < bs.len() && 0 <= c < bs[i]@.children.ids.len()
            ==> match #[trigger] bs[i]@.children.ids[c] {
            NodeIdView::Block(b) => !(lo < (b as int) && (b as int) < hi2),
            NodeIdView::Leaf(_) => true,
        }
}

/// Every slot that points at offset `at` assigns it the path `p`.
spec fn refs_to_agree(bs: Seq<Block>, amap: Seq<Seq<usize>>, at: int, p: Seq<usize>) -> bool {
    forall|i: int, c: int|
        0 <= i < bs.len() && 0 <= c < bs[i]@.children.ids.len()
            ==> match #[trigger] bs[i]@.children.ids[c] {
            NodeIdView::Block(b) => (b as int) == at ==> amap[i].push(b) == p,
            NodeIdView::Leaf(_) => true,
        }
}

/// After the whole subtree is emitted, its blocks' child references
/// stay strictly inside the subtree's offset range.
#[verifier::rlimit(100)]
proof fn lemma_subtree_refs(
    bs: Seq<Block>,
    kids: Seq<TreeNode>,
    my_id: int,
    levels: int,
)
    requires
        0 <= my_id < bs.len(),
        bs.len() == my_id + 1 + forest_bc(kids),
        bs.len() <= usize::MAX as int,
        bs[my_id]@.children.ids.len() == kids.len(),
        forall|t: int|
            0 <= t < kids.len() ==> match #[trigger] kids[t] {
                TreeNode::Branch { .. } => bs[my_id]@.children.ids[t] == NodeIdView::Block(
                    ((my_id + 1 + forest_bc(kids.take(t))) as usize),
                ) && my_id + 1 + forest_bc(kids.take(t)) < my_id + 1 + forest_bc(kids.take(t + 1)),
                TreeNode::Leaf { .. } => bs[my_id]@.children.ids[t] matches NodeIdView::Leaf(_),
            },
        forall|i: int, c: int|
            my_id < i < bs.len() && 0 <= c < bs[i]@.children.ids.len()
                ==> match #[trigger] bs[i]@.children.ids[c] {
                NodeIdView::Block(b) => my_id < (b as int) && (b as int) < bs.len(),
                NodeIdView::Leaf(_) => true,
            },
    ensures
        forall|i: int, c: int|
            my_id <= i < bs.len() && 0 <= c < bs[i]@.children.ids.len()
                ==> match #[trigger] bs[i]@.children.ids[c] {
                NodeIdView::Block(b) => my_id < (b as int) && (b as int) < bs.len(),
                NodeIdView::Leaf(_) => true,
            },
{
    assert forall|i: int, c: int|
        my_id <= i < bs.len() && 0 <= c < bs[i]@.children.ids.len() implies match
        #[trigger] bs[i]@.children.ids[c] {
        NodeIdView::Block(b) => my_id < (b as int) && (b as int) < bs.len(),
        NodeIdView::Leaf(_) => true,
    } by {
        if i == my_id {
            // Mention the child node so its recorded slot shape applies.
            let ghost kid_c = kids[c];
            lemma_forest_bc_nonneg(kids.take(c));
            lemma_forest_bc_take(kids, c);
            lemma_forest_bc_take(kids, c + 1);
            match kids[c] {
                TreeNode::Branch { .. } => {
                    lemma_forest_bc_take_range(kids, c + 1, kids.len() as int);
                    assert(kids.take(kids.len() as int) =~= kids);
                },
                TreeNode::Leaf { .. } => {},
            }
        }
    }
}

/// After the new block lands at offset `my_id`, every block emitted
/// so far is sound for the grown leaf count.
proof fn lemma_built_after_push(
    olds: Seq<Block>,
    news: Seq<Block>,
    idsv: Seq<NodeIdView>,
    my_id: int,
    hi: int,
    nl0: int,
    nl: int,
    levels: int,
)
    requires
        my_id == olds.len(),
        news.len() == my_id + 1,
        forall|i: int| 0 <= i < my_id ==> news[i] == olds[i],
        forall|i: int|
            0 <= i < olds.len() ==> built_block_ok(#[trigger] olds[i]@, i, hi, nl0, levels),
        nl0 <= nl,
        news[my_id]@.id == NodeIdView::Block(my_id as usize),
        1 <= idsv.len(),
        news[my_id]@.children.ids.len() == idsv.len(),
        news[my_id]@.children.features.len() == idsv.len(),
        news[my_id]@.children.weight_bits.len() == idsv.len(),
        news[my_id]@.children.cluster_size.len() == idsv.len(),
        forall|t: int| 0 <= t < idsv.len() ==> news[my_id]@.children.ids[t] == #[trigger] idsv[t],
        forall|t: int| 0 <= t < idsv.len() ==> slot_ok(#[trigger] idsv[t], my_id, hi, nl, levels),
    ensures
        forall|i: int| 0 <= i < news.len() ==> built_block_ok(#[trigger] news[i]@, i, hi, nl, levels),
{
    assert forall|i: int| 0 <= i < news.len() implies built_block_ok(
        #[trigger] news[i]@,
        i,
        hi,
        nl,
        levels,
    ) by {
        if i < my_id {
            assert(built_block_ok(olds[i]@, i, hi, nl0, levels));
            lemma_built_mono(olds[i]@, i, hi, nl0, nl, levels);
        } else {
            assert forall|c2: int| 0 <= c2 < news[i]@.children.ids.len() implies slot_ok(
                #[trigger] news[i]@.children.ids[c2],
                i,
                hi,
                nl,
                levels,
            ) by {
                assert(news[i]@.children.ids[c2] == idsv[c2]);
            }
        }
    }
}

/// After the new block lands at offset `my_id` with path `anc`,
/// the extended assignment stays consistent: old slots that pointed
/// at `my_id` agreed on `anc`, and the new block's own leaf paths
/// extend `anc`.
proof fn lemma_amap_after_push(
    olds: Seq<Block>,
    news: Seq<Block>,
    amap: Seq<Seq<usize>>,
    amap2: Seq<Seq<usize>>,
    anc: Seq<usize>,
    kids: Seq<TreeNode>,
    idsv: Seq<NodeIdView>,
    my_id: int,
)
    requires
        my_id == olds.len(),
        amap.len() == my_id,
        amap2 == amap.push(anc),
        news.len() == my_id + 1,
        forall|i: int| 0 <= i < my_id ==> news[i] == olds[i],
        idsv.len() == kids.len(),
        news[my_id]@.children.ids.len() == kids.len(),
        forall|t: int|
            0 <= t < kids.len() ==> news[my_id]@.children.ids[t] == #[trigger] idsv[t],
        amap_ok(olds, amap),
        refs_to_agree(olds, amap, my_id, anc),
        my_id + 1 + forest_bc(kids) <= usize::MAX as int,
        forall|t: int|
            0 <= t < kids.len() ==> match #[trigger] kids[t] {
                TreeNode::Branch { .. } => idsv[t] == NodeIdView::Block(
                    ((my_id + 1 + forest_bc(kids.take(t))) as usize),
                ) && my_id + 1 + forest_bc(kids.take(t)) < my_id + 1 + forest_bc(kids.take(t + 1)),
                TreeNode::Leaf { .. } => idsv[t] matches NodeIdView::Leaf(p) && p == anc.push(
                    p.last(),
                ),
            },
    ensures
        amap_ok(news, amap2),
{
    assert forall|i: int, c: int|
        0 <= i < news.len() && 0 <= c < news[i]@.children.ids.len() implies match
        #[trigger] news[i]@.children.ids[c] {
        NodeIdView::Block(b) => (b as int) < news.len() ==> amap2[b as int] == amap2[i].push(b),
        NodeIdView::Leaf(p) => p == amap2[i].push(p.last()),
    } by {
        if i < my_id {
            assert(news[i] == olds[i]);
            assert(news[i]@.children.ids[c] == olds[i]@.children.ids[c]);
            assert(match olds[i]@.children.ids[c] {
                NodeIdView::Block(b) => ((b as int) < olds.len() ==> amap[b as int] == amap[i].push(
                    b,
                )) && ((b as int) == my_id ==> amap[i].push(b) == anc),
                NodeIdView::Leaf(p) => p == amap[i].push(p.last()),
            });
        } else {
            assert(news[i]@.children.ids[c] == idsv[c]);
            // Mention the child node so its recorded slot shape applies.
            let ghost kid_c = kids[c];
            lemma_forest_bc_nonneg(kids.take(c));
            lemma_forest_bc_take(kids, c);
        }
    }
}

/// Build the four child arrays of the block whose children are
/// `kids`: centroids, default weights, cluster sizes, and ids —
/// fresh word ids for leaves, forward block offsets for branches.
/// Returns the children and the first block offset after the
/// block's own subtree.
#[verifier::rlimit(100)]
#[verifier::spinoff_prover]
fn build_child_arrays(
    kids: &Vec<TreeNode>,
    anc: &Vec<usize>,
    num_leaves: &mut usize,
    my_id: usize,
    levels: usize,
    Ghost(k): Ghost<int>,
    Ghost(hi): Ghost<int>,
) -> (r: (Children, usize))
    requires
        anc@.len() as int + 1 <= levels,
        1 <= kids@.len() <= k,
        forall|i: int|
            0 <= i < kids@.len() ==> node_ok(#[trigger] kids@[i], anc@.len() as int + 1, levels as int, k),
        my_id as int + 1 + forest_bc(kids@) <= hi,
        hi <= usize::MAX as int,
        *old(num_leaves) + leaf_cnt(kids@) <= usize::MAX as int,
    ensures
        ({
            let chv = r.0@;
            &&& chv.ids.len() == kids@.len()
            &&& chv.features.len() == kids@.len()
            &&& chv.weight_bits.len() == kids@.len()
            &&& chv.cluster_size.len() == kids@.len()
            &&& r.1 as int == my_id as int + 1 + forest_bc(kids@)
            &&& forall|t: int|
                0 <= t < kids@.len() ==> slot_ok(
                    #[trigger] chv.ids[t],
                    my_id as int,
                    hi,
                    *final(num_leaves) as int,
                    levels as int,
                )
            &&& forall|t: int|
                0 <= t < kids@.len() ==> match #[trigger] kids@[t] {
                    TreeNode::Branch { .. } => chv.ids[t] == NodeIdView::Block(
                        ((my_id + 1 + forest_bc(kids@.take(t))) as usize),
                    ) && my_id + 1 + forest_bc(kids@.take(t)) < my_id + 1 + forest_bc(
                        kids@.take(t + 1),
                    ),
                    TreeNode::Leaf { .. } => chv.ids[t] matches NodeIdView::Leaf(p) && p
                        == anc@.push(p.last()),
                }
            &&& built_children_facts(chv, levels as int, k)
            &&& sum_cs(chv.cluster_size) == sizes_sum(kids@)
            &&& forall|t: int|
                0 <= t < kids@.len() ==> match #[trigger] chv.ids[t] {
                    NodeIdView::Leaf(p) => *old(num_leaves) <= p.last() && p.last() < *final(num_leaves),
                    NodeIdView::Block(_) => true,
                }
            &&& forall|w: int|
                *old(num_leaves) <= w < *final(num_leaves) ==> #[trigger] ids_word(chv.ids, w)
            &&& forall|t: int, t2: int|
                #![trigger chv.ids[t], chv.ids[t2]]
                0 <= t < kids@.len() && 0 <= t2 < kids@.len() && t != t2 ==> match (
                chv.ids[t],
                chv.ids[t2],
                ) {
                    (NodeIdView::Leaf(p), NodeIdView::Leaf(q)) => p.last() != q.last(),
                    _ => true,
                }
        }),
        *old(num_leaves) <= *final(num_leaves),
        *final(num_leaves) as int <= *old(num_leaves) + leaf_cnt(kids@),
{
    let ghost level: int = anc@.len() as int + 1;
    let ghost nl0: int = *old(num_leaves) as int;
    proof {
        lemma_forest_bc_nonneg(kids@);
        lemma_leaf_cnt_nonneg(kids@);
    }
    let mut features_c: Vec<Desc> = Vec::new();
    let mut weights_c: Vec<u32> = Vec::new();
    let mut sizes_c: Vec<usize> = Vec::new();
    let mut ids_c: Vec<NodeId> = Vec::new();
    let mut next_sub: usize = my_id + 1;
    let mut c: usize = 0;
    while c < kids.len()
        invariant
            c <= kids@.len(),
            features_c@.len() == c,
            weights_c@.len() == c,
            sizes_c@.len() == c,
            ids_c@.len() == c,
            level == anc@.len() + 1,
            1 <= level <= levels,
            1 <= kids@.len() <= k,
            forall|i: int|
                0 <= i < kids@.len() ==> node_ok(#[trigger] kids@[i], level, levels as int, k),
            my_id + 1 + forest_bc(kids@) <= hi,
            hi <= usize::MAX as int,
            next_sub as int == my_id + 1 + forest_bc(kids@.take(c as int)),
            nl0 <= *num_leaves as int,
            *num_leaves as int <= nl0 + leaf_cnt(kids@.take(c as int)),
            nl0 + leaf_cnt(kids@) <= usize::MAX as int,
            forall|t: int|
                0 <= t < c ==> slot_ok(
                    #[trigger] ids_c@[t]@,
                    my_id as int,
                    hi,
                    *num_leaves as int,
                    levels as int,
                ),
            forall|t: int|
                0 <= t < c ==> match #[trigger] kids@[t] {
                    TreeNode::Branch { .. } => ids_c@[t]@ == NodeIdView::Block(
                        ((my_id + 1 + forest_bc(kids@.take(t))) as usize),
                    ) && my_id + 1 + forest_bc(kids@.take(t)) < my_id + 1 + forest_bc(
                        kids@.take(t + 1),
                    ),
                    TreeNode::Leaf { .. } => ids_c@[t]@ matches NodeIdView::Leaf(p) && p
                        == anc@.push(p.last()),
                },
            forall|t: int| 0 <= t < c ==> (#[trigger] weights_c@[t]) == WEIGHT_ONE_BITS,
            forall|t: int|
                0 <= t < c ==> match (#[trigger] ids_c@[t])@ {
                    NodeIdView::Leaf(p) => 1 <= sizes_c@[t] && (p.len() == levels || sizes_c@[t]
                        == 1),
                    NodeIdView::Block(_) => 2 <= sizes_c@[t],
                },
            sum_cs(sizes_c@) == sizes_sum(kids@.take(c as int)),
            forall|t: int|
                0 <= t < c ==> match (#[trigger] ids_c@[t])@ {
                    NodeIdView::Leaf(p) => nl0 <= p.last(),
                    NodeIdView::Block(_) => true,
                },
            forall|w: int| nl0 <= w < *num_leaves ==> #[trigger] vec_ids_word(ids_c@, w),
            forall|t: int, t2: int|
                #![trigger ids_c@[t], ids_c@[t2]]
                0 <= t < t2 < c ==> match ((ids_c@[t])@, (ids_c@[t2])@) {
                    (NodeIdView::Leaf(p), NodeIdView::Leaf(q)) => p.last() != q.last(),
                    _ => true,
                },
        decreases kids@.len() - c,
    {
        proof {
            assert(kids@.take(c + 1).drop_last() =~= kids@.take(c as int));
            assert(kids@.take(c + 1).last() == kids@[c as int]);
            lemma_forest_bc_take(kids@, c + 1);
            lemma_forest_bc_nonneg(kids@.take(c as int));
            lemma_forest_bc_nonneg(kids@.take(c + 1));
            lemma_leaf_cnt_take(kids@, c + 1);
            lemma_leaf_cnt_nonneg(kids@.take(c as int));
            assert(node_ok(kids@[c as int], level, levels as int, k));
        }
        let ghost nl_pre: int = *num_leaves as int;
        let ghost sizes_pre = sizes_c@;
        let ghost ids_c_pre = ids_c@;
        match &kids[c] {
            TreeNode::Leaf { centroid, size } => {
                let mut path = anc.clone();
                proof {
                    assert(path@ =~= anc@);
                }
                path.push(*num_leaves);
                ids_c.push(NodeId::Leaf(path));
                *num_leaves = *num_leaves + 1;
                features_c.push(*centroid);
                weights_c.push(WEIGHT_ONE_BITS);
                sizes_c.push(*size);
                proof {
                    assert(sizes_c@.drop_last() =~= sizes_pre);
                    assert forall|t: int| 0 <= t < c + 1 implies slot_ok(
                        #[trigger] ids_c@[t]@,
                        my_id as int,
                        hi,
                        *num_leaves as int,
                        levels as int,
                    ) by {
                        if t < c {
                            assert(slot_ok(ids_c@[t]@, my_id as int, hi, nl_pre, levels as int));
                        }
                    }
                    assert forall|w: int| nl0 <= w < *num_leaves implies #[trigger] vec_ids_word(
                        ids_c@,
                        w,
                    ) by {
                        if w < nl_pre {
                            assert(vec_ids_word(ids_c_pre, w));
                            let t0 = choose|t0: int|
                                0 <= t0 < ids_c_pre.len() && (((#[trigger] ids_c_pre[t0])@) matches NodeIdView::Leaf(
                                    p,
                                ) && p.last() == w);
                            assert(ids_c@[t0] == ids_c_pre[t0]);
                        } else {
                            assert((ids_c@[c as int])@ matches NodeIdView::Leaf(p) && p.last()
                                == w);
                        }
                    }
                }
            },
            TreeNode::Branch { centroid, size, bc, kids: sub_kids } => {
                let ghost next_pre: int = next_sub as int;
                proof {
                    lemma_forest_bc_nonneg(sub_kids@);
                }
                ids_c.push(NodeId::Block(next_sub));
                next_sub = next_sub + *bc;
                features_c.push(*centroid);
                weights_c.push(WEIGHT_ONE_BITS);
                sizes_c.push(*size);
                proof {
                    assert(sizes_c@.drop_last() =~= sizes_pre);
                    assert(next_sub as int == my_id + 1 + forest_bc(kids@.take(c + 1)));
                    assert forall|t: int| 0 <= t < c + 1 implies slot_ok(
                        #[trigger] ids_c@[t]@,
                        my_id as int,
                        hi,
                        *num_leaves as int,
                        levels as int,
                    ) by {
                        if t < c {
                            assert(slot_ok(
                                ids_c@[t]@,
                                my_id as int,
                                hi,
                                *num_leaves as int,
                                levels as int,
                            ));
                        } else {
                            assert(my_id < next_pre && next_pre < hi);
                        }
                    }
                    assert forall|w: int| nl0 <= w < *num_leaves implies #[trigger] vec_ids_word(
                        ids_c@,
                        w,
                    ) by {
                        assert(vec_ids_word(ids_c_pre, w));
                        let t0 = choose|t0: int|
                            0 <= t0 < ids_c_pre.len() && (((#[trigger] ids_c_pre[t0])@) matches NodeIdView::Leaf(
                                p,
                            ) && p.last() == w);
                        assert(ids_c@[t0] == ids_c_pre[t0]);
                    }
                }
            },
        }
        c = c + 1;
    }
    proof {
        assert(kids@.take(kids@.len() as int) =~= kids@);
    }
    let ghost idsv_final = ids_c@;
    let ch = Children {
        features: features_c,
        weight_bits: weights_c,
        cluster_size: sizes_c,
        ids: ids_c,
    };
    proof {
        assert forall|t: int| 0 <= t < kids@.len() implies ch@.ids[t] == (
        #[trigger] idsv_final[t])@ by {}
        assert forall|w: int|
            nl0 <= w < *num_leaves implies #[trigger] ids_word(ch@.ids, w) by {
            assert(vec_ids_word(idsv_final, w));
            let t0 = choose|t0: int|
                0 <= t0 < idsv_final.len() && (((#[trigger] idsv_final[t0])@) matches NodeIdView::Leaf(
                    p,
                ) && p.last() == w);
            assert(ch@.ids[t0] == idsv_final[t0]@);
        }
    }
    (ch, next_sub)
}

/// Before a branch child's subtree is emitted at offset `sub_id`,
/// every slot that points at `sub_id` assigns it the child's path.
#[verifier::rlimit(100)]
proof fn lemma_child_call_agree(
    olds: Seq<Block>,
    bs: Seq<Block>,
    amap_cur: Seq<Seq<usize>>,
    kids: Seq<TreeNode>,
    anc: Seq<usize>,
    anc2: Seq<usize>,
    my_id: int,
    send: int,
    sub_id: int,
    child_end: int,
    c2: int,
)
    requires
        olds.len() == my_id,
        0 <= my_id < bs.len(),
        bs.len() == sub_id,
        sub_id <= send <= usize::MAX as int,
        forall|i: int| 0 <= i < my_id ==> bs[i] == olds[i],
        no_refs_inside(olds, my_id, send),
        0 <= c2 < kids.len(),
        kids[c2] matches TreeNode::Branch { .. },
        sub_id == my_id + 1 + forest_bc(kids.take(c2)),
        child_end == my_id + 1 + forest_bc(kids.take(c2 + 1)),
        child_end <= send,
        my_id + 1 + forest_bc(kids) <= send,
        bs[my_id]@.children.ids.len() == kids.len(),
        forall|t: int|
            0 <= t < kids.len() ==> match #[trigger] kids[t] {
                TreeNode::Branch { .. } => bs[my_id]@.children.ids[t] == NodeIdView::Block(
                    ((my_id + 1 + forest_bc(kids.take(t))) as usize),
                ) && my_id + 1 + forest_bc(kids.take(t)) < my_id + 1 + forest_bc(kids.take(t + 1)),
                TreeNode::Leaf { .. } => bs[my_id]@.children.ids[t] matches NodeIdView::Leaf(p),
            },
        forall|i: int, c: int|
            my_id < i < bs.len() && 0 <= c < bs[i]@.children.ids.len()
                ==> match #[trigger] bs[i]@.children.ids[c] {
                NodeIdView::Block(b) => my_id < (b as int) && (b as int) < bs.len(),
                NodeIdView::Leaf(_) => true,
            },
        amap_cur.len() == bs.len(),
        amap_cur[my_id] == anc,
        anc2 == anc.push(sub_id as usize),
    ensures
        refs_to_agree(bs, amap_cur, sub_id, anc2),
{
    assert forall|i: int, c: int|
        0 <= i < bs.len() && 0 <= c < bs[i]@.children.ids.len() implies match
        #[trigger] bs[i]@.children.ids[c] {
        NodeIdView::Block(b) => (b as int) == sub_id ==> amap_cur[i].push(b) == anc2,
        NodeIdView::Leaf(_) => true,
    } by {
        if i < my_id {
            assert(bs[i] == olds[i]);
            assert(bs[i]@.children.ids[c] == olds[i]@.children.ids[c]);
            assert(match olds[i]@.children.ids[c] {
                NodeIdView::Block(b) => !(my_id < (b as int) && (b as int) < send),
                NodeIdView::Leaf(_) => true,
            });
        } else if i == my_id {
            // Mention the child node so its recorded slot shape applies.
            let ghost kid_c = kids[c];
            lemma_forest_bc_nonneg(kids.take(c));
            lemma_forest_bc_take(kids, c);
            lemma_forest_bc_take(kids, c + 1);
            match kids[c] {
                TreeNode::Branch { .. } => {
                    if c < c2 {
                        lemma_forest_bc_take_range(kids, c + 1, c2);
                    } else if c > c2 {
                        lemma_forest_bc_take_range(kids, c2 + 1, c);
                    }
                },
                TreeNode::Leaf { .. } => {},
            }
        }
    }
}

/// Before a branch child's subtree is emitted at offset `sub_id`,
/// no slot points strictly inside the child's coming offset range.
#[verifier::rlimit(100)]
proof fn lemma_child_call_inside(
    olds: Seq<Block>,
    bs: Seq<Block>,
    kids: Seq<TreeNode>,
    my_id: int,
    send: int,
    sub_id: int,
    child_end: int,
    c2: int,
)
    requires
        olds.len() == my_id,
        0 <= my_id < bs.len(),
        bs.len() == sub_id,
        sub_id <= send <= usize::MAX as int,
        forall|i: int| 0 <= i < my_id ==> bs[i] == olds[i],
        no_refs_inside(olds, my_id, send),
        0 <= c2 < kids.len(),
        kids[c2] matches TreeNode::Branch { .. },
        sub_id == my_id + 1 + forest_bc(kids.take(c2)),
        child_end == my_id + 1 + forest_bc(kids.take(c2 + 1)),
        child_end <= send,
        my_id + 1 + forest_bc(kids) <= send,
        bs[my_id]@.children.ids.len() == kids.len(),
        forall|t: int|
            0 <= t < kids.len() ==> match #[trigger] kids[t] {
                TreeNode::Branch { .. } => bs[my_id]@.children.ids[t] == NodeIdView::Block(
                    ((my_id + 1 + forest_bc(kids.take(t))) as usize),
                ) && my_id + 1 + forest_bc(kids.take(t)) < my_id + 1 + forest_bc(kids.take(t + 1)),
                TreeNode::Leaf { .. } => bs[my_id]@.children.ids[t] matches NodeIdView::Leaf(p),
            },
        forall|i: int, c: int|
            my_id < i < bs.len() && 0 <= c < bs[i]@.children.ids.len()
                ==> match #[trigger] bs[i]@.children.ids[c] {
                NodeIdView::Block(b) => my_id < (b as int) && (b as int) < bs.len(),
                NodeIdView::Leaf(_) => true,
            },
    ensures
        no_refs_inside(bs, sub_id, child_end),
{
    assert forall|i: int, c: int|
        0 <= i < bs.len() && 0 <= c < bs[i]@.children.ids.len() implies match
        #[trigger] bs[i]@.children.ids[c] {
        NodeIdView::Block(b) => !((sub_id < (b as int)) && ((b as int) < child_end)),
        NodeIdView::Leaf(_) => true,
    } by {
        if i < my_id {
            assert(bs[i] == olds[i]);
            assert(bs[i]@.children.ids[c] == olds[i]@.children.ids[c]);
            assert(match olds[i]@.children.ids[c] {
                NodeIdView::Block(b) => !(my_id < (b as int) && (b as int) < send),
                NodeIdView::Leaf(_) => true,
            });
        } else if i == my_id {
            // Mention the child node so its recorded slot shape applies.
            let ghost kid_c = kids[c];
            lemma_forest_bc_nonneg(kids.take(c));
            lemma_forest_bc_take(kids, c);
            lemma_forest_bc_take(kids, c + 1);
            match kids[c] {
                TreeNode::Branch { .. } => {
                    if c < c2 {
                        lemma_forest_bc_take_range(kids, c + 1, c2);
                    } else if c > c2 {
                        lemma_forest_bc_take_range(kids, c2 + 1, c);
                    }
                },
                TreeNode::Leaf { .. } => {},
            }
        }
    }
}

/// After the new block lands, the emitted word ids stay pairwise
/// distinct and exactly cover the grown count.
#[verifier::rlimit(100)]
proof fn lemma_words_after_push(
    olds: Seq<Block>,
    news: Seq<Block>,
    idsv: Seq<NodeIdView>,
    my_id: int,
    nl0: int,
    nl: int,
)
    requires
        my_id == olds.len(),
        news.len() == my_id + 1,
        forall|i: int| 0 <= i < my_id ==> news[i] == olds[i],
        news[my_id]@.children.ids.len() == idsv.len(),
        forall|t: int| 0 <= t < idsv.len() ==> news[my_id]@.children.ids[t] == #[trigger] idsv[t],
        blocks_covered(olds, nl0),
        blocks_distinct(olds),
        forall|i: int, c: int|
            0 <= i < my_id && 0 <= c < olds[i]@.children.ids.len()
                ==> match #[trigger] olds[i]@.children.ids[c] {
                NodeIdView::Leaf(p) => p.last() < nl0,
                NodeIdView::Block(_) => true,
            },
        nl0 <= nl,
        forall|t: int|
            0 <= t < idsv.len() ==> match #[trigger] idsv[t] {
                NodeIdView::Leaf(p) => nl0 <= p.last() && p.last() < nl,
                NodeIdView::Block(_) => true,
            },
        forall|w: int| nl0 <= w < nl ==> #[trigger] ids_word(idsv, w),
        forall|t: int, t2: int|
            #![trigger idsv[t], idsv[t2]]
            0 <= t < idsv.len() && 0 <= t2 < idsv.len() && t != t2 ==> match (idsv[t], idsv[t2]) {
                (NodeIdView::Leaf(p), NodeIdView::Leaf(q)) => p.last() != q.last(),
                _ => true,
            },
    ensures
        blocks_covered(news, nl),
        blocks_distinct(news),
{
    assert(blocks_covered(news, nl)) by {
        assert forall|w: int| 0 <= w < nl implies #[trigger] blocks_word(news, w) by {
            if w < nl0 {
                assert(blocks_word(olds, w));
                let (i0, c0) = choose|i0: int, c0: int|
                    0 <= i0 < olds.len() && 0 <= c0 < olds[i0]@.children.ids.len() && ((
                    #[trigger] olds[i0]@.children.ids[c0]) matches NodeIdView::Leaf(p) && p.last()
                        == w);
                assert(news[i0]@.children.ids[c0] == olds[i0]@.children.ids[c0]);
            } else {
                assert(ids_word(idsv, w));
                let t0 = choose|t0: int|
                    0 <= t0 < idsv.len() && ((#[trigger] idsv[t0]) matches NodeIdView::Leaf(p)
                        && p.last() == w);
                assert(news[my_id]@.children.ids[t0] == idsv[t0]);
            }
        }
    }
    assert(blocks_distinct(news)) by {
        assert forall|i: int, c: int, i2: int, c2: int|
            #![trigger news[i]@.children.ids[c], news[i2]@.children.ids[c2]]
            0 <= i < news.len() && 0 <= c < news[i]@.children.ids.len() && 0 <= i2 < news.len()
                && 0 <= c2 < news[i2]@.children.ids.len() && (i != i2 || c != c2) implies match (
            news[i]@.children.ids[c],
            news[i2]@.children.ids[c2],
        ) {
            (NodeIdView::Leaf(p), NodeIdView::Leaf(q)) => p.last() != q.last(),
            _ => true,
        } by {
            if i < my_id && i2 < my_id {
                assert(news[i]@.children.ids[c] == olds[i]@.children.ids[c]);
                assert(news[i2]@.children.ids[c2] == olds[i2]@.children.ids[c2]);
                assert(match (olds[i]@.children.ids[c], olds[i2]@.children.ids[c2]) {
                    (NodeIdView::Leaf(p), NodeIdView::Leaf(q)) => p.last() != q.last(),
                    _ => true,
                });
            } else if i < my_id && i2 == my_id {
                assert(news[i]@.children.ids[c] == olds[i]@.children.ids[c]);
                assert(match olds[i]@.children.ids[c] {
                    NodeIdView::Leaf(p) => p.last() < nl0,
                    NodeIdView::Block(_) => true,
                });
                assert(news[i2]@.children.ids[c2] == idsv[c2]);
            } else if i == my_id && i2 < my_id {
                assert(news[i2]@.children.ids[c2] == olds[i2]@.children.ids[c2]);
                assert(match olds[i2]@.children.ids[c2] {
                    NodeIdView::Leaf(p) => p.last() < nl0,
                    NodeIdView::Block(_) => true,
                });
                assert(news[i]@.children.ids[c] == idsv[c]);
            } else {
                assert(news[i]@.children.ids[c] == idsv[c]);
                assert(news[i2]@.children.ids[c2] == idsv[c2]);
            }
        }
    }
}

/// Emit the block whose children are `kids`, then recursively the
/// blocks of all its branch children, appending them in id order:
/// the block emitted at offset `i` carries id `i`. `anc` is the
/// block's path from the root (root id excluded, own id included for
/// non-root blocks), `hi` the total block count the whole flattening
/// will reach, and `amap` the paths assigned to the blocks emitted
/// so far; the returned assignment extends it over the new blocks.
#[verifier::rlimit(100)]
#[verifier::spinoff_prover]
fn flatten_block(
    blocks: &mut Vec<Block>,
    num_leaves: &mut usize,
    kids: &Vec<TreeNode>,
    anc: &Vec<usize>,
    levels: usize,
    Ghost(k): Ghost<int>,
    Ghost(hi): Ghost<int>,
    Ghost(amap): Ghost<Seq<Seq<usize>>>,
) -> (amap_out: Ghost<Seq<Seq<usize>>>)
    requires
        anc@.len() + 1 <= levels,
        1 <= kids@.len(),
        kids@.len() <= k,
        forall|i: int|
            0 <= i < kids@.len() ==> node_ok(#[trigger] kids@[i], anc@.len() as int + 1, levels as int, k),
        old(blocks)@.len() + 1 + forest_bc(kids@) <= hi,
        hi <= usize::MAX as int,
        forall|i: int|
            0 <= i < old(blocks)@.len() ==> built_block_ok(
                #[trigger] old(blocks)@[i]@,
                i,
                hi,
                *old(num_leaves) as int,
                levels as int,
            ),
        forall|i: int|
            0 <= i < old(blocks)@.len() ==> built_children_facts(
                (#[trigger] old(blocks)@[i])@.children,
                levels as int,
                k,
            ),
        *old(num_leaves) + forest_size(kids@, anc@.len() as int + 1, levels as int) <= usize::MAX as int,
        amap.len() == old(blocks)@.len(),
        amap_ok(old(blocks)@, amap),
        refs_to_agree(old(blocks)@, amap, old(blocks)@.len() as int, anc@),
        no_refs_inside(
            old(blocks)@,
            old(blocks)@.len() as int,
            old(blocks)@.len() + 1 + forest_bc(kids@),
        ),
        blocks_covered(old(blocks)@, *old(num_leaves) as int),
        blocks_distinct(old(blocks)@),
    ensures
        final(blocks)@.len() == old(blocks)@.len() + 1 + forest_bc(kids@),
        forall|i: int| 0 <= i < old(blocks)@.len() ==> final(blocks)@[i] == old(blocks)@[i],
        forall|i: int|
            0 <= i < final(blocks)@.len() ==> built_block_ok(
                #[trigger] final(blocks)@[i]@,
                i,
                hi,
                *final(num_leaves) as int,
                levels as int,
            ),
        forall|i: int|
            0 <= i < final(blocks)@.len() ==> built_children_facts(
                (#[trigger] final(blocks)@[i])@.children,
                levels as int,
                k,
            ),
        sum_cs(final(blocks)@[old(blocks)@.len() as int]@.children.cluster_size) == sizes_sum(
            kids@,
        ),
        blocks_covered(final(blocks)@, *final(num_leaves) as int),
        blocks_distinct(final(blocks)@),
        *old(num_leaves) <= *final(num_leaves),
        *final(num_leaves) <= *old(num_leaves) + forest_size(
            kids@,
            anc@.len() as int + 1,
            levels as int,
        ),
        amap_out@.len() == final(blocks)@.len(),
        amap_out@.subrange(0, old(blocks)@.len() as int) == amap,
        amap_out@[old(blocks)@.len() as int] == anc@,
        amap_ok(final(blocks)@, amap_out@),
        forall|i: int, c: int|
            old(blocks)@.len() <= i < final(blocks)@.len() && 0 <= c
                < final(blocks)@[i]@.children.ids.len()
                ==> match #[trigger] final(blocks)@[i]@.children.ids[c] {
                NodeIdView::Block(b) => old(blocks)@.len() < (b as int) && (b as int) < final(blocks)@.len(),
                NodeIdView::Leaf(_) => true,
            },
    decreases levels - anc@.len(),
{
    let ghost level: int = anc@.len() as int + 1;
    let ghost nl0: int = *old(num_leaves) as int;
    let ghost send: int = old(blocks)@.len() + 1 + forest_bc(kids@);
    let my_id: usize = blocks.len();
    proof {
        lemma_forest_bc_nonneg(kids@);
        lemma_forest_size_nonneg(kids@, level, levels as int);
        lemma_branch_fs_nonneg(kids@, level, levels as int);
        lemma_leaf_branch_budget(kids@, level, levels as int);
        lemma_leaf_cnt_nonneg(kids@);
    }
    let (ch, built_next) = build_child_arrays(
        kids,
        anc,
        num_leaves,
        my_id,
        levels,
        Ghost(k),
        Ghost(hi),
    );
    let ghost idsv: Seq<NodeIdView> = ch@.ids;
    let blk = Block { id: NodeId::Block(my_id), children: ch };
    blocks.push(blk);
    let ghost mut amap_cur: Seq<Seq<usize>> = amap.push(anc@);
    proof {
        assert(blocks@[my_id as int] == blocks@.last());
        lemma_built_after_push(
            old(blocks)@,
            blocks@,
            idsv,
            my_id as int,
            hi,
            nl0,
            *num_leaves as int,
            levels as int,
        );
        assert(amap_cur.subrange(0, my_id as int) =~= amap);
        lemma_amap_after_push(
            old(blocks)@,
            blocks@,
            amap,
            amap_cur,
            anc@,
            kids@,
            idsv,
            my_id as int,
        );
        assert forall|i: int| 0 <= i < blocks@.len() implies built_children_facts(
            (#[trigger] blocks@[i])@.children,
            levels as int,
            k,
        ) by {
            if i < my_id {
                assert(blocks@[i] == old(blocks)@[i]);
                assert(built_children_facts(old(blocks)@[i]@.children, levels as int, k));
            } else {
                assert(blocks@[i] == blocks@.last());
            }
        }
        assert forall|i: int, c: int|
            0 <= i < my_id && 0 <= c < old(blocks)@[i]@.children.ids.len() implies match
            #[trigger] old(blocks)@[i]@.children.ids[c] {
            NodeIdView::Leaf(p) => p.last() < nl0,
            NodeIdView::Block(_) => true,
        } by {
            assert(built_block_ok(old(blocks)@[i]@, i, hi, nl0, levels as int));
            assert(slot_ok(old(blocks)@[i]@.children.ids[c], i, hi, nl0, levels as int));
        }
        lemma_words_after_push(
            old(blocks)@,
            blocks@,
            idsv,
            my_id as int,
            nl0,
            *num_leaves as int,
        );
    }
    let mut c2: usize = 0;
    let mut sub_id: usize = my_id + 1;
    while c2 < kids.len()
        invariant
            c2 <= kids@.len(),
            level == anc@.len() + 1,
            1 <= level <= levels,
            forall|i: int|
                0 <= i < kids@.len() ==> node_ok(#[trigger] kids@[i], level, levels as int, k),
            my_id + 1 + forest_bc(kids@) <= hi,
            send == my_id + 1 + forest_bc(kids@),
            hi <= usize::MAX as int,
            sub_id as int == my_id + 1 + forest_bc(kids@.take(c2 as int)),
            blocks@.len() == sub_id,
            my_id < blocks@.len(),
            blocks@.len() <= send,
            amap.len() == my_id as int,
            forall|i: int| 0 <= i < my_id ==> blocks@[i] == old(blocks)@[i],
            forall|i: int|
                0 <= i < blocks@.len() ==> built_block_ok(
                    #[trigger] blocks@[i]@,
                    i,
                    hi,
                    *num_leaves as int,
                    levels as int,
                ),
            forall|i: int|
                0 <= i < blocks@.len() ==> built_children_facts(
                    (#[trigger] blocks@[i])@.children,
                    levels as int,
                    k,
                ),
            sum_cs(blocks@[my_id as int]@.children.cluster_size) == sizes_sum(kids@),
            blocks_covered(blocks@, *num_leaves as int),
            blocks_distinct(blocks@),
            nl0 <= *num_leaves as int,
            *num_leaves as int <= nl0 + leaf_cnt(kids@) + branch_fs(
                kids@.take(c2 as int),
                level,
                levels as int,
            ),
            nl0 + forest_size(kids@, level, levels as int) <= usize::MAX as int,
            leaf_cnt(kids@) + branch_fs(kids@, level, levels as int) <= forest_size(
                kids@,
                level,
                levels as int,
            ),
            old(blocks)@.len() == my_id as int,
            no_refs_inside(old(blocks)@, my_id as int, send),
            amap_cur.len() == blocks@.len(),
            amap_cur.subrange(0, my_id as int) == amap,
            amap_cur[my_id as int] == anc@,
            amap_ok(blocks@, amap_cur),
            forall|i: int, c: int|
                my_id < i < blocks@.len() && 0 <= c < blocks@[i]@.children.ids.len()
                    ==> match #[trigger] blocks@[i]@.children.ids[c] {
                    NodeIdView::Block(b) => my_id < (b as int) && (b as int) < blocks@.len(),
                    NodeIdView::Leaf(_) => true,
                },
            blocks@[my_id as int]@.children.ids.len() == kids@.len(),
            forall|t: int|
                0 <= t < kids@.len() ==> match #[trigger] kids@[t] {
                    TreeNode::Branch { .. } => blocks@[my_id as int]@.children.ids[t]
                        == NodeIdView::Block(((my_id + 1 + forest_bc(kids@.take(t))) as usize))
                        && my_id + 1 + forest_bc(kids@.take(t)) < my_id + 1 + forest_bc(
                        kids@.take(t + 1),
                    ),
                    TreeNode::Leaf { .. } => blocks@[my_id as int]@.children.ids[t] matches NodeIdView::Leaf(
                        p,
                    ) && p == anc@.push(p.last()),
                },
        decreases kids@.len() - c2,
    {
        proof {
            assert(kids@.take(c2 + 1).drop_last() =~= kids@.take(c2 as int));
            assert(kids@.take(c2 + 1).last() == kids@[c2 as int]);
            lemma_forest_bc_take(kids@, c2 + 1);
            lemma_forest_bc_nonneg(kids@.take(c2 as int));
            lemma_branch_fs_take(kids@, c2 + 1, level, levels as int);
            lemma_branch_fs_nonneg(kids@.take(c2 as int), level, levels as int);
            assert(node_ok(kids@[c2 as int], level, levels as int, k));
        }
        match &kids[c2] {
            TreeNode::Leaf { .. } => {},
            TreeNode::Branch { bc, kids: sub_kids, .. } => {
                let mut anc2 = anc.clone();
                proof {
                    assert(anc2@ =~= anc@);
                }
                anc2.push(sub_id);
                let ghost child_end: int = sub_id as int + 1 + forest_bc(sub_kids@);
                proof {
                    lemma_forest_bc_nonneg(sub_kids@);
                    assert(child_end == my_id + 1 + forest_bc(kids@.take(c2 + 1)));
                    lemma_forest_bc_take_range(kids@, c2 + 1, kids@.len() as int);
                    assert(kids@.take(kids@.len() as int) =~= kids@);
                    assert(child_end <= send);
                    lemma_child_call_agree(
                        old(blocks)@,
                        blocks@,
                        amap_cur,
                        kids@,
                        anc@,
                        anc2@,
                        my_id as int,
                        send,
                        sub_id as int,
                        child_end,
                        c2 as int,
                    );
                    lemma_child_call_inside(
                        old(blocks)@,
                        blocks@,
                        kids@,
                        my_id as int,
                        send,
                        sub_id as int,
                        child_end,
                        c2 as int,
                    );
                }
                let ghost amap_pre = amap_cur;
                let ghost blocks_pre = blocks@;
                let amap_ret = flatten_block(
                    blocks,
                    num_leaves,
                    sub_kids,
                    &anc2,
                    levels,
                    Ghost(k),
                    Ghost(hi),
                    Ghost(amap_cur),
                );
                proof {
                    amap_cur = amap_ret@;
                    assert(blocks@[my_id as int] == blocks_pre[my_id as int]);
                    assert(amap_cur.subrange(0, my_id as int) =~= amap) by {
                        assert(amap_cur.subrange(0, blocks_pre.len() as int) == amap_pre);
                        assert(amap_cur.subrange(0, my_id as int) =~= amap_pre.subrange(
                            0,
                            my_id as int,
                        ));
                    }
                    assert(amap_cur[my_id as int] == amap_pre[my_id as int]) by {
                        assert(amap_cur.subrange(0, blocks_pre.len() as int) == amap_pre);
                        assert(amap_cur.subrange(0, blocks_pre.len() as int)[my_id as int]
                            == amap_pre[my_id as int]);
                    }
                }
                sub_id = sub_id + *bc;
            },
        }
        c2 = c2 + 1;
    }
    proof {
        assert(kids@.take(kids@.len() as int) =~= kids@);
        lemma_branch_fs_take(kids@, kids@.len() as int, level, levels as int);
        lemma_subtree_refs(blocks@, kids@, my_id as int, levels as int);
    }
    Ghost(amap_cur)
}

impl Vocabulary {
    /// Build a vocabulary from a collection of descriptors.
    ///
    /// Recursive hierarchical k-means in Hamming space: each
    /// recursion step partitions its descriptors into at most `k`
    /// clusters (k-means++-style seeding, capped Lloyd iteration,
    /// per-bit majority-vote centroids); a cluster becomes a word
    /// (leaf) at depth `levels` or when it holds a single member,
    /// and a deeper block otherwise. Blocks are then laid out so
    /// that the block with id `i` sits at offset `i` and the root at
    /// offset 0, which the descent in `transform` relies on.
    ///
    /// Args:
    /// - `k`: branching factor, at least 2
    /// - `levels`: maximum depth, at least 1
    ///
    /// The last precondition is the machine limit: every tree node
    /// needs its own id below `usize::MAX`.
    pub fn create(features: &Vec<Desc>, k: usize, levels: usize) -> (v: Vocabulary)
        requires
            1 <= features@.len(),
            2 <= k,
            1 <= levels,
            features@.len() * (levels as int) + 1 <= usize::MAX as int,
        ensures
            voc_wf(v@),
            paths_consistent(v@),
            v@.k == k,
            v@.levels == levels,
            levels == 1 ==> v@.blocks.len() == 1,
            forall|i: int|
                0 <= i < v@.blocks.len() ==> built_children_facts(
                    (#[trigger] v@.blocks[i]).children,
                    levels as int,
                    k as int,
                ),
            sum_cs(v@.blocks[0].children.cluster_size) == features@.len(),
            words_covered(v@),
            leaf_ids_distinct(v@),
    {
        let mut rng = new_rng();
        let kids = make_children(features, k, levels, 1, &mut rng);
        let ghost hi: int = 1 + forest_bc(kids@);
        let mut blocks: Vec<Block> = Vec::new();
        let mut num_leaves: usize = 0;
        let anc: Vec<usize> = Vec::new();
        proof {
            lemma_forest_bc_nonneg(kids@);
            lemma_forest_size_nonneg(kids@, 1, levels as int);
            assert(forest_bc(kids@) <= features@.len() * ((levels - 1) as int));
            assert(features@.len() * ((levels - 1) as int) <= features@.len() * (
            levels as int)) by (nonlinear_arith)
                requires
                    1 <= features@.len(),
                    1 <= levels,
            ;
        }
        let amap_full = flatten_block(
            &mut blocks,
            &mut num_leaves,
            &kids,
            &anc,
            levels,
            Ghost(k as int),
            Ghost(hi),
            Ghost(Seq::empty()),
        );
        let num_blocks: usize = blocks.len() - 1;
        let ghost bsv = blocks@;
        let ghost vv = VocabularyView {
            blocks: blocks@.map(|i: int, b: Block| b@),
            k,
            levels,
            num_blocks,
            num_leaves,
        };
        proof {
            if levels == 1 {
                lemma_forest_bc_all_leaves(kids@, 1, k as int);
            }
            assert forall|i: int| 0 <= i < vv.blocks.len() implies block_wf(vv, i) by {
                assert(vv.blocks[i] == blocks@[i]@);
                assert(built_block_ok(blocks@[i]@, i, hi, num_leaves as int, levels as int));
                assert forall|c: int|
                    0 <= c < vv.blocks[i].children.ids.len() implies child_wf(vv, i, c) by {
                    assert(slot_ok(
                        blocks@[i]@.children.ids[c],
                        i,
                        hi,
                        num_leaves as int,
                        levels as int,
                    ));
                }
            }
            assert(voc_wf(vv));
            assert(paths_consistent_with(vv, amap_full@)) by {
                assert(amap_full@[0] =~= Seq::<usize>::empty());
                assert forall|i: int, c: int|
                    0 <= i < vv.blocks.len() && 0 <= c < vv.blocks[i].children.ids.len() implies
                    match #[trigger] vv.blocks[i].children.ids[c] {
                    NodeIdView::Block(b) => 0 <= b < amap_full@.len() && amap_full@[b as int]
                        == amap_full@[i].push(b),
                    NodeIdView::Leaf(p) => p == amap_full@[i].push(p.last()),
                } by {
                    assert(vv.blocks[i] == bsv[i]@);
                    assert(block_wf(vv, i));
                    assert(child_wf(vv, i, c));
                }
            }
            assert(paths_consistent(vv));
            assert forall|i: int| 0 <= i < vv.blocks.len() implies built_children_facts(
                (#[trigger] vv.blocks[i]).children,
                levels as int,
                k as int,
            ) by {
                assert(vv.blocks[i] == blocks@[i]@);
                assert(built_children_facts(blocks@[i]@.children, levels as int, k as int));
            }
            assert(vv.blocks[0].children.cluster_size == blocks@[0]@.children.cluster_size);
            assert(words_covered(vv)) by {
                assert forall|w: int| 0 <= w < vv.num_leaves implies #[trigger] word_covered(
                    vv,
                    w,
                ) by {
                    assert(blocks_word(blocks@, w));
                    let (i0, c0) = choose|i0: int, c0: int|
                        0 <= i0 < blocks@.len() && 0 <= c0 < blocks@[i0]@.children.ids.len() && ((
                        #[trigger] blocks@[i0]@.children.ids[c0]) matches NodeIdView::Leaf(p)
                            && p.last() == w);
                    assert(vv.blocks[i0] == blocks@[i0]@);
                    assert(vv.blocks[i0].children.ids[c0] == blocks@[i0]@.children.ids[c0]);
                    assert(word_in_block(vv, w, i0));
                }
            }
            assert(leaf_ids_distinct(vv)) by {
                assert forall|i: int, c: int, i2: int, c2: int|
                    #![trigger vv.blocks[i].children.ids[c], vv.blocks[i2].children.ids[c2]]
                    0 <= i < vv.blocks.len() && 0 <= c < vv.blocks[i].children.ids.len() && 0 <= i2
                        < vv.blocks.len() && 0 <= c2 < vv.blocks[i2].children.ids.len() && (i != i2
                        || c != c2) implies match (
                    vv.blocks[i].children.ids[c],
                    vv.blocks[i2].children.ids[c2],
                ) {
                    (NodeIdView::Leaf(p), NodeIdView::Leaf(q)) => p.last() != q.last(),
                    _ => true,
                } by {
                    assert(vv.blocks[i] == blocks@[i]@);
                    assert(vv.blocks[i2] == blocks@[i2]@);
                    assert(match (blocks@[i]@.children.ids[c], blocks@[i2]@.children.ids[c2]) {
                        (NodeIdView::Leaf(p), NodeIdView::Leaf(q)) => p.last() != q.last(),
                        _ => true,
                    });
                }
            }
        }
        let v = Vocabulary::assemble(blocks, k, levels, num_blocks, num_leaves);
        v
    }
}

} // verus!
