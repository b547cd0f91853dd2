use vstd::prelude::*;

use vstd::bytes::{
    lemma_auto_spec_u64_to_from_le_bytes, spec_u64_from_le_bytes, spec_u64_to_le_bytes,
    u64_from_le_bytes, u64_to_le_bytes,
};
use vstd::slice::slice_subrange;

use crate::vocab::{
    block_wf, child_wf, voc_wf, Block, BlockView, BowErr, Children, ChildrenView, NodeId,
    NodeIdView, Vocabulary, VocabularyView,
};
use crate::desc::Desc;

verus! {

/// Signature the native payload starts with.
pub const VOC_MAGIC: u64 = 0x31_43_4f_56_57_4f_42_41;

pub open spec fn fits_usize(x: u64) -> bool {
    x <= usize::MAX as u64
}

/// Parse an 8-byte little-endian integer.
pub open spec fn p_u64(b: Seq<u8>, pos: int) -> Option<(u64, int)> {
    if 0 <= pos && pos + 8 <= b.len() {
        Some((spec_u64_from_le_bytes(b.subrange(pos, pos + 8)), pos + 8))
    } else {
        None
    }
}

/// Parse one raw descriptor.
pub open spec fn p_bytes32(b: Seq<u8>, pos: int) -> Option<(Seq<u8>, int)> {
    if 0 <= pos && pos + 32 <= b.len() {
        Some((b.subrange(pos, pos + 32), pos + 32))
    } else {
        None
    }
}

/// Parse `j` path entries.
pub open spec fn p_path(b: Seq<u8>, pos: int, j: nat) -> Option<(Seq<usize>, int)>
    decreases j,
{
    if j == 0 {
        Some((Seq::empty(), pos))
    } else {
        match p_path(b, pos, (j - 1) as nat) {
            None => None,
            Some((s, m)) => match p_u64(b, m) {
                None => None,
                Some((x, e)) => if fits_usize(x) {
                    Some((s.push(x as usize), e))
                } else {
                    None
                },
            },
        }
    }
}

/// Parse a node id: a tag, then a block offset or a leaf path.
pub open spec fn p_node_id(b: Seq<u8>, pos: int) -> Option<(NodeIdView, int)> {
    match p_u64(b, pos) {
        None => None,
        Some((tag, m)) => if tag == 0 {
            match p_u64(b, m) {
                None => None,
                Some((x, e)) => if fits_usize(x) {
                    Some((NodeIdView::Block(x as usize), e))
                } else {
                    None
                },
            }
        } else if tag == 1 {
            match p_u64(b, m) {
                None => None,
                Some((plen, m2)) => match p_path(b, m2, plen as nat) {
                    None => None,
                    Some((p, e)) => Some((NodeIdView::Leaf(p), e)),
                },
            }
        } else {
            None
        },
    }
}

/// Parse one child slot: centroid, weight bits, cluster size, id.
pub open spec fn p_child(b: Seq<u8>, pos: int) -> Option<((Seq<u8>, u32, usize, NodeIdView), int)> {
    match p_bytes32(b, pos) {
        None => None,
        Some((d, m1)) => match p_u64(b, m1) {
            None => None,
            Some((w, m2)) => if w <= u32::MAX as u64 {
                match p_u64(b, m2) {
                    None => None,
                    Some((cs, m3)) => if fits_usize(cs) {
                        match p_node_id(b, m3) {
                            None => None,
                            Some((id, e)) => Some(((d, w as u32, cs as usize, id), e)),
                        }
                    } else {
                        None
                    },
                }
            } else {
                None
            },
        },
    }
}

pub open spec fn empty_children() -> ChildrenView {
    ChildrenView {
        features: Seq::empty(),
        weight_bits: Seq::empty(),
        cluster_size: Seq::empty(),
        ids: Seq::empty(),
    }
}

pub open spec fn push_child(ch: ChildrenView, c: (Seq<u8>, u32, usize, NodeIdView)) -> ChildrenView {
    ChildrenView {
        features: ch.features.push(c.0),
        weight_bits: ch.weight_bits.push(c.1),
        cluster_size: ch.cluster_size.push(c.2),
        ids: ch.ids.push(c.3),
    }
}

/// Parse `j` child slots.
pub open spec fn p_children(b: Seq<u8>, pos: int, j: nat) -> Option<(ChildrenView, int)>
    decreases j,
{
    if j == 0 {
        Some((empty_children(), pos))
    } else {
        match p_children(b, pos, (j - 1) as nat) {
            None => None,
            Some((ch, m)) => match p_child(b, m) {
                None => None,
                Some((c, e)) => Some((push_child(ch, c), e)),
            },
        }
    }
}

/// Parse the block at offset `i` of the table: its child count, then
/// its children. The id is not stored; the offset is the id.
pub open spec fn p_block(b: Seq<u8>, pos: int, i: int) -> Option<(BlockView, int)> {
    match p_u64(b, pos) {
        None => None,
        Some((cnt, m)) => match p_children(b, m, cnt as nat) {
            None => None,
            Some((ch, e)) => Some(
                (BlockView { id: NodeIdView::Block(i as usize), children: ch }, e),
            ),
        },
    }
}

/// Parse the first `j` blocks of the table.
pub open spec fn p_blocks(b: Seq<u8>, pos: int, j: nat) -> Option<(Seq<BlockView>, int)>
    decreases j,
{
    if j == 0 {
        Some((Seq::empty(), pos))
    } else {
        match p_blocks(b, pos, (j - 1) as nat) {
            None => None,
            Some((bs, m)) => match p_block(b, m, j - 1) {
                None => None,
                Some((blk, e)) => Some((bs.push(blk), e)),
            },
        }
    }
}

/// What a native payload means: the signature, the five counters,
/// the block table, nothing after it. Well-formedness is checked
/// separately by `decode`.
pub open spec fn spec_decode(b: Seq<u8>) -> Option<VocabularyView> {
    match p_u64(b, 0) {
        None => None,
        Some((magic, m0)) => if magic == VOC_MAGIC {
            match p_u64(b, m0) {
                None => None,
                Some((k, m1)) => if fits_usize(k) {
                    match p_u64(b, m1) {
                        None => None,
                        Some((levels, m2)) => if fits_usize(levels) {
                            match p_u64(b, m2) {
                                None => None,
                                Some((num_blocks, m3)) => if fits_usize(num_blocks) {
                                    match p_u64(b, m3) {
                                        None => None,
                                        Some((num_leaves, m4)) => if fits_usize(num_leaves) {
                                            match p_u64(b, m4) {
                                                None => None,
                                                Some((nblocks, m5)) => if fits_usize(nblocks) {
                                                    match p_blocks(b, m5, nblocks as nat) {
                                                        None => None,
                                                        Some((bs, e)) => if e == b.len() {
                                                            Some(
                                                                (VocabularyView {
                                                                    blocks: bs,
                                                                    k: k as usize,
                                                                    levels: levels as usize,
                                                                    num_blocks: num_blocks as usize,
                                                                    num_leaves: num_leaves as usize,
                                                                }),
                                                            )
                                                        } else {
                                                            None
                                                        },
                                                    }
                                                } else {
                                                    None
                                                },
                                            }
                                        } else {
                                            None
                                        },
                                    }
                                } else {
                                    None
                                },
                            }
                        } else {
                            None
                        },
                    }
                } else {
                    None
                },
            }
        } else {
            None
        },
    }
}

/// A buffer extends another when the shorter one is its prefix.
pub open spec fn extends(b2: Seq<u8>, b: Seq<u8>) -> bool {
    b2.len() >= b.len() && b2.subrange(0, b.len() as int) == b
}

proof fn lemma_extends_refl(b: Seq<u8>)
    ensures
        extends(b, b),
{
    assert(b.subrange(0, b.len() as int) =~= b);
}

proof fn lemma_p_u64_frame(b: Seq<u8>, b2: Seq<u8>, pos: int)
    requires
        extends(b2, b),
        p_u64(b, pos) is Some,
    ensures
        p_u64(b2, pos) == p_u64(b, pos),
{
    assert(b2.subrange(pos, pos + 8) =~= b.subrange(pos, pos + 8));
}

proof fn lemma_p_bytes32_frame(b: Seq<u8>, b2: Seq<u8>, pos: int)
    requires
        extends(b2, b),
        p_bytes32(b, pos) is Some,
    ensures
        p_bytes32(b2, pos) == p_bytes32(b, pos),
{
    assert(b2.subrange(pos, pos + 32) =~= b.subrange(pos, pos + 32));
}

proof fn lemma_p_path_frame(b: Seq<u8>, b2: Seq<u8>, pos: int, j: nat)
    requires
        extends(b2, b),
        p_path(b, pos, j) is Some,
    ensures
        p_path(b2, pos, j) == p_path(b, pos, j),
    decreases j,
{
    if j != 0 {
        lemma_p_path_frame(b, b2, pos, (j - 1) as nat);
        let m = (p_path(b, pos, (j - 1) as nat)->0).1;
        lemma_p_u64_frame(b, b2, m);
    }
}

proof fn lemma_p_node_id_frame(b: Seq<u8>, b2: Seq<u8>, pos: int)
    requires
        extends(b2, b),
        p_node_id(b, pos) is Some,
    ensures
        p_node_id(b2, pos) == p_node_id(b, pos),
{
    lemma_p_u64_frame(b, b2, pos);
    let (tag, m) = p_u64(b, pos)->0;
    if tag == 0 {
        lemma_p_u64_frame(b, b2, m);
    } else {
        lemma_p_u64_frame(b, b2, m);
        let (plen, m2) = p_u64(b, m)->0;
        lemma_p_path_frame(b, b2, m2, plen as nat);
    }
}

proof fn lemma_p_child_frame(b: Seq<u8>, b2: Seq<u8>, pos: int)
    requires
        extends(b2, b),
        p_child(b, pos) is Some,
    ensures
        p_child(b2, pos) == p_child(b, pos),
{
    lemma_p_bytes32_frame(b, b2, pos);
    let (d, m1) = p_bytes32(b, pos)->0;
    lemma_p_u64_frame(b, b2, m1);
    let (w, m2) = p_u64(b, m1)->0;
    lemma_p_u64_frame(b, b2, m2);
    let (cs, m3) = p_u64(b, m2)->0;
    lemma_p_node_id_frame(b, b2, m3);
}

proof fn lemma_p_children_frame(b: Seq<u8>, b2: Seq<u8>, pos: int, j: nat)
    requires
        extends(b2, b),
        p_children(b, pos, j) is Some,
    ensures
        p_children(b2, pos, j) == p_children(b, pos, j),
    decreases j,
{
    if j != 0 {
        lemma_p_children_frame(b, b2, pos, (j - 1) as nat);
        let m = (p_children(b, pos, (j - 1) as nat)->0).1;
        lemma_p_child_frame(b, b2, m);
    }
}

proof fn lemma_p_block_frame(b: Seq<u8>, b2: Seq<u8>, pos: int, i: int)
    requires
        extends(b2, b),
        p_block(b, pos, i) is Some,
    ensures
        p_block(b2, pos, i) == p_block(b, pos, i),
{
    lemma_p_u64_frame(b, b2, pos);
    let (cnt, m) = p_u64(b, pos)->0;
    lemma_p_children_frame(b, b2, m, cnt as nat);
}

proof fn lemma_p_blocks_frame(b: Seq<u8>, b2: Seq<u8>, pos: int, j: nat)
    requires
        extends(b2, b),
        p_blocks(b, pos, j) is Some,
    ensures
        p_blocks(b2, pos, j) == p_blocks(b, pos, j),
    decreases j,
{
    if j != 0 {
        lemma_p_blocks_frame(b, b2, pos, (j - 1) as nat);
        let m = (p_blocks(b, pos, (j - 1) as nat)->0).1;
        lemma_p_block_frame(b, b2, m, j - 1);
    }
}

proof fn lemma_p_path_fail(b: Seq<u8>, pos: int, j: nat, cnt: nat)
    requires
        j < cnt,
        p_path(b, pos, j) is Some,
        ({
            let m = (p_path(b, pos, j)->0).1;
            p_u64(b, m) is None || !fits_usize((p_u64(b, m)->0).0)
        }),
    ensures
        p_path(b, pos, cnt) is None,
    decreases cnt,
{
    if cnt - 1 > j {
        lemma_p_path_fail(b, pos, j, (cnt - 1) as nat);
    }
}

proof fn lemma_p_children_fail(b: Seq<u8>, pos: int, j: nat, cnt: nat)
    requires
        j < cnt,
        p_children(b, pos, j) is Some,
        p_child(b, (p_children(b, pos, j)->0).1) is None,
    ensures
        p_children(b, pos, cnt) is None,
    decreases cnt,
{
    if cnt - 1 > j {
        lemma_p_children_fail(b, pos, j, (cnt - 1) as nat);
    }
}

proof fn lemma_p_blocks_fail(b: Seq<u8>, pos: int, j: nat, cnt: nat)
    requires
        j < cnt,
        p_blocks(b, pos, j) is Some,
        p_block(b, (p_blocks(b, pos, j)->0).1, j as int) is None,
    ensures
        p_blocks(b, pos, cnt) is None,
    decreases cnt,
{
    if cnt - 1 > j {
        lemma_p_blocks_fail(b, pos, j, (cnt - 1) as nat);
    }
}

fn parse_u64(b: &Vec<u8>, pos: usize) -> (r: Option<(u64, usize)>)
    ensures
        r matches Some(p) ==> p_u64(b@, pos as int) == Some((p.0, p.1 as int)),
        r is None ==> p_u64(b@, pos as int) is None,
{
    if b.len() >= 8 && pos <= b.len() - 8 {
        let s = slice_subrange(b.as_slice(), pos, pos + 8);
        let v = u64_from_le_bytes(s);
        Some((v, pos + 8))
    } else {
        None
    }
}

fn parse_desc(b: &Vec<u8>, pos: usize) -> (r: Option<(Desc, usize)>)
    ensures
        r matches Some(p) ==> p_bytes32(b@, pos as int) == Some((p.0@, p.1 as int)),
        r is None ==> p_bytes32(b@, pos as int) is None,
{
    if b.len() >= 32 && pos <= b.len() - 32 {
        let blen = b.len();
        let mut d: Desc = [0u8; 32];
        let mut t: usize = 0;
        while t < 32
            invariant
                t <= 32,
                pos + 32 <= b@.len(),
                b@.len() <= usize::MAX as int,
                d@.len() == 32,
                forall|j: int| 0 <= j < t ==> d@[j] == b@[pos + j],
            decreases 32 - t,
        {
            d[t] = b[pos + t];
            t = t + 1;
        }
        proof {
            assert(d@ =~= b@.subrange(pos as int, pos + 32));
        }
        Some((d, pos + 32))
    } else {
        None
    }
}

fn parse_path(b: &Vec<u8>, pos: usize, cnt: u64) -> (r: Option<(Vec<usize>, usize)>)
    ensures
        r matches Some(p) ==> p_path(b@, pos as int, cnt as nat) == Some((p.0@, p.1 as int)),
        r is None ==> p_path(b@, pos as int, cnt as nat) is None,
{
    let mut out: Vec<usize> = Vec::new();
    let mut cur: usize = pos;
    let mut j: u64 = 0;
    while j < cnt
        invariant
            j <= cnt,
            p_path(b@, pos as int, j as nat) == Some((out@, cur as int)),
        decreases cnt - j,
    {
        match parse_u64(b, cur) {
            None => {
                proof {
                    lemma_p_path_fail(b@, pos as int, j as nat, cnt as nat);
                }
                return None;
            },
            Some((x, e)) => {
                if x > usize::MAX as u64 {
                    proof {
                        lemma_p_path_fail(b@, pos as int, j as nat, cnt as nat);
                    }
                    return None;
                }
                let ghost old_out = out@;
                out.push(x as usize);
                cur = e;
                proof {
                    assert(out@ =~= old_out.push(x as usize));
                }
            },
        }
        j = j + 1;
    }
    Some((out, cur))
}

fn parse_node_id(b: &Vec<u8>, pos: usize) -> (r: Option<(NodeId, usize)>)
    ensures
        r matches Some(p) ==> p_node_id(b@, pos as int) == Some((p.0@, p.1 as int)),
        r is None ==> p_node_id(b@, pos as int) is None,
{
    match parse_u64(b, pos) {
        None => None,
        Some((tag, m)) => {
            if tag == 0 {
                match parse_u64(b, m) {
                    None => None,
                    Some((x, e)) => {
                        if x > usize::MAX as u64 {
                            None
                        } else {
                            Some((NodeId::Block(x as usize), e))
                        }
                    },
                }
            } else if tag == 1 {
                match parse_u64(b, m) {
                    None => None,
                    Some((plen, m2)) => {
                        match parse_path(b, m2, plen) {
                            None => None,
                            Some((p, e)) => Some((NodeId::Leaf(p), e)),
                        }
                    },
                }
            } else {
                None
            }
        },
    }
}

fn parse_child(b: &Vec<u8>, pos: usize) -> (r: Option<((Desc, u32, usize, NodeId), usize)>)
    ensures
        r matches Some(p) ==> p_child(b@, pos as int) == Some(
            ((p.0.0@, p.0.1, p.0.2, p.0.3@), p.1 as int),
        ),
        r is None ==> p_child(b@, pos as int) is None,
{
    match parse_desc(b, pos) {
        None => None,
        Some((d, m1)) => {
            match parse_u64(b, m1) {
                None => None,
                Some((w, m2)) => {
                    if w > u32::MAX as u64 {
                        None
                    } else {
                        match parse_u64(b, m2) {
                            None => None,
                            Some((cs, m3)) => {
                                if cs > usize::MAX as u64 {
                                    None
                                } else {
                                    match parse_node_id(b, m3) {
                                        None => None,
                                        Some((id, e)) => Some(
                                            ((d, w as u32, cs as usize, id), e),
                                        ),
                                    }
                                }
                            },
                        }
                    }
                },
            }
        },
    }
}

fn parse_children(b: &Vec<u8>, pos: usize, cnt: u64) -> (r: Option<(Children, usize)>)
    ensures
        r matches Some(p) ==> p_children(b@, pos as int, cnt as nat) == Some((p.0@, p.1 as int)),
        r is None ==> p_children(b@, pos as int, cnt as nat) is None,
{
    let mut features: Vec<Desc> = Vec::new();
    let mut weight_bits: Vec<u32> = Vec::new();
    let mut cluster_size: Vec<usize> = Vec::new();
    let mut ids: Vec<NodeId> = Vec::new();
    let mut cur: usize = pos;
    let mut j: u64 = 0;
    proof {
        assert(features@.map(|i: int, d: Desc| d@) =~= Seq::<Seq<u8>>::empty());
        assert(ids@.map(|i: int, n: NodeId| n@) =~= Seq::<NodeIdView>::empty());
        assert(weight_bits@ =~= Seq::<u32>::empty());
        assert(cluster_size@ =~= Seq::<usize>::empty());
    }
    while j < cnt
        invariant
            j <= cnt,
            p_children(b@, pos as int, j as nat) == Some(
                ((ChildrenView {
                    features: features@.map(|i: int, d: Desc| d@),
                    weight_bits: weight_bits@,
                    cluster_size: cluster_size@,
                    ids: ids@.map(|i: int, n: NodeId| n@),
                }), cur as int),
            ),
        decreases cnt - j,
    {
        let ghost pre = ChildrenView {
            features: features@.map(|i: int, d: Desc| d@),
            weight_bits: weight_bits@,
            cluster_size: cluster_size@,
            ids: ids@.map(|i: int, n: NodeId| n@),
        };
        match parse_child(b, cur) {
            None => {
                proof {
                    lemma_p_children_fail(b@, pos as int, j as nat, cnt as nat);
                }
                return None;
            },
            Some(((d, w, cs, id), e)) => {
                let ghost c = (d@, w, cs, id@);
                features.push(d);
                weight_bits.push(w);
                cluster_size.push(cs);
                ids.push(id);
                cur = e;
                proof {
                    assert(features@.map(|i: int, d2: Desc| d2@) =~= pre.features.push(c.0));
                    assert(weight_bits@ =~= pre.weight_bits.push(c.1));
                    assert(cluster_size@ =~= pre.cluster_size.push(c.2));
                    assert(ids@.map(|i: int, n: NodeId| n@) =~= pre.ids.push(c.3));
                }
            },
        }
        j = j + 1;
    }
    let ch = Children { features, weight_bits, cluster_size, ids };
    Some((ch, cur))
}

fn parse_block(b: &Vec<u8>, pos: usize, i: usize) -> (r: Option<(Block, usize)>)
    ensures
        r matches Some(p) ==> p_block(b@, pos as int, i as int) == Some((p.0@, p.1 as int)),
        r is None ==> p_block(b@, pos as int, i as int) is None,
{
    match parse_u64(b, pos) {
        None => None,
        Some((cnt, m)) => {
            match parse_children(b, m, cnt) {
                None => None,
                Some((ch, e)) => Some((Block { id: NodeId::Block(i), children: ch }, e)),
            }
        },
    }
}

fn parse_blocks(b: &Vec<u8>, pos: usize, cnt: u64) -> (r: Option<(Vec<Block>, usize)>)
    ensures
        r matches Some(p) ==> p_blocks(b@, pos as int, cnt as nat) == Some(
            (p.0@.map(|i: int, blk: Block| blk@), p.1 as int),
        ),
        r is None ==> p_blocks(b@, pos as int, cnt as nat) is None,
{
    let mut out: Vec<Block> = Vec::new();
    let mut cur: usize = pos;
    let mut j: u64 = 0;
    proof {
        assert(out@.map(|i: int, blk: Block| blk@) =~= Seq::<BlockView>::empty());
    }
    while j < cnt
        invariant
            j <= cnt,
            out@.len() == j,
            p_blocks(b@, pos as int, j as nat) == Some(
                (out@.map(|i: int, blk: Block| blk@), cur as int),
            ),
        decreases cnt - j,
    {
        let ghost pre = out@.map(|i: int, blk: Block| blk@);
        let idx = out.len();
        match parse_block(b, cur, idx) {
            None => {
                proof {
                    lemma_p_blocks_fail(b@, pos as int, j as nat, cnt as nat);
                }
                return None;
            },
            Some((blk, e)) => {
                let ghost bv = blk@;
                out.push(blk);
                cur = e;
                proof {
                    assert(out@.map(|i: int, blk2: Block| blk2@) =~= pre.push(bv));
                }
            },
        }
        j = j + 1;
    }
    Some((out, cur))
}

/// Check well-formedness of parsed parts, exactly as `voc_wf` states
/// it.
pub(crate) fn wf_check(
    blocks: &Vec<Block>,
    k: usize,
    levels: usize,
    num_blocks: usize,
    num_leaves: usize,
) -> (r: bool)
    ensures
        r == voc_wf(
            (VocabularyView {
                blocks: blocks@.map(|i: int, b: Block| b@),
                k,
                levels,
                num_blocks,
                num_leaves,
            }),
        ),
{
    let ghost vv = VocabularyView {
        blocks: blocks@.map(|i: int, b: Block| b@),
        k,
        levels,
        num_blocks,
        num_leaves,
    };
    if blocks.len() == 0 || num_blocks != blocks.len() - 1 || levels < 1 || k < 2 {
        return false;
    }
    let mut i: usize = 0;
    while i < blocks.len()
        invariant
            i <= blocks@.len(),
            vv.blocks == blocks@.map(|i2: int, b: Block| b@),
            vv.k == k,
            vv.levels == levels,
            vv.num_blocks == num_blocks,
            vv.num_leaves == num_leaves,
            1 <= blocks@.len(),
            num_blocks + 1 == blocks@.len(),
            1 <= levels,
            2 <= k,
            forall|i2: int| 0 <= i2 < i ==> block_wf(vv, i2),
        decreases blocks@.len() - i,
    {
        let blk = &blocks[i];
        let ok_id: bool = match &blk.id {
            NodeId::Block(x) => *x == i,
            NodeId::Leaf(_) => false,
        };
        if !ok_id {
            proof {
                assert(!block_wf(vv, i as int));
            }
            return false;
        }
        let ch = &blk.children;
        let n = ch.ids.len();
        if n == 0 || ch.features.len() != n || ch.weight_bits.len() != n || ch.cluster_size.len()
            != n {
            proof {
                assert(!block_wf(vv, i as int));
            }
            return false;
        }
        let mut c: usize = 0;
        while c < n
            invariant
                c <= n,
                i < blocks@.len(),
                n == blocks@[i as int].children.ids@.len(),
                vv.blocks == blocks@.map(|i2: int, b: Block| b@),
                vv.k == k,
                vv.levels == levels,
                vv.num_blocks == num_blocks,
                vv.num_leaves == num_leaves,
                forall|c2: int| 0 <= c2 < c ==> child_wf(vv, i as int, c2),
            decreases n - c,
        {
            let ok_child: bool = match &blocks[i].children.ids[c] {
                NodeId::Block(bb) => *bb > i && *bb < blocks.len(),
                NodeId::Leaf(p) => {
                    p.len() >= 1 && p.len() <= levels && p[p.len() - 1] < num_leaves
                },
            };
            proof {
                assert(vv.blocks[i as int].children.ids[c as int] == blocks@[i as int].children.ids@[c as int]@);
            }
            if !ok_child {
                proof {
                    assert(!child_wf(vv, i as int, c as int));
                    assert(!block_wf(vv, i as int));
                }
                return false;
            }
            c = c + 1;
        }
        proof {
            assert(block_wf(vv, i as int));
        }
        i = i + 1;
    }
    true
}

fn write_u64(out: &mut Vec<u8>, v: u64)
    ensures
        final(out)@ == old(out)@ + spec_u64_to_le_bytes(v),
        final(out)@.len() == old(out)@.len() + 8,
        extends(final(out)@, old(out)@),
        p_u64(final(out)@, old(out)@.len() as int) == Some((v, final(out)@.len() as int)),
{
    let ghost b0 = out@;
    let mut tmp = u64_to_le_bytes(v);
    out.append(&mut tmp);
    proof {
        lemma_auto_spec_u64_to_from_le_bytes();
        assert(out@.subrange(0, b0.len() as int) =~= b0);
        assert(out@.subrange(b0.len() as int, b0.len() as int + 8) =~= spec_u64_to_le_bytes(v));
    }
}

fn write_desc(out: &mut Vec<u8>, d: &Desc)
    ensures
        final(out)@ == old(out)@ + d@,
        final(out)@.len() == old(out)@.len() + 32,
        extends(final(out)@, old(out)@),
        p_bytes32(final(out)@, old(out)@.len() as int) == Some((d@, final(out)@.len() as int)),
{
    let ghost b0 = out@;
    let mut t: usize = 0;
    while t < 32
        invariant
            t <= 32,
            out@ == b0 + d@.take(t as int),
        decreases 32 - t,
    {
        proof {
            assert((b0 + d@.take(t as int)).push(d@[t as int]) =~= b0 + d@.take(t + 1));
        }
        out.push(d[t]);
        t = t + 1;
    }
    proof {
        assert(d@.take(32) =~= d@);
        assert(out@.subrange(0, b0.len() as int) =~= b0);
        assert(out@.subrange(b0.len() as int, b0.len() as int + 32) =~= d@);
    }
}

/// Append one child slot so that `p_child` reads it back exactly.
fn write_child(out: &mut Vec<u8>, d: &Desc, w: u32, cs: usize, id: &NodeId)
    ensures
        extends(final(out)@, old(out)@),
        p_child(final(out)@, old(out)@.len() as int) == Some(
            ((d@, w, cs, id@), final(out)@.len() as int),
        ),
{
    let ghost pos0: int = out@.len() as int;
    let ghost b0 = out@;
    write_desc(out, d);
    let ghost b1 = out@;
    write_u64(out, w as u64);
    let ghost b2 = out@;
    write_u64(out, cs as u64);
    let ghost b3 = out@;
    match id {
        NodeId::Block(x) => {
            write_u64(out, 0);
            let ghost b4 = out@;
            write_u64(out, *x as u64);
            proof {
                assert(extends(out@, b1) && extends(out@, b2) && extends(out@, b3)) by {
                    assert(out@.subrange(0, b1.len() as int) =~= b1);
                    assert(out@.subrange(0, b2.len() as int) =~= b2);
                    assert(out@.subrange(0, b3.len() as int) =~= b3);
                }
                lemma_p_u64_frame(b4, out@, b3.len() as int);
                lemma_p_bytes32_frame(b1, out@, pos0);
                lemma_p_u64_frame(b2, out@, b1.len() as int);
                lemma_p_u64_frame(b3, out@, b2.len() as int);
            }
        },
        NodeId::Leaf(p) => {
            write_u64(out, 1);
            let ghost b4 = out@;
            write_u64(out, p.len() as u64);
            let ghost b5 = out@;
            let ghost ppos: int = b5.len() as int;
            let mut t: usize = 0;
            proof {
                lemma_extends_refl(b5);
            }
            while t < p.len()
                invariant
                    t <= p@.len(),
                    extends(out@, b5),
                    p_path(out@, ppos, t as nat) == Some((p@.take(t as int), out@.len() as int)),
                decreases p@.len() - t,
            {
                let ghost bpre = out@;
                write_u64(out, p[t] as u64);
                proof {
                    lemma_p_path_frame(bpre, out@, ppos, t as nat);
                    assert(extends(out@, b5)) by {
                        assert(out@.subrange(0, b5.len() as int) =~= b5);
                    }
                    assert(p@.take(t as int).push(p@[t as int]) =~= p@.take(t + 1));
                }
                t = t + 1;
            }
            proof {
                assert(p@.take(p@.len() as int) =~= p@);
                assert(extends(out@, b1) && extends(out@, b2) && extends(out@, b3) && extends(
                    out@,
                    b4,
                )) by {
                    assert(out@.subrange(0, b1.len() as int) =~= b1);
                    assert(out@.subrange(0, b2.len() as int) =~= b2);
                    assert(out@.subrange(0, b3.len() as int) =~= b3);
                    assert(out@.subrange(0, b4.len() as int) =~= b4);
                }
                lemma_p_bytes32_frame(b1, out@, pos0);
                lemma_p_u64_frame(b2, out@, b1.len() as int);
                lemma_p_u64_frame(b3, out@, b2.len() as int);
                lemma_p_u64_frame(b4, out@, b3.len() as int);
                lemma_p_u64_frame(b5, out@, b4.len() as int);
            }
        },
    }
    proof {
        assert(extends(out@, b0)) by {
            assert(out@.subrange(0, b0.len() as int) =~= b0);
        }
    }
}

/// The first `n` child slots of a children view.
pub open spec fn children_take(ch: ChildrenView, n: int) -> ChildrenView {
    ChildrenView {
        features: ch.features.take(n),
        weight_bits: ch.weight_bits.take(n),
        cluster_size: ch.cluster_size.take(n),
        ids: ch.ids.take(n),
    }
}

/// Append one block so that its child count and children read back
/// exactly.
fn write_block(out: &mut Vec<u8>, blk: &Block)
    requires
        blk@.children.features.len() == blk@.children.ids.len(),
        blk@.children.weight_bits.len() == blk@.children.ids.len(),
        blk@.children.cluster_size.len() == blk@.children.ids.len(),
    ensures
        extends(final(out)@, old(out)@),
        ({
            let pos0 = old(out)@.len() as int;
            let e = final(out)@.len() as int;
            p_u64(final(out)@, pos0) matches Some(cm) && cm.0 == blk@.children.ids.len()
                && p_children(final(out)@, pos0 + 8, cm.0 as nat) == Some((blk@.children, e))
        }),
{
    let ghost pos0: int = out@.len() as int;
    let ghost b0 = out@;
    let n = blk.children.ids.len();
    write_u64(out, n as u64);
    let ghost b1 = out@;
    let ghost mpos: int = b1.len() as int;
    let mut c: usize = 0;
    proof {
        lemma_extends_refl(b1);
        assert(children_take(blk@.children, 0) =~= empty_children()) by {
            assert(blk@.children.features.take(0) =~= Seq::<Seq<u8>>::empty());
            assert(blk@.children.weight_bits.take(0) =~= Seq::<u32>::empty());
            assert(blk@.children.cluster_size.take(0) =~= Seq::<usize>::empty());
            assert(blk@.children.ids.take(0) =~= Seq::<NodeIdView>::empty());
        }
    }
    while c < n
        invariant
            c <= n,
            n == blk@.children.ids.len(),
            blk@.children.features.len() == n,
            blk@.children.weight_bits.len() == n,
            blk@.children.cluster_size.len() == n,
            extends(out@, b1),
            p_children(out@, mpos, c as nat) == Some(
                (children_take(blk@.children, c as int), out@.len() as int),
            ),
        decreases n - c,
    {
        let ghost bpre = out@;
        write_child(
            out,
            &blk.children.features[c],
            blk.children.weight_bits[c],
            blk.children.cluster_size[c],
            &blk.children.ids[c],
        );
        proof {
            lemma_p_children_frame(bpre, out@, mpos, c as nat);
            assert(extends(out@, b1)) by {
                assert(out@.subrange(0, b1.len() as int) =~= b1);
            }
            let cv = (
                blk@.children.features[c as int],
                blk@.children.weight_bits[c as int],
                blk@.children.cluster_size[c as int],
                blk@.children.ids[c as int],
            );
            assert(push_child(children_take(blk@.children, c as int), cv) =~= children_take(
                blk@.children,
                c + 1,
            )) by {
                assert(blk@.children.features.take(c as int).push(cv.0) =~= blk@.children.features
                    .take(c + 1));
                assert(blk@.children.weight_bits.take(c as int).push(cv.1)
                    =~= blk@.children.weight_bits.take(c + 1));
                assert(blk@.children.cluster_size.take(c as int).push(cv.2)
                    =~= blk@.children.cluster_size.take(c + 1));
                assert(blk@.children.ids.take(c as int).push(cv.3) =~= blk@.children.ids.take(
                    c + 1,
                ));
            }
        }
        c = c + 1;
    }
    proof {
        assert(children_take(blk@.children, n as int) =~= blk@.children) by {
            assert(blk@.children.features.take(n as int) =~= blk@.children.features);
            assert(blk@.children.weight_bits.take(n as int) =~= blk@.children.weight_bits);
            assert(blk@.children.cluster_size.take(n as int) =~= blk@.children.cluster_size);
            assert(blk@.children.ids.take(n as int) =~= blk@.children.ids);
        }
        lemma_p_u64_frame(b1, out@, pos0);
        assert(extends(out@, b0)) by {
            assert(out@.subrange(0, b0.len() as int) =~= b0);
        }
    }
}

impl Vocabulary {
    /// Encode this vocabulary as its native payload.
    ///
    /// Round trip: the ensures states that the payload decodes back
    /// to exactly this vocabulary's structure (blocks, children,
    /// weights, counters), so `decode(encode(v))` always succeeds and
    /// returns a structural equal of `v`.
    pub fn encode(&self) -> (out: Vec<u8>)
        ensures
            spec_decode(out@) == Some(self@),
            voc_wf(self@),
    {
        proof {
            use_type_invariant(self);
            self.lemma_view();
        }
        let mut out: Vec<u8> = Vec::new();
        write_u64(&mut out, VOC_MAGIC);
        let ghost h1 = out@;
        write_u64(&mut out, self.k as u64);
        let ghost h2 = out@;
        write_u64(&mut out, self.levels as u64);
        let ghost h3 = out@;
        write_u64(&mut out, self.num_blocks as u64);
        let ghost h4 = out@;
        write_u64(&mut out, self.num_leaves as u64);
        let ghost h5 = out@;
        write_u64(&mut out, self.blocks.len() as u64);
        let ghost hdr = out@;
        proof {
            assert(extends(hdr, h1) && extends(hdr, h2) && extends(hdr, h3) && extends(hdr, h4)
                && extends(hdr, h5)) by {
                assert(hdr.subrange(0, h1.len() as int) =~= h1);
                assert(hdr.subrange(0, h2.len() as int) =~= h2);
                assert(hdr.subrange(0, h3.len() as int) =~= h3);
                assert(hdr.subrange(0, h4.len() as int) =~= h4);
                assert(hdr.subrange(0, h5.len() as int) =~= h5);
            }
        }
        let nblocks = self.blocks.len();
        let mut i: usize = 0;
        proof {
            lemma_extends_refl(hdr);
            assert(self.blocks@.map(|i2: int, b: Block| b@).take(0) =~= Seq::<BlockView>::empty());
        }
        while i < nblocks
            invariant
                i <= nblocks,
                nblocks == self.blocks@.len(),
                extends(out@, hdr),
                hdr.len() == 48,
                forall|i2: int|
                    0 <= i2 < self.blocks@.len() ==> block_wf(
                        self@,
                        i2,
                    ),
                self@.blocks == self.blocks@.map(|i2: int, b: Block| b@),
                p_blocks(out@, 48, i as nat) == Some(
                    (self.blocks@.map(|i2: int, b: Block| b@).take(i as int), out@.len() as int),
                ),
            decreases nblocks - i,
        {
            let ghost bpre = out@;
            proof {
                assert(block_wf(self@, i as int));
                assert(self@.blocks[i as int] == self.blocks@[i as int]@);
            }
            write_block(&mut out, &self.blocks[i]);
            proof {
                lemma_p_blocks_frame(bpre, out@, 48, i as nat);
                assert(extends(out@, hdr)) by {
                    assert(out@.subrange(0, hdr.len() as int) =~= hdr);
                }
                assert(p_block(out@, bpre.len() as int, i as int) == Some(
                    (self.blocks@[i as int]@, out@.len() as int),
                ));
                assert(self.blocks@.map(|i2: int, b: Block| b@).take(i as int).push(
                    self.blocks@[i as int]@,
                ) =~= self.blocks@.map(|i2: int, b: Block| b@).take(i + 1));
            }
            i = i + 1;
        }
        proof {
            assert(self.blocks@.map(|i2: int, b: Block| b@).take(nblocks as int) =~= self.blocks@
                .map(|i2: int, b: Block| b@));
            lemma_auto_spec_u64_to_from_le_bytes();
            assert(p_u64(out@, 0) == Some((VOC_MAGIC, 8int))) by {
                assert(extends(out@, h1)) by {
                    assert(out@.subrange(0, h1.len() as int) =~= h1);
                }
                lemma_p_u64_frame(h1, out@, 0);
            }
            assert(p_u64(out@, 8) == Some((self.k as u64, 16int))) by {
                assert(extends(out@, h2)) by {
                    assert(out@.subrange(0, h2.len() as int) =~= h2);
                }
                lemma_p_u64_frame(h2, out@, 8);
            }
            assert(p_u64(out@, 16) == Some((self.levels as u64, 24int))) by {
                assert(extends(out@, h3)) by {
                    assert(out@.subrange(0, h3.len() as int) =~= h3);
                }
                lemma_p_u64_frame(h3, out@, 16);
            }
            assert(p_u64(out@, 24) == Some((self.num_blocks as u64, 32int))) by {
                assert(extends(out@, h4)) by {
                    assert(out@.subrange(0, h4.len() as int) =~= h4);
                }
                lemma_p_u64_frame(h4, out@, 24);
            }
            assert(p_u64(out@, 32) == Some((self.num_leaves as u64, 40int))) by {
                assert(extends(out@, h5)) by {
                    assert(out@.subrange(0, h5.len() as int) =~= h5);
                }
                lemma_p_u64_frame(h5, out@, 32);
            }
            assert(p_u64(out@, 40) == Some((nblocks as u64, 48int))) by {
                lemma_p_u64_frame(hdr, out@, 40);
            }
            assert(spec_decode(out@) == Some(self@)) by {
                assert((VocabularyView {
                    blocks: self.blocks@.map(|i2: int, b: Block| b@),
                    k: self.k,
                    levels: self.levels,
                    num_blocks: self.num_blocks,
                    num_leaves: self.num_leaves,
                }) == self@);
            }
        }
        out
    }

    /// Decode a native payload, as written by `encode`.
    ///
    /// Succeeds exactly on byte sequences that parse as a native
    /// payload describing a well-formed vocabulary, and then returns
    /// that vocabulary; every other input is rejected as corrupt.
    pub fn decode(bytes: &Vec<u8>) -> (r: Result<Vocabulary, BowErr>)
        ensures
            r is Ok <==> (spec_decode(bytes@) matches Some(u) && voc_wf(u)),
            r matches Ok(v) ==> spec_decode(bytes@) == Some(v@),
            r matches Err(e) ==> e == BowErr::Serialization,
    {
        let magic = match parse_u64(bytes, 0) {
            None => {
                return Err(BowErr::Serialization);
            },
            Some((x, _)) => x,
        };
        if magic != VOC_MAGIC {
            return Err(BowErr::Serialization);
        }
        let (k64, m1) = match parse_u64(bytes, 8) {
            None => {
                return Err(BowErr::Serialization);
            },
            Some(p) => p,
        };
        let (levels64, m2) = match parse_u64(bytes, m1) {
            None => {
                return Err(BowErr::Serialization);
            },
            Some(p) => p,
        };
        let (num_blocks64, m3) = match parse_u64(bytes, m2) {
            None => {
                return Err(BowErr::Serialization);
            },
            Some(p) => p,
        };
        let (num_leaves64, m4) = match parse_u64(bytes, m3) {
            None => {
                return Err(BowErr::Serialization);
            },
            Some(p) => p,
        };
        let (nblocks64, m5) = match parse_u64(bytes, m4) {
            None => {
                return Err(BowErr::Serialization);
            },
            Some(p) => p,
        };
        if k64 > usize::MAX as u64 || levels64 > usize::MAX as u64 || num_blocks64
            > usize::MAX as u64 || num_leaves64 > usize::MAX as u64 || nblocks64
            > usize::MAX as u64 {
            return Err(BowErr::Serialization);
        }
        let (blocks, e) = match parse_blocks(bytes, m5, nblocks64) {
            None => {
                return Err(BowErr::Serialization);
            },
            Some(p) => p,
        };
        if e != bytes.len() {
            return Err(BowErr::Serialization);
        }
        let k = k64 as usize;
        let levels = levels64 as usize;
        let num_blocks = num_blocks64 as usize;
        let num_leaves = num_leaves64 as usize;
        if !wf_check(&blocks, k, levels, num_blocks, num_leaves) {
            return Err(BowErr::Serialization);
        }
        let v = Vocabulary::assemble(blocks, k, levels, num_blocks, num_leaves);
        Ok(v)
    }
}

} // verus!
