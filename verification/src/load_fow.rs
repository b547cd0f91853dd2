use vstd::prelude::*;

use vstd::bytes::{spec_u32_from_le_bytes, spec_u64_from_le_bytes, u32_from_le_bytes, u64_from_le_bytes};
use vstd::slice::{slice_subrange, slice_to_vec};

use crate::codec::wf_check;
use crate::desc::{read_desc, Desc};
use crate::vocab::{
    voc_wf, Block, BlockView, BowErr, Children, ChildrenView, NodeId, NodeIdView, Vocabulary,
    VocabularyView,
};

verus! {

/// Bytes before the block records of a legacy file: an 8-byte
/// signature followed by the 120-byte parameter header.
pub const LEGACY_HEADER_BYTES: usize = 128;

/// Parameter header of the legacy fixed-layout vocabulary format.
#[derive(Debug)]
pub struct FbowParams {
    /// Descriptor name; may be empty.
    pub desc_name: Vec<u8>,
    /// Memory alignment the file was written with.
    pub alignment: u32,
    /// Total number of block records.
    pub nblocks: u32,
    /// Size of one stored descriptor, padding included.
    pub desc_size_bytes_wp: u64,
    /// Size of one block record, padding included.
    pub block_size_bytes_wp: u64,
    /// Offset of the feature region within a block record.
    pub feature_off_start: u64,
    /// Offset of the child table within a block record.
    pub child_off_start: u64,
    /// Total payload size after the header.
    pub total_size: u64,
    /// Stored descriptor type tag.
    pub desc_type: i32,
    /// Stored descriptor size without padding.
    pub desc_size: i32,
    /// Branching factor: children per block record.
    pub m_k: u32,
}

impl FbowParams {
    /// Decode the fixed-layout parameter header from its raw bytes
    /// (the 120 bytes following the file signature).
    pub fn load(bytes: Vec<u8>) -> (r: FbowParams)
        requires
            bytes@.len() >= 116,
        ensures
            r.desc_name@ == bytes@.subrange(0, 50),
            r.alignment == spec_u32_from_le_bytes(bytes@.subrange(52, 56)),
            r.nblocks == spec_u32_from_le_bytes(bytes@.subrange(56, 60)),
            r.desc_size_bytes_wp == spec_u64_from_le_bytes(bytes@.subrange(64, 72)),
            r.block_size_bytes_wp == spec_u64_from_le_bytes(bytes@.subrange(72, 80)),
            r.feature_off_start == spec_u64_from_le_bytes(bytes@.subrange(80, 88)),
            r.child_off_start == spec_u64_from_le_bytes(bytes@.subrange(88, 96)),
            r.total_size == spec_u64_from_le_bytes(bytes@.subrange(96, 104)),
            r.desc_type == spec_u32_from_le_bytes(bytes@.subrange(104, 108)) as i32,
            r.desc_size == spec_u32_from_le_bytes(bytes@.subrange(108, 112)) as i32,
            r.m_k == spec_u32_from_le_bytes(bytes@.subrange(112, 116)),
    {
        let s = bytes.as_slice();
        FbowParams {
            desc_name: slice_to_vec(slice_subrange(s, 0, 50)),
            alignment: u32_from_le_bytes(slice_subrange(s, 52, 56)),
            nblocks: u32_from_le_bytes(slice_subrange(s, 56, 60)),
            desc_size_bytes_wp: u64_from_le_bytes(slice_subrange(s, 64, 72)),
            block_size_bytes_wp: u64_from_le_bytes(slice_subrange(s, 72, 80)),
            feature_off_start: u64_from_le_bytes(slice_subrange(s, 80, 88)),
            child_off_start: u64_from_le_bytes(slice_subrange(s, 88, 96)),
            total_size: u64_from_le_bytes(slice_subrange(s, 96, 104)),
            desc_type: u32_from_le_bytes(slice_subrange(s, 104, 108)) as i32,
            desc_size: u32_from_le_bytes(slice_subrange(s, 108, 112)) as i32,
            m_k: u32_from_le_bytes(slice_subrange(s, 112, 116)),
        }
    }
}

/// Header fields at their absolute offsets in a legacy file.
pub open spec fn lg_nblocks(b: Seq<u8>) -> u32 {
    spec_u32_from_le_bytes(b.subrange(64, 68))
}

pub open spec fn lg_desc_size_wp(b: Seq<u8>) -> u64 {
    spec_u64_from_le_bytes(b.subrange(72, 80))
}

pub open spec fn lg_block_size(b: Seq<u8>) -> u64 {
    spec_u64_from_le_bytes(b.subrange(80, 88))
}

pub open spec fn lg_feat_off(b: Seq<u8>) -> u64 {
    spec_u64_from_le_bytes(b.subrange(88, 96))
}

pub open spec fn lg_child_off(b: Seq<u8>) -> u64 {
    spec_u64_from_le_bytes(b.subrange(96, 104))
}

pub open spec fn lg_total(b: Seq<u8>) -> u64 {
    spec_u64_from_le_bytes(b.subrange(104, 112))
}

pub open spec fn lg_m_k(b: Seq<u8>) -> u32 {
    spec_u32_from_le_bytes(b.subrange(120, 124))
}

/// The fixed-layout constraints a legacy file must satisfy for its
/// records to be read at all: the compiled descriptor width, a
/// payload size matching the file, a feature region of exactly one
/// descriptor per child, and records that fit their declared size.
pub open spec fn legacy_shape_ok(b: Seq<u8>) -> bool {
    &&& b.len() >= 128
    &&& lg_desc_size_wp(b) == 32
    &&& lg_total(b) == b.len() - 128
    &&& 8 <= lg_block_size(b)
    &&& lg_feat_off(b) + 32 * lg_m_k(b) == lg_child_off(b)
    &&& lg_child_off(b) + 8 * lg_m_k(b) <= lg_block_size(b)
    &&& lg_nblocks(b) * lg_block_size(b) <= lg_total(b)
}

/// A child id of the legacy child table: the high bit flags a leaf,
/// the remaining bits carry the id. The format does not record the
/// ancestor path of a leaf, so a legacy leaf path holds the word id
/// alone (a documented limitation).
pub open spec fn legacy_child_id(raw: u32) -> NodeIdView {
    if raw >= 0x8000_0000 {
        NodeIdView::Leaf(seq![(raw - 0x8000_0000) as usize])
    } else {
        NodeIdView::Block(raw as usize)
    }
}

/// Start of block record `i`.
pub open spec fn lg_rec_start(b: Seq<u8>, i: int) -> int {
    128 + i * (lg_block_size(b) as int)
}

/// The children of block record `i`: one descriptor per child in the
/// feature region, then the child table of id and weight pairs. The
/// legacy format stores no cluster sizes.
pub open spec fn legacy_children(b: Seq<u8>, i: int) -> ChildrenView {
    let fo = lg_rec_start(b, i) + lg_feat_off(b) as int;
    let co = lg_rec_start(b, i) + lg_child_off(b) as int;
    let mk = lg_m_k(b) as nat;
    ChildrenView {
        features: Seq::new(mk, |c: int| b.subrange(fo + 32 * c, fo + 32 * c + 32)),
        weight_bits: Seq::new(
            mk,
            |c: int| spec_u32_from_le_bytes(b.subrange(co + 8 * c + 4, co + 8 * c + 8)),
        ),
        cluster_size: Seq::new(mk, |c: int| 0usize),
        ids: Seq::new(
            mk,
            |c: int| legacy_child_id(spec_u32_from_le_bytes(b.subrange(co + 8 * c, co + 8 * c + 4))),
        ),
    }
}

/// The id stored in block record `i`.
pub open spec fn legacy_block_id(b: Seq<u8>, i: int) -> usize {
    spec_u32_from_le_bytes(
        b.subrange(lg_rec_start(b, i) + 4, lg_rec_start(b, i) + 8),
    ) as usize
}

/// The whole block table of a legacy file.
pub open spec fn legacy_blocks(b: Seq<u8>) -> Seq<BlockView> {
    Seq::new(
        lg_nblocks(b) as nat,
        |i: int| BlockView { id: NodeIdView::Block(legacy_block_id(b, i)), children: legacy_children(b, i) },
    )
}

/// Running maximum-plus-one of leaf ids, one child at a time.
pub open spec fn nl_child(id: NodeIdView, acc: int) -> int {
    match id {
        NodeIdView::Leaf(p) => if p.len() >= 1 && p.last() + 1 > acc {
            p.last() + 1
        } else {
            acc
        },
        NodeIdView::Block(_) => acc,
    }
}

pub open spec fn nl_children(ids: Seq<NodeIdView>, c: int, acc: int) -> int
    decreases c,
{
    if c <= 0 {
        acc
    } else {
        nl_child(ids[c - 1], nl_children(ids, c - 1, acc))
    }
}

pub open spec fn nl_blocks(bs: Seq<BlockView>, i: int, acc: int) -> int
    decreases i,
{
    if i <= 0 {
        acc
    } else {
        nl_children(
            bs[i - 1].children.ids,
            bs[i - 1].children.ids.len() as int,
            nl_blocks(bs, i - 1, acc),
        )
    }
}

/// Number of words a legacy file's leaf ids call for: one past the
/// largest leaf id, or zero when there are no leaves.
pub open spec fn legacy_num_leaves(b: Seq<u8>) -> int {
    nl_blocks(legacy_blocks(b), legacy_blocks(b).len() as int, 0)
}

/// The in-memory structure a legacy file describes. The legacy
/// header records no depth limit and no ancestor paths, so the
/// loaded vocabulary reports a depth of one and single-entry leaf
/// paths.
pub open spec fn legacy_view(b: Seq<u8>) -> VocabularyView {
    VocabularyView {
        blocks: legacy_blocks(b),
        k: lg_m_k(b) as usize,
        levels: 1,
        num_blocks: (lg_nblocks(b) - 1) as usize,
        num_leaves: legacy_num_leaves(b) as usize,
    }
}

impl Vocabulary {
    /// Load a vocabulary from the bytes of a legacy fixed-layout
    /// file (signature, parameter header, then one fixed-size record
    /// per block).
    ///
    /// Fails with `DescriptorSizeMismatch` exactly when the header is
    /// present but declares a descriptor width other than the
    /// compiled 32 bytes; fails with `Serialization` on every other
    /// shape violation, and whenever the described structure is not a
    /// well-formed tree (dangling or backward block references, out
    /// of range word ids, a missing root).
    #[verifier::loop_isolation(false)]
    pub fn load_voc(bytes: &Vec<u8>) -> (r: Result<Vocabulary, BowErr>)
        ensures
            r is Ok <==> legacy_shape_ok(bytes@) && voc_wf(legacy_view(bytes@)),
            r matches Ok(v) ==> v@ == legacy_view(bytes@),
            r matches Err(e) ==> (e == BowErr::DescriptorSizeMismatch <==> bytes@.len() >= 128
                && lg_desc_size_wp(bytes@) != 32),
    {
        let blen: usize = bytes.len();
        if blen < 128 {
            return Err(BowErr::Serialization);
        }
        let s = bytes.as_slice();
        let nblocks = u32_from_le_bytes(slice_subrange(s, 64, 68));
        let dsz = u64_from_le_bytes(slice_subrange(s, 72, 80));
        let bs = u64_from_le_bytes(slice_subrange(s, 80, 88));
        let fo = u64_from_le_bytes(slice_subrange(s, 88, 96));
        let co = u64_from_le_bytes(slice_subrange(s, 96, 104));
        let total = u64_from_le_bytes(slice_subrange(s, 104, 112));
        let mk = u32_from_le_bytes(slice_subrange(s, 120, 124));
        if dsz != 32 {
            return Err(BowErr::DescriptorSizeMismatch);
        }
        if total != (blen - 128) as u64 {
            return Err(BowErr::Serialization);
        }
        if bs < 8 {
            return Err(BowErr::Serialization);
        }
        if (fo as u128) + 32 * (mk as u128) != (co as u128) {
            return Err(BowErr::Serialization);
        }
        if (co as u128) + 8 * (mk as u128) > (bs as u128) {
            return Err(BowErr::Serialization);
        }
        proof {
            assert((nblocks as u128) * (bs as u128) <= 0xffff_ffffu128 * 0xffff_ffff_ffff_ffffu128)
                by (nonlinear_arith)
                requires
                    nblocks as u128 <= 0xffff_ffffu128,
                    bs as u128 <= 0xffff_ffff_ffff_ffffu128,
            ;
        }
        if (nblocks as u128) * (bs as u128) > (total as u128) {
            return Err(BowErr::Serialization);
        }
        proof {
            assert(legacy_shape_ok(bytes@));
        }
        if nblocks == 0 {
            proof {
                assert(legacy_view(bytes@).blocks.len() == 0);
                assert(!voc_wf(legacy_view(bytes@)));
            }
            return Err(BowErr::Serialization);
        }
        proof {
            assert((nblocks as int) * (bs as int) <= total as int);
            assert(bs as int <= (nblocks as int) * (bs as int)) by (nonlinear_arith)
                requires
                    1 <= nblocks as int,
                    8 <= bs as int,
            ;
        }
        let nblocks_us: usize = nblocks as usize;
        let bs_us: usize = bs as usize;
        let fo_us: usize = fo as usize;
        let co_us: usize = co as usize;
        let mk_us: usize = mk as usize;
        let ghost lbs = legacy_blocks(bytes@);
        let mut blocks: Vec<Block> = Vec::new();
        let mut nl: usize = 0;
        let mut i: usize = 0;
        proof {
            assert(blocks@.map(|x: int, b: Block| b@) =~= lbs.take(0));
        }
        while i < nblocks_us
            invariant
                i <= nblocks_us,
                blocks@.len() == i,
                blocks@.map(|x: int, b: Block| b@) == lbs.take(i as int),
                nl as int == nl_blocks(lbs, i as int, 0),
                nl <= 0x8000_0000,
            decreases nblocks_us - i,
        {
            proof {
                assert((i as int) * (bs as int) <= ((i + 1) as int) * (bs as int) && ((
                i + 1) as int) * (bs as int) <= (nblocks as int) * (bs as int) && ((
                i + 1) as int) * (bs as int) == (i as int) * (bs as int) + (bs as int))
                    by (nonlinear_arith)
                    requires
                        i + 1 <= nblocks as int,
                        0 <= bs as int,
                ;
            }
            let start: usize = 128 + i * bs_us;
            proof {
                assert(start + bs as int <= blen as int);
            }
            let rid = u32_from_le_bytes(slice_subrange(s, start + 4, start + 8));
            let mut features: Vec<Desc> = Vec::new();
            let mut weight_bits: Vec<u32> = Vec::new();
            let mut cluster_size: Vec<usize> = Vec::new();
            let mut ids: Vec<NodeId> = Vec::new();
            let ghost lch = legacy_children(bytes@, i as int);
            let ghost nl_in: int = nl as int;
            let mut c: usize = 0;
            while c < mk_us
                invariant
                    c <= mk_us,
                    i < nblocks_us,
                    features@.len() == c,
                    weight_bits@.len() == c,
                    cluster_size@.len() == c,
                    ids@.len() == c,
                    forall|t: int| 0 <= t < c ==> features@[t]@ == lch.features[t],
                    forall|t: int| 0 <= t < c ==> weight_bits@[t] == lch.weight_bits[t],
                    forall|t: int| 0 <= t < c ==> cluster_size@[t] == lch.cluster_size[t],
                    forall|t: int| 0 <= t < c ==> (#[trigger] ids@[t])@ == lch.ids[t],
                    nl as int == nl_children(lch.ids, c as int, nl_in),
                    nl <= 0x8000_0000,
                decreases mk_us - c,
            {
                proof {
                    assert(32 * ((c + 1) as int) <= 32 * (mk as int)) by (nonlinear_arith)
                        requires
                            c + 1 <= mk as int,
                    ;
                    assert(8 * ((c + 1) as int) <= 8 * (mk as int)) by (nonlinear_arith)
                        requires
                            c + 1 <= mk as int,
                    ;
                }
                let fpos: usize = start + fo_us + 32 * c;
                features.push(read_desc(bytes, fpos));
                let cpos: usize = start + co_us + 8 * c;
                let raw = u32_from_le_bytes(slice_subrange(s, cpos, cpos + 4));
                let w = u32_from_le_bytes(slice_subrange(s, cpos + 4, cpos + 8));
                weight_bits.push(w);
                cluster_size.push(0);
                if raw >= 0x8000_0000 {
                    let lid: usize = (raw - 0x8000_0000) as usize;
                    let mut p: Vec<usize> = Vec::new();
                    p.push(lid);
                    proof {
                        assert(p@ =~= seq![lid]);
                    }
                    ids.push(NodeId::Leaf(p));
                    if lid + 1 > nl {
                        nl = lid + 1;
                    }
                } else {
                    ids.push(NodeId::Block(raw as usize));
                }
                proof {
                    assert(bytes@.subrange(cpos as int, cpos + 4) =~= bytes@.subrange(
                        lg_rec_start(bytes@, i as int) + lg_child_off(bytes@) + 8 * (c as int),
                        lg_rec_start(bytes@, i as int) + lg_child_off(bytes@) + 8 * (c as int) + 4,
                    ));
                    assert(bytes@.subrange(cpos + 4, cpos + 8) =~= bytes@.subrange(
                        lg_rec_start(bytes@, i as int) + lg_child_off(bytes@) + 8 * (c as int) + 4,
                        lg_rec_start(bytes@, i as int) + lg_child_off(bytes@) + 8 * (c as int) + 8,
                    ));
                    assert(bytes@.subrange(fpos as int, fpos + 32) =~= bytes@.subrange(
                        lg_rec_start(bytes@, i as int) + lg_feat_off(bytes@) + 32 * (c as int),
                        lg_rec_start(bytes@, i as int) + lg_feat_off(bytes@) + 32 * (c as int) + 32,
                    ));
                    assert(ids@[c as int]@ == lch.ids[c as int]);
                    assert(nl as int == nl_children(lch.ids, c + 1, nl_in));
                }
                c = c + 1;
            }
            proof {
                assert(features@.map(|t: int, d: Desc| d@) =~= lch.features);
                assert(weight_bits@ =~= lch.weight_bits);
                assert(cluster_size@ =~= lch.cluster_size);
                assert(ids@.map(|t: int, n: NodeId| n@) =~= lch.ids);
            }
            let ghost blocks_pre = blocks@.map(|x: int, b: Block| b@);
            blocks.push(
                Block {
                    id: NodeId::Block(rid as usize),
                    children: Children { features, weight_bits, cluster_size, ids },
                },
            );
            proof {
                assert(bytes@.subrange(start + 4, start + 8) =~= bytes@.subrange(
                    lg_rec_start(bytes@, i as int) + 4,
                    lg_rec_start(bytes@, i as int) + 8,
                ));
                assert(blocks@.map(|x: int, b: Block| b@) =~= lbs.take(i + 1));
                assert(nl as int == nl_blocks(lbs, i + 1, 0));
            }
            i = i + 1;
        }
        proof {
            assert(lbs.take(nblocks_us as int) =~= lbs);
        }
        let num_blocks: usize = nblocks_us - 1;
        if !wf_check(&blocks, mk_us, 1, num_blocks, nl) {
            proof {
                assert((VocabularyView {
                    blocks: blocks@.map(|x: int, b: Block| b@),
                    k: mk_us,
                    levels: 1,
                    num_blocks,
                    num_leaves: nl,
                }) == legacy_view(bytes@));
            }
            return Err(BowErr::Serialization);
        }
        let v = Vocabulary::assemble(blocks, mk_us, 1, num_blocks, nl);
        proof {
            assert(v@ == legacy_view(bytes@));
        }
        Ok(v)
    }
}

} // verus!
