use vstd::prelude::*;

use crate::bow::{sum64, lemma_sum64_element, lemma_sum64_update, BoW};
use crate::desc::{hamming, spec_hamming, Desc};

verus! {

/// Error conditions of the vocabulary library.
#[derive(Clone, Copy, Debug, PartialEq, Eq, Structural)]
pub enum BowErr {
    /// No features were provided to a query.
    NoFeatures,
    /// A persisted vocabulary payload is corrupt or truncated.
    Serialization,
    /// A legacy vocabulary file declares a descriptor width other
    /// than the compiled descriptor width.
    DescriptorSizeMismatch,
}

/// Unique identifier of a node in the vocabulary tree.
#[derive(Debug, PartialEq)]
pub enum NodeId {
    /// A non-leaf node, identified by its offset in the block table.
    Block(usize),
    /// A terminal word node: the ids of all its ancestor blocks (root
    /// excluded) followed by the leaf's own word id. This path is the
    /// direct index for any feature routed to this leaf.
    Leaf(Vec<usize>),
}

/// Spec-level image of a `NodeId`.
pub ghost enum NodeIdView {
    Block(usize),
    Leaf(Seq<usize>),
}

impl View for NodeId {
    type V = NodeIdView;

    open spec fn view(&self) -> NodeIdView {
        match self {
            NodeId::Block(b) => NodeIdView::Block(*b),
            NodeId::Leaf(p) => NodeIdView::Leaf(p@),
        }
    }
}

/// The children of a block: four parallel arrays, one entry per
/// child. `features` holds the child centroids, `weight_bits` the
/// IEEE-754 bit patterns of the word weights, `cluster_size` the
/// number of training descriptors that built each child.
#[derive(Debug, PartialEq)]
pub struct Children {
    pub features: Vec<Desc>,
    pub weight_bits: Vec<u32>,
    pub cluster_size: Vec<usize>,
    pub ids: Vec<NodeId>,
}

/// Spec-level image of `Children`.
pub ghost struct ChildrenView {
    pub features: Seq<Seq<u8>>,
    pub weight_bits: Seq<u32>,
    pub cluster_size: Seq<usize>,
    pub ids: Seq<NodeIdView>,
}

impl View for Children {
    type V = ChildrenView;

    open spec fn view(&self) -> ChildrenView {
        ChildrenView {
            features: self.features@.map(|i: int, d: Desc| d@),
            weight_bits: self.weight_bits@,
            cluster_size: self.cluster_size@,
            ids: self.ids@.map(|i: int, n: NodeId| n@),
        }
    }
}

/// A non-leaf node of the vocabulary tree.
#[derive(Debug, PartialEq)]
pub struct Block {
    pub id: NodeId,
    pub children: Children,
}

/// Spec-level image of a `Block`.
pub ghost struct BlockView {
    pub id: NodeIdView,
    pub children: ChildrenView,
}

impl View for Block {
    type V = BlockView;

    open spec fn view(&self) -> BlockView {
        BlockView { id: self.id@, children: self.children@ }
    }
}

/// Per-feature record of the tree path taken during a query: entry
/// `i` is the resolved leaf path of feature `i`.
pub type DirectIdx = Vec<Vec<usize>>;

/// Visual vocabulary built from a collection of image features.
#[derive(Debug, PartialEq)]
pub struct Vocabulary {
    pub(crate) blocks: Vec<Block>,
    pub(crate) k: usize,
    pub(crate) levels: usize,
    pub(crate) num_blocks: usize,
    pub(crate) num_leaves: usize,
}

/// Spec-level image of a `Vocabulary`.
pub ghost struct VocabularyView {
    pub blocks: Seq<BlockView>,
    pub k: usize,
    pub levels: usize,
    pub num_blocks: usize,
    pub num_leaves: usize,
}

impl View for Vocabulary {
    type V = VocabularyView;

    closed spec fn view(&self) -> VocabularyView {
        VocabularyView {
            blocks: self.blocks@.map(|i: int, b: Block| b@),
            k: self.k,
            levels: self.levels,
            num_blocks: self.num_blocks,
            num_leaves: self.num_leaves,
        }
    }
}

/// One child slot is sound: a block child points further down the
/// block table (which rules out cycles), a leaf child carries a
/// non-empty path, bounded by the depth limit, ending in a word id
/// within range.
pub open spec fn child_wf(v: VocabularyView, i: int, c: int) -> bool {
    match v.blocks[i].children.ids[c] {
        NodeIdView::Block(b) => i < b && b < v.blocks.len(),
        NodeIdView::Leaf(p) => 1 <= p.len() && p.len() <= v.levels && p.last() < v.num_leaves,
    }
}

/// A block is sound: it sits at the offset its id names, its four
/// child arrays agree in length, it has at least one child, and
/// every child slot is sound.
pub open spec fn block_wf(v: VocabularyView, i: int) -> bool {
    let ch = v.blocks[i].children;
    &&& v.blocks[i].id == NodeIdView::Block(i as usize)
    &&& 1 <= ch.ids.len()
    &&& ch.features.len() == ch.ids.len()
    &&& ch.weight_bits.len() == ch.ids.len()
    &&& ch.cluster_size.len() == ch.ids.len()
    &&& forall|c: int| 0 <= c < ch.ids.len() ==> child_wf(v, i, c)
}

/// A vocabulary is well formed: the root block exists at offset 0,
/// the block count matches the table, the configuration is valid,
/// and every block is sound. Every vocabulary this library hands out
/// satisfies this.
pub open spec fn voc_wf(v: VocabularyView) -> bool {
    &&& 1 <= v.blocks.len()
    &&& v.num_blocks + 1 == v.blocks.len()
    &&& 1 <= v.levels
    &&& 2 <= v.k
    &&& forall|i: int| 0 <= i < v.blocks.len() ==> block_wf(v, i)
}

/// Offset of the first child at minimum Hamming distance to `f`
/// among the first `n` children (ties go to the earliest child).
pub open spec fn best_prefix(feats: Seq<Seq<u8>>, f: Seq<u8>, n: nat) -> int
    decreases n,
{
    if n <= 1 {
        0
    } else {
        let prev = best_prefix(feats, f, (n - 1) as nat);
        if spec_hamming(feats[n - 1], f) < spec_hamming(feats[prev], f) {
            n - 1
        } else {
            prev
        }
    }
}

/// The child a feature is assigned to when scanning a block's
/// children: the first child at minimum Hamming distance.
pub open spec fn best_child(feats: Seq<Seq<u8>>, f: Seq<u8>) -> int {
    best_prefix(feats, f, feats.len())
}

pub proof fn lemma_best_prefix_range(feats: Seq<Seq<u8>>, f: Seq<u8>, n: nat)
    requires
        1 <= n,
    ensures
        0 <= best_prefix(feats, f, n) < n,
    decreases n,
{
    if n > 1 {
        lemma_best_prefix_range(feats, f, (n - 1) as nat);
    }
}

/// The leaf path a feature resolves to when descending from block
/// `bid`: at each block the feature moves to its best child until
/// that child is a leaf.
pub open spec fn leaf_of_from(v: VocabularyView, f: Seq<u8>, bid: int) -> Seq<usize>
    recommends
        voc_wf(v),
        0 <= bid < v.blocks.len(),
    decreases v.blocks.len() - bid
        when voc_wf(v) && 0 <= bid < v.blocks.len()
        via leaf_of_from_decreases
{
    let ch = v.blocks[bid].children;
    let c = best_child(ch.features, f);
    match ch.ids[c] {
        NodeIdView::Block(b) => leaf_of_from(v, f, b as int),
        NodeIdView::Leaf(p) => p,
    }
}

#[via_fn]
proof fn leaf_of_from_decreases(v: VocabularyView, f: Seq<u8>, bid: int) {
    let ch = v.blocks[bid].children;
    assert(block_wf(v, bid));
    lemma_best_prefix_range(ch.features, f, ch.features.len());
    assert(child_wf(v, bid, best_child(ch.features, f)));
}

/// The full leaf path of a feature, descending from the root.
pub open spec fn leaf_path_of(v: VocabularyView, f: Seq<u8>) -> Seq<usize> {
    leaf_of_from(v, f, 0)
}

/// The word (leaf id) a feature is assigned to.
pub open spec fn word_of(v: VocabularyView, f: Seq<u8>) -> usize {
    leaf_path_of(v, f).last()
}

/// Every descent ends at a sound leaf path.
pub proof fn lemma_leaf_of_from_wf(v: VocabularyView, f: Seq<u8>, bid: int)
    requires
        voc_wf(v),
        0 <= bid < v.blocks.len(),
    ensures
        1 <= leaf_of_from(v, f, bid).len() <= v.levels,
        leaf_of_from(v, f, bid).last() < v.num_leaves,
    decreases v.blocks.len() - bid,
{
    let ch = v.blocks[bid].children;
    assert(block_wf(v, bid));
    lemma_best_prefix_range(ch.features, f, ch.features.len());
    let c = best_child(ch.features, f);
    assert(child_wf(v, bid, c));
    match ch.ids[c] {
        NodeIdView::Block(b) => {
            lemma_leaf_of_from_wf(v, f, b as int);
        },
        NodeIdView::Leaf(p) => {},
    }
}

/// Number of features among `fs` that are assigned to word `w`.
pub open spec fn count_word(v: VocabularyView, fs: Seq<Desc>, w: int) -> nat
    decreases fs.len(),
{
    if fs.len() == 0 {
        0
    } else {
        count_word(v, fs.drop_last(), w) + if word_of(v, fs.last()@) == w {
            1nat
        } else {
            0nat
        }
    }
}

/// The histogram `counts` is exactly the word histogram of `fs`.
pub open spec fn counts_ok(v: VocabularyView, fs: Seq<Desc>, counts: Seq<u64>) -> bool {
    &&& counts.len() == v.num_leaves
    &&& forall|w: int| 0 <= w < counts.len() ==> counts[w] == count_word(v, fs, w)
}

/// The direct index `di` records, in input order, the leaf path of
/// every feature of `fs`.
pub open spec fn direct_index_ok(v: VocabularyView, fs: Seq<Desc>, di: Seq<Vec<usize>>) -> bool {
    &&& di.len() == fs.len()
    &&& forall|j: int| 0 <= j < di.len() ==> di[j]@ == leaf_path_of(v, fs[j]@)
}

/// Querying is deterministic: any two histograms of the same feature
/// sequence against the same vocabulary are equal.
pub proof fn lemma_transform_deterministic(
    v: VocabularyView,
    fs: Seq<Desc>,
    c1: Seq<u64>,
    c2: Seq<u64>,
)
    requires
        counts_ok(v, fs, c1),
        counts_ok(v, fs, c2),
    ensures
        c1 == c2,
{
    assert(c1 =~= c2);
}

/// A path assignment for the blocks under which the stored leaf
/// paths are exactly the ancestor chains: the root carries the empty
/// path, a block child's path extends its parent's by the child id,
/// and every stored leaf path extends its block's path by the word
/// id.
pub open spec fn paths_consistent_with(v: VocabularyView, anc: Seq<Seq<usize>>) -> bool {
    &&& anc.len() == v.blocks.len()
    &&& (v.blocks.len() >= 1 ==> anc[0] == Seq::<usize>::empty())
    &&& forall|i: int, c: int|
        0 <= i < v.blocks.len() && 0 <= c < v.blocks[i].children.ids.len()
            ==> match #[trigger] v.blocks[i].children.ids[c] {
            NodeIdView::Block(b) => 0 <= b < anc.len() && anc[b as int] == anc[i].push(b),
            NodeIdView::Leaf(p) => p == anc[i].push(p.last()),
        }
}

/// Some path assignment witnesses the stored paths; construction
/// guarantees this.
pub open spec fn paths_consistent(v: VocabularyView) -> bool {
    exists|anc: Seq<Seq<usize>>| paths_consistent_with(v, anc)
}

/// The node ids a feature's descent visits below block `bid`, ending
/// with the reached word id.
pub open spec fn descent_seq_from(v: VocabularyView, f: Seq<u8>, bid: int) -> Seq<usize>
    recommends
        voc_wf(v),
        0 <= bid < v.blocks.len(),
    decreases v.blocks.len() - bid
        when voc_wf(v) && 0 <= bid < v.blocks.len()
        via descent_seq_from_decreases
{
    let ch = v.blocks[bid].children;
    let c = best_child(ch.features, f);
    match ch.ids[c] {
        NodeIdView::Block(b) => seq![b as usize] + descent_seq_from(v, f, b as int),
        NodeIdView::Leaf(p) => seq![p.last()],
    }
}

#[via_fn]
proof fn descent_seq_from_decreases(v: VocabularyView, f: Seq<u8>, bid: int) {
    let ch = v.blocks[bid].children;
    assert(block_wf(v, bid));
    lemma_best_prefix_range(ch.features, f, ch.features.len());
    assert(child_wf(v, bid, best_child(ch.features, f)));
}

proof fn lemma_path_is_descent_from(v: VocabularyView, anc: Seq<Seq<usize>>, f: Seq<u8>, bid: int)
    requires
        voc_wf(v),
        paths_consistent_with(v, anc),
        0 <= bid < v.blocks.len(),
    ensures
        leaf_of_from(v, f, bid) == anc[bid] + descent_seq_from(v, f, bid),
    decreases v.blocks.len() - bid,
{
    let ch = v.blocks[bid].children;
    assert(block_wf(v, bid));
    lemma_best_prefix_range(ch.features, f, ch.features.len());
    let c = best_child(ch.features, f);
    assert(child_wf(v, bid, c));
    match ch.ids[c] {
        NodeIdView::Block(b) => {
            lemma_path_is_descent_from(v, anc, f, b as int);
            assert(anc[bid] + (seq![b as usize] + descent_seq_from(v, f, b as int)) =~= anc[bid].push(
                b,
            ) + descent_seq_from(v, f, b as int));
        },
        NodeIdView::Leaf(p) => {
            assert(p =~= anc[bid] + seq![p.last()]);
        },
    }
}

/// The direct index means what it says: in a vocabulary whose stored
/// paths are consistent (as construction guarantees), the path a
/// feature resolves to is exactly the sequence of node ids its
/// descent visits, root excluded — entry `t` is the id of the node
/// matching the feature at depth `t + 1`, and the final entry is its
/// word id.
pub proof fn lemma_direct_index_is_descent(v: VocabularyView, f: Seq<u8>)
    requires
        voc_wf(v),
        paths_consistent(v),
    ensures
        leaf_path_of(v, f) == descent_seq_from(v, f, 0),
{
    let anc = choose|anc: Seq<Seq<usize>>| paths_consistent_with(v, anc);
    lemma_path_is_descent_from(v, anc, f, 0);
    assert(anc[0] + descent_seq_from(v, f, 0) =~= descent_seq_from(v, f, 0));
}

/// Word `w` is carried by some leaf child of block `i`.
pub open spec fn word_in_block(v: VocabularyView, w: int, i: int) -> bool {
    exists|c: int|
        0 <= c < v.blocks[i].children.ids.len() && ((#[trigger] v.blocks[i].children.ids[c]) matches NodeIdView::Leaf(p)
            && p.last() == w)
}

/// Word `w` is carried by some leaf of the vocabulary.
pub open spec fn word_covered(v: VocabularyView, w: int) -> bool {
    exists|i: int| 0 <= i < v.blocks.len() && #[trigger] word_in_block(v, w, i)
}

/// The word ids cover exactly `0 .. num_leaves`: every id below the
/// count is carried by some leaf.
pub open spec fn words_covered(v: VocabularyView) -> bool {
    forall|w: int| 0 <= w < v.num_leaves ==> #[trigger] word_covered(v, w)
}

/// No two leaf children carry the same word id.
pub open spec fn leaf_ids_distinct(v: VocabularyView) -> bool {
    forall|i: int, c: int, i2: int, c2: int|
        #![trigger v.blocks[i].children.ids[c], v.blocks[i2].children.ids[c2]]
        0 <= i < v.blocks.len() && 0 <= c < v.blocks[i].children.ids.len() && 0 <= i2
            < v.blocks.len() && 0 <= c2 < v.blocks[i2].children.ids.len() && (i != i2 || c != c2)
            ==> match (v.blocks[i].children.ids[c], v.blocks[i2].children.ids[c2]) {
            (NodeIdView::Leaf(p), NodeIdView::Leaf(q)) => p.last() != q.last(),
            _ => true,
        }
}

/// Every leaf of a well-formed vocabulary carries an ancestor path
/// bounded by the depth limit, ending in a word id within range.
pub proof fn lemma_leaf_paths_bounded(v: VocabularyView)
    requires
        voc_wf(v),
    ensures
        forall|i: int, c: int|
            0 <= i < v.blocks.len() && 0 <= c < v.blocks[i].children.ids.len()
                ==> match #[trigger] v.blocks[i].children.ids[c] {
                NodeIdView::Leaf(p) => 1 <= p.len() <= v.levels && p.last() < v.num_leaves,
                NodeIdView::Block(_) => true,
            },
{
    assert forall|i: int, c: int|
        0 <= i < v.blocks.len() && 0 <= c < v.blocks[i].children.ids.len() implies match #[trigger] v.blocks[i].children.ids[c] {
        NodeIdView::Leaf(p) => 1 <= p.len() <= v.levels && p.last() < v.num_leaves,
        NodeIdView::Block(_) => true,
    } by {
        assert(block_wf(v, i));
        assert(child_wf(v, i, c));
    }
}

/// A vocabulary with a single block holds only the root, and every
/// child of that root is a leaf.
pub proof fn lemma_single_block_all_leaves(v: VocabularyView)
    requires
        voc_wf(v),
        v.blocks.len() == 1,
    ensures
        forall|c: int|
            0 <= c < v.blocks[0].children.ids.len() ==> (#[trigger] v.blocks[0].children.ids[c]) matches NodeIdView::Leaf(_),
{
    assert forall|c: int| 0 <= c < v.blocks[0].children.ids.len() implies (#[trigger] v.blocks[0].children.ids[c]) matches NodeIdView::Leaf(_) by {
        assert(block_wf(v, 0));
        assert(child_wf(v, 0, c));
    }
}

impl Vocabulary {
    #[verifier::type_invariant]
    pub(crate) open spec fn type_inv(self) -> bool {
        voc_wf(self@)
    }

    /// Crate-internal: the view, spelled out over the fields.
    pub(crate) proof fn lemma_view(&self)
        ensures
            self@.blocks == self.blocks@.map(|i: int, b: Block| b@),
            self@.k == self.k,
            self@.levels == self.levels,
            self@.num_blocks == self.num_blocks,
            self@.num_leaves == self.num_leaves,
    {
    }

    /// Crate-internal: assemble a vocabulary whose parts are already
    /// known to form a well-formed view.
    pub(crate) fn assemble(
        blocks: Vec<Block>,
        k: usize,
        levels: usize,
        num_blocks: usize,
        num_leaves: usize,
    ) -> (v: Vocabulary)
        requires
            voc_wf(
                (VocabularyView {
                    blocks: blocks@.map(|i: int, b: Block| b@),
                    k,
                    levels,
                    num_blocks,
                    num_leaves,
                }),
            ),
        ensures
            v@ == (VocabularyView {
                blocks: blocks@.map(|i: int, b: Block| b@),
                k,
                levels,
                num_blocks,
                num_leaves,
            }),
    {
        Vocabulary { blocks, k, levels, num_blocks, num_leaves }
    }

    /// Branching factor the vocabulary was built with.
    pub fn k(&self) -> (r: usize)
        ensures
            r == self@.k,
    {
        self.k
    }

    /// Maximum tree depth the vocabulary was built with.
    pub fn levels(&self) -> (r: usize)
        ensures
            r == self@.levels,
    {
        self.levels
    }

    /// Number of non-root blocks.
    pub fn num_blocks(&self) -> (r: usize)
        ensures
            r == self@.num_blocks,
    {
        self.num_blocks
    }

    /// Number of words (leaves); the length of every histogram this
    /// vocabulary produces.
    pub fn num_leaves(&self) -> (r: usize)
        ensures
            r == self@.num_leaves,
    {
        self.num_leaves
    }

    /// The block table; `blocks()[i]` has id `Block(i)` and the root
    /// is `blocks()[0]`.
    pub fn blocks(&self) -> (r: &Vec<Block>)
        ensures
            r@.len() == self@.blocks.len(),
            forall|i: int| 0 <= i < r@.len() ==> r@[i]@ == self@.blocks[i],
    {
        &self.blocks
    }

    /// Resolve one feature to its leaf path.
    fn descend(&self, f: &Desc) -> (p: Vec<usize>)
        requires
            voc_wf(self@),
        ensures
            p@ == leaf_path_of(self@, f@),
            1 <= p@.len() <= self@.levels,
            p@.last() < self@.num_leaves,
    {
        let ghost v = self@;
        let mut bid: usize = 0;
        proof {
            lemma_leaf_of_from_wf(v, f@, 0);
        }
        loop
            invariant
                voc_wf(v),
                v == self@,
                0 <= bid < self.blocks.len(),
                leaf_of_from(v, f@, bid as int) == leaf_path_of(v, f@),
            decreases self.blocks@.len() - bid,
        {
            proof {
                assert(block_wf(v, bid as int));
            }
            let ch = &self.blocks[bid].children;
            let ghost feats = ch.features@.map(|i: int, d: Desc| d@);
            proof {
                assert(v.blocks[bid as int].children.features == feats);
                lemma_best_prefix_range(feats, f@, feats.len());
            }
            let n: usize = ch.features.len();
            let mut best_i: usize = 0;
            let mut best_d: u32 = hamming(&ch.features[0], f);
            let mut c: usize = 1;
            while c < n
                invariant
                    1 <= c <= n,
                    n == feats.len(),
                    feats == ch.features@.map(|i: int, d: Desc| d@),
                    best_i < c,
                    best_i == best_prefix(feats, f@, c as nat),
                    best_d == spec_hamming(feats[best_i as int], f@),
                decreases n - c,
            {
                let d = hamming(&ch.features[c], f);
                if d < best_d {
                    best_i = c;
                    best_d = d;
                }
                c = c + 1;
            }
            proof {
                assert(best_i == best_child(feats, f@));
                assert(child_wf(v, bid as int, best_i as int));
                assert(v.blocks[bid as int].children.ids[best_i as int] == ch.ids@[best_i as int]@);
            }
            match &ch.ids[best_i] {
                NodeId::Block(b) => {
                    bid = *b;
                },
                NodeId::Leaf(path) => {
                    let p = path.clone();
                    proof {
                        assert(p@ =~= path@);
                        lemma_leaf_of_from_wf(v, f@, 0);
                    }
                    return p;
                },
            }
        }
    }

    fn transform_inner(&self, features: &Vec<Desc>, with_di: bool) -> (r: Result<
        (BoW, DirectIdx),
        BowErr,
    >)
        ensures
            r is Ok <==> features@.len() > 0,
            r matches Err(e) ==> e == BowErr::NoFeatures,
            r matches Ok(p) ==> {
                &&& counts_ok(self@, features@, p.0@.counts)
                &&& p.0@.total == features@.len()
                &&& sum64(p.0@.counts) == p.0@.total
                &&& (with_di ==> direct_index_ok(self@, features@, p.1@))
                &&& (!with_di ==> p.1@.len() == 0)
            },
    {
        proof {
            use_type_invariant(self);
        }
        let ghost v = self@;
        let ghost fs = features@;
        if features.len() == 0 {
            return Err(BowErr::NoFeatures);
        }
        let n_words: usize = self.num_leaves;
        let mut counts: Vec<u64> = Vec::new();
        let mut z: usize = 0;
        while z < n_words
            invariant
                z <= n_words,
                counts@.len() == z,
                forall|w: int| 0 <= w < z ==> counts@[w] == 0,
                sum64(counts@) == 0,
            decreases n_words - z,
        {
            proof {
                assert(counts@.push(0u64).drop_last() =~= counts@);
            }
            counts.push(0);
            z = z + 1;
        }
        let mut di: DirectIdx = Vec::new();
        let mut i: usize = 0;
        proof {
            assert(fs.take(0) =~= Seq::<Desc>::empty());
        }
        while i < features.len()
            invariant
                i <= fs.len(),
                fs == features@,
                v == self@,
                voc_wf(v),
                n_words == v.num_leaves,
                counts@.len() == n_words,
                forall|w: int| 0 <= w < n_words ==> counts@[w] == count_word(v, fs.take(i as int), w),
                sum64(counts@) == i,
                with_di ==> di@.len() == i && forall|j: int|
                    0 <= j < i ==> di@[j]@ == leaf_path_of(v, fs[j]@),
                !with_di ==> di@.len() == 0,
            decreases fs.len() - i,
        {
            let p = self.descend(&features[i]);
            let w: usize = p[p.len() - 1];
            proof {
                assert(p@.last() == word_of(v, fs[i as int]@));
                lemma_sum64_element(counts@, w as int);
                lemma_sum64_update(counts@, w as int, (counts@[w as int] + 1) as u64);
                assert(fs.take(i + 1).drop_last() =~= fs.take(i as int));
                assert(fs.take(i + 1).last() == fs[i as int]);
            }
            let cur: u64 = counts[w];
            counts[w] = cur + 1;
            if with_di {
                di.push(p);
            }
            i = i + 1;
            proof {
                assert forall|w2: int| 0 <= w2 < n_words implies counts@[w2] == count_word(
                    v,
                    fs.take(i as int),
                    w2,
                ) by {
                }
            }
        }
        proof {
            assert(fs.take(fs.len() as int) =~= fs);
        }
        let total: u64 = features.len() as u64;
        let bow = BoW::from_parts(counts, total);
        Ok((bow, di))
    }

    /// Transform a batch of binary descriptors into its bag-of-words
    /// representation with respect to this vocabulary: entry `w` of
    /// the histogram counts the descriptors whose tree descent ends
    /// at word `w`, and the entries sum to the batch size (so the
    /// histogram is exactly L1-normalized as `counts[w] / total`).
    ///
    /// Errs with `NoFeatures` exactly when `features` is empty.
    pub fn transform(&self, features: &Vec<Desc>) -> (r: Result<BoW, BowErr>)
        ensures
            r is Ok <==> features@.len() > 0,
            r matches Err(e) ==> e == BowErr::NoFeatures,
            r matches Ok(b) ==> {
                &&& counts_ok(self@, features@, b@.counts)
                &&& b@.total == features@.len()
                &&& sum64(b@.counts) == b@.total
            },
    {
        match self.transform_inner(features, false) {
            Ok(p) => Ok(p.0),
            Err(e) => Err(e),
        }
    }

    /// Like `transform`, and additionally returns the direct index:
    /// entry `i` is the resolved leaf path of `features[i]` — its
    /// ancestor block ids (root excluded) followed by its word id.
    ///
    /// Errs with `NoFeatures` exactly when `features` is empty.
    pub fn transform_with_direct_idx(&self, features: &Vec<Desc>) -> (r: Result<
        (BoW, DirectIdx),
        BowErr,
    >)
        ensures
            r is Ok <==> features@.len() > 0,
            r matches Err(e) ==> e == BowErr::NoFeatures,
            r matches Ok(p) ==> {
                &&& counts_ok(self@, features@, p.0@.counts)
                &&& p.0@.total == features@.len()
                &&& sum64(p.0@.counts) == p.0@.total
                &&& direct_index_ok(self@, features@, p.1@)
            },
    {
        self.transform_inner(features, true)
    }
}

} // verus!
