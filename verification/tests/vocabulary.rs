use abow::bow::BoW;
use abow::desc::{desc_eq, hamming, Desc};
use abow::vocab::{BowErr, NodeId, Vocabulary};

fn desc_fill(b: u8) -> Desc {
    [b; 32]
}

fn stripes() -> Desc {
    [0x0f; 32]
}

#[test]
fn hamming_counts_differing_bits() {
    let zero = desc_fill(0x00);
    let ones = desc_fill(0xff);
    assert_eq!(hamming(&zero, &ones), 256);
    assert_eq!(hamming(&zero, &zero), 0);
    assert_eq!(hamming(&ones, &ones), 0);
    let mut one_bit = desc_fill(0x00);
    one_bit[7] = 0x10;
    assert_eq!(hamming(&zero, &one_bit), 1);
    assert_eq!(hamming(&zero, &stripes()), 128);
    assert_eq!(hamming(&ones, &stripes()), 128);
}

#[test]
fn desc_eq_is_byte_exact() {
    let a = desc_fill(3);
    let mut b = desc_fill(3);
    assert!(desc_eq(&a, &b));
    b[31] = 4;
    assert!(!desc_eq(&a, &b));
}

#[test]
fn transform_of_empty_input_is_no_features() {
    let features = vec![desc_fill(1), desc_fill(2)];
    let voc = Vocabulary::create(&features, 2, 1);
    let empty: Vec<Desc> = Vec::new();
    match voc.transform(&empty) {
        Err(BowErr::NoFeatures) => {}
        other => panic!("expected NoFeatures, got {:?}", other),
    }
    match voc.transform_with_direct_idx(&empty) {
        Err(BowErr::NoFeatures) => {}
        other => panic!("expected NoFeatures, got {:?}", other),
    }
}

#[test]
fn two_identical_descriptors_form_one_word() {
    // Two identical descriptors, k = 2, levels = 1: the distinct-set
    // short circuit applies, giving a single centroid, one leaf of
    // cluster size 2, and a histogram of length 1 with full weight.
    let d = desc_fill(0xa5);
    let features = vec![d, d];
    let voc = Vocabulary::create(&features, 2, 1);
    assert_eq!(voc.num_leaves(), 1);
    assert_eq!(voc.num_blocks(), 0);
    assert_eq!(voc.blocks().len(), 1);
    let root = &voc.blocks()[0];
    assert_eq!(root.id, NodeId::Block(0));
    assert_eq!(root.children.ids.len(), 1);
    assert_eq!(root.children.cluster_size[0], 2);
    assert_eq!(root.children.ids[0], NodeId::Leaf(vec![0]));
    let bow = voc.transform(&features).unwrap();
    assert_eq!(bow.counts().as_slice(), &[2u64]);
    assert_eq!(bow.total(), 2);
    let value = bow.counts()[0] as f32 / bow.total() as f32;
    assert_eq!(value, 1.0);
}

#[test]
fn three_distant_descriptors_form_three_words() {
    // Pairwise Hamming distance at least half the descriptor width,
    // k = 3, levels = 1: three singleton clusters, each input
    // descriptor lands on its own word, so the normalized histogram
    // has three entries of one third.
    let a = desc_fill(0x00);
    let b = desc_fill(0xff);
    let c = stripes();
    assert!(hamming(&a, &b) >= 128);
    assert!(hamming(&a, &c) >= 128);
    assert!(hamming(&b, &c) >= 128);
    let features = vec![a, b, c];
    let voc = Vocabulary::create(&features, 3, 1);
    assert_eq!(voc.num_leaves(), 3);
    assert_eq!(voc.blocks().len(), 1);
    let root = &voc.blocks()[0];
    assert_eq!(root.children.ids.len(), 3);
    for cs in root.children.cluster_size.iter() {
        assert_eq!(*cs, 1);
    }
    let bow = voc.transform(&features).unwrap();
    assert_eq!(bow.total(), 3);
    let mut float_entries: Vec<f32> = Vec::new();
    for w in bow.counts().iter() {
        assert_eq!(*w, 1);
        float_entries.push(*w as f32 / bow.total() as f32);
    }
    for e in float_entries {
        assert!((e - 1.0 / 3.0).abs() < 1e-6);
    }
}

#[test]
fn created_histogram_sums_to_one() {
    // create followed by transform on the same set never errors and
    // the histogram entries sum to the batch size, i.e. exactly one
    // after normalization.
    let mut features: Vec<Desc> = Vec::new();
    for i in 0..40u8 {
        let mut d = desc_fill(i.wrapping_mul(37));
        d[(i % 32) as usize] ^= 0x81;
        features.push(d);
    }
    for (k, levels) in [(2usize, 1usize), (3, 2), (4, 3)] {
        let voc = Vocabulary::create(&features, k, levels);
        let bow = voc.transform(&features).unwrap();
        let sum: u64 = bow.counts().iter().sum();
        assert_eq!(sum, bow.total());
        assert_eq!(bow.total(), features.len() as u64);
        let float_sum: f32 = bow
            .counts()
            .iter()
            .map(|c| *c as f32 / bow.total() as f32)
            .sum();
        assert!((float_sum - 1.0).abs() < 1e-5);
    }
}

#[test]
fn repeated_transform_is_deterministic() {
    let mut features: Vec<Desc> = Vec::new();
    for i in 0..24u8 {
        features.push(desc_fill(i.wrapping_mul(11)));
    }
    let voc = Vocabulary::create(&features, 3, 2);
    let first = voc.transform(&features).unwrap();
    let second = voc.transform(&features).unwrap();
    assert_eq!(first.counts(), second.counts());
    assert_eq!(first.total(), second.total());
    let (third, di_a) = voc.transform_with_direct_idx(&features).unwrap();
    let (_fourth, di_b) = voc.transform_with_direct_idx(&features).unwrap();
    assert_eq!(first.counts(), third.counts());
    assert_eq!(di_a, di_b);
}

#[test]
fn leaf_paths_respect_depth_limit() {
    let mut features: Vec<Desc> = Vec::new();
    for i in 0..60u8 {
        let mut d = desc_fill(i.wrapping_mul(29));
        d[(i % 32) as usize] = i;
        features.push(d);
    }
    let levels = 3usize;
    let voc = Vocabulary::create(&features, 2, levels);
    assert_eq!(voc.levels(), levels);
    for (i, block) in voc.blocks().iter().enumerate() {
        assert_eq!(block.id, NodeId::Block(i));
        for id in block.children.ids.iter() {
            if let NodeId::Leaf(path) = id {
                assert!(path.len() >= 1);
                assert!(path.len() <= levels);
                assert!(*path.last().unwrap() < voc.num_leaves());
            }
        }
    }
    // The direct index entries are exactly the leaf paths.
    let (_bow, di) = voc.transform_with_direct_idx(&features).unwrap();
    assert_eq!(di.len(), features.len());
    for path in di {
        assert!(path.len() <= levels);
        assert!(*path.last().unwrap() < voc.num_leaves());
    }
}

#[test]
fn single_level_vocabulary_has_only_the_root() {
    let mut features: Vec<Desc> = Vec::new();
    for i in 0..10u8 {
        features.push(desc_fill(i.wrapping_mul(59)));
    }
    let voc = Vocabulary::create(&features, 4, 1);
    assert_eq!(voc.blocks().len(), 1);
    for id in voc.blocks()[0].children.ids.iter() {
        assert!(matches!(id, NodeId::Leaf(_)));
    }
}

#[test]
fn direct_index_single_level_paths_are_word_ids() {
    let a = desc_fill(0x00);
    let b = desc_fill(0xff);
    let features = vec![a, b];
    let voc = Vocabulary::create(&features, 2, 1);
    let (bow, di) = voc.transform_with_direct_idx(&features).unwrap();
    assert_eq!(bow.total(), 2);
    assert_eq!(di.len(), 2);
    for path in &di {
        assert_eq!(path.len(), 1);
    }
    assert_ne!(di[0][0], di[1][0]);
}

#[test]
fn direct_index_paths_are_the_visited_chains() {
    // Each direct index entry lists the block ids the descent walked
    // through (root excluded) and ends with the word id: every entry
    // but the last names a child block of the previous node, and the
    // full path is stored at the final leaf.
    let mut features: Vec<Desc> = Vec::new();
    for i in 0..48u8 {
        let mut d = desc_fill(i.wrapping_mul(53));
        d[(i % 32) as usize] = i.wrapping_mul(7);
        features.push(d);
    }
    let voc = Vocabulary::create(&features, 2, 4);
    let (_bow, di) = voc.transform_with_direct_idx(&features).unwrap();
    for path in &di {
        let mut cur: usize = 0;
        for t in 0..path.len() - 1 {
            let next = path[t];
            let found = voc.blocks()[cur]
                .children
                .ids
                .iter()
                .any(|id| *id == NodeId::Block(next));
            assert!(found, "path entry {} is not a child of block {}", next, cur);
            cur = next;
        }
        let leaf_found = voc.blocks()[cur]
            .children
            .ids
            .iter()
            .any(|id| *id == NodeId::Leaf(path.clone()));
        assert!(leaf_found, "final leaf of {:?} not stored at block {}", path, cur);
    }
}

#[test]
fn bow_from_counts_and_overflow() {
    let bow = BoW::from_counts(vec![1, 2, 3]).unwrap();
    assert_eq!(bow.total(), 6);
    assert_eq!(bow.counts().as_slice(), &[1u64, 2, 3]);
    assert!(BoW::from_counts(vec![u64::MAX, 1]).is_none());
    let empty = BoW::from_counts(Vec::new()).unwrap();
    assert_eq!(empty.total(), 0);
}
