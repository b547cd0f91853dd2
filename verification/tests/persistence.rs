use abow::desc::Desc;
use abow::load_fow::FbowParams;
use abow::vocab::{BowErr, NodeId, Vocabulary};

fn training_set() -> Vec<Desc> {
    let mut features: Vec<Desc> = Vec::new();
    for i in 0..30u8 {
        let mut d = [i.wrapping_mul(41); 32];
        d[(i % 32) as usize] ^= 0x3c;
        features.push(d);
    }
    features
}

#[test]
fn encode_decode_round_trip_is_structural_identity() {
    let features = training_set();
    let voc = Vocabulary::create(&features, 3, 2);
    let bytes = voc.encode();
    let back = Vocabulary::decode(&bytes).unwrap();
    assert_eq!(back, voc);
    assert_eq!(back.k(), voc.k());
    assert_eq!(back.levels(), voc.levels());
    assert_eq!(back.num_blocks(), voc.num_blocks());
    assert_eq!(back.num_leaves(), voc.num_leaves());
    assert_eq!(back.blocks(), voc.blocks());
    // The reloaded vocabulary answers queries identically.
    let a = voc.transform(&features).unwrap();
    let b = back.transform(&features).unwrap();
    assert_eq!(a.counts(), b.counts());
    // Encoding is stable: a second round trip gives the same bytes.
    assert_eq!(back.encode(), bytes);
}

#[test]
fn decode_rejects_corrupt_payloads() {
    let features = training_set();
    let voc = Vocabulary::create(&features, 2, 2);
    let bytes = voc.encode();

    // Truncated payload.
    let truncated: Vec<u8> = bytes[..bytes.len() - 3].to_vec();
    assert!(matches!(
        Vocabulary::decode(&truncated),
        Err(BowErr::Serialization)
    ));

    // Trailing garbage.
    let mut padded = bytes.clone();
    padded.push(0);
    assert!(matches!(
        Vocabulary::decode(&padded),
        Err(BowErr::Serialization)
    ));

    // Wrong signature.
    let mut wrong_magic = bytes.clone();
    wrong_magic[0] ^= 1;
    assert!(matches!(
        Vocabulary::decode(&wrong_magic),
        Err(BowErr::Serialization)
    ));

    // Empty input.
    assert!(matches!(
        Vocabulary::decode(&Vec::new()),
        Err(BowErr::Serialization)
    ));
}

fn put_u32(buf: &mut Vec<u8>, at: usize, v: u32) {
    buf[at..at + 4].copy_from_slice(&v.to_le_bytes());
}

fn put_u64(buf: &mut Vec<u8>, at: usize, v: u64) {
    buf[at..at + 8].copy_from_slice(&v.to_le_bytes());
}

/// A minimal legacy file: signature, 120-byte parameter header, one
/// block record of two leaf children.
fn legacy_file() -> Vec<u8> {
    let block_size: usize = 88;
    let mut buf = vec![0u8; 128 + block_size];
    // Header fields sit at their offset within the parameter block,
    // which starts after the 8-byte signature.
    put_u32(&mut buf, 8 + 56, 1); // nblocks
    put_u64(&mut buf, 8 + 64, 32); // descriptor size, padding included
    put_u64(&mut buf, 8 + 72, block_size as u64); // block size
    put_u64(&mut buf, 8 + 80, 8); // feature region offset
    put_u64(&mut buf, 8 + 88, 8 + 64); // child table offset
    put_u64(&mut buf, 8 + 96, block_size as u64); // total payload size
    put_u32(&mut buf, 8 + 112, 2); // branching factor
    let rec = 128;
    put_u32(&mut buf, rec + 4, 0); // block id 0 (the root)
    // Two child centroids.
    for t in 0..32 {
        buf[rec + 8 + t] = 0x00;
        buf[rec + 8 + 32 + t] = 0xff;
    }
    // Child table: leaf ids flagged by the high bit, then weights.
    put_u32(&mut buf, rec + 72, 0x8000_0000); // leaf 0
    put_u32(&mut buf, rec + 72 + 4, 1.0f32.to_bits());
    put_u32(&mut buf, rec + 80, 0x8000_0001); // leaf 1
    put_u32(&mut buf, rec + 80 + 4, 0.5f32.to_bits());
    buf
}

#[test]
fn legacy_loader_reconstructs_the_tree() {
    let buf = legacy_file();
    let voc = Vocabulary::load_voc(&buf).unwrap();
    assert_eq!(voc.k(), 2);
    assert_eq!(voc.num_leaves(), 2);
    assert_eq!(voc.num_blocks(), 0);
    assert_eq!(voc.blocks().len(), 1);
    let root = &voc.blocks()[0];
    assert_eq!(root.id, NodeId::Block(0));
    assert_eq!(root.children.ids[0], NodeId::Leaf(vec![0]));
    assert_eq!(root.children.ids[1], NodeId::Leaf(vec![1]));
    assert_eq!(root.children.features[0], [0x00u8; 32]);
    assert_eq!(root.children.features[1], [0xffu8; 32]);
    assert_eq!(f32::from_bits(root.children.weight_bits[0]), 1.0);
    assert_eq!(f32::from_bits(root.children.weight_bits[1]), 0.5);
    // Queries work against the loaded tree.
    let queries = vec![[0x01u8; 32], [0xfeu8; 32]];
    let bow = voc.transform(&queries).unwrap();
    assert_eq!(bow.counts().as_slice(), &[1u64, 1]);
}

#[test]
fn legacy_loader_rejects_wrong_descriptor_width() {
    let mut buf = legacy_file();
    put_u64(&mut buf, 8 + 64, 16);
    assert!(matches!(
        Vocabulary::load_voc(&buf),
        Err(BowErr::DescriptorSizeMismatch)
    ));
}

#[test]
fn legacy_loader_rejects_corrupt_files() {
    // Too short for the header.
    let short = vec![0u8; 60];
    assert!(matches!(
        Vocabulary::load_voc(&short),
        Err(BowErr::Serialization)
    ));

    // Payload size that does not match the file.
    let mut bad_total = legacy_file();
    put_u64(&mut bad_total, 8 + 96, 17);
    assert!(matches!(
        Vocabulary::load_voc(&bad_total),
        Err(BowErr::Serialization)
    ));

    // A dangling block reference: child claims block 5 of 1.
    let mut dangling = legacy_file();
    put_u32(&mut dangling, 128 + 72, 5);
    assert!(matches!(
        Vocabulary::load_voc(&dangling),
        Err(BowErr::Serialization)
    ));
}

#[test]
fn fbow_params_reads_the_fixed_layout() {
    // The parameter block alone, without the file signature.
    let mut buf = vec![0u8; 120];
    for t in 0..5 {
        buf[t] = b'o';
    }
    put_u32(&mut buf, 52, 9); // alignment
    put_u32(&mut buf, 56, 7); // nblocks
    put_u64(&mut buf, 64, 32); // descriptor size with padding
    put_u64(&mut buf, 72, 640); // block size with padding
    put_u64(&mut buf, 80, 16); // feature region offset
    put_u64(&mut buf, 88, 336); // child table offset
    put_u64(&mut buf, 96, 4480); // total size
    put_u32(&mut buf, 104, 5); // descriptor type tag
    put_u32(&mut buf, 108, 32); // descriptor size
    put_u32(&mut buf, 112, 10); // branching factor
    let p = FbowParams::load(buf);
    assert_eq!(&p.desc_name[..5], b"ooooo");
    assert_eq!(p.desc_name.len(), 50);
    assert_eq!(p.alignment, 9);
    assert_eq!(p.nblocks, 7);
    assert_eq!(p.desc_size_bytes_wp, 32);
    assert_eq!(p.block_size_bytes_wp, 640);
    assert_eq!(p.feature_off_start, 16);
    assert_eq!(p.child_off_start, 336);
    assert_eq!(p.total_size, 4480);
    assert_eq!(p.desc_type, 5);
    assert_eq!(p.desc_size, 32);
    assert_eq!(p.m_k, 10);
}
