use abow::bow::BoW;
use abow::desc::Desc;
use abow::vocab::Vocabulary;

#[test]
fn l1_of_a_bow_with_itself_is_one() {
    let bow = BoW::from_counts(vec![3, 0, 1, 2]).unwrap();
    let s = bow.l1(&bow).unwrap();
    assert_eq!(s.num, s.den);
    // The same check through a float evaluation of the score.
    let value = s.num as f64 / s.den as f64;
    assert_eq!(value, 1.0);
}

#[test]
fn l1_float_identity_within_tolerance() {
    // 1 - 0.5 * sum |a[i] - b[i]| over the normalized entries.
    let bow = BoW::from_counts(vec![5, 1, 4]).unwrap();
    let norm: Vec<f32> = bow
        .counts()
        .iter()
        .map(|c| *c as f32 / bow.total() as f32)
        .collect();
    let dist: f32 = norm
        .iter()
        .zip(&norm)
        .fold(0.0, |acc, (x, y)| acc + (x - y).abs());
    let score = 1.0 - 0.5 * dist;
    assert!((score - 1.0).abs() < 1e-6);
}

#[test]
fn l1_of_disjoint_bows_is_zero() {
    let a = BoW::from_counts(vec![1, 0]).unwrap();
    let b = BoW::from_counts(vec![0, 1]).unwrap();
    let s = a.l1(&b).unwrap();
    // dist = |1*1 - 0| + |0 - 1*1| = 2, den = 2*1*1 = 2, num = 0.
    assert_eq!(s.den, 2);
    assert_eq!(s.num, 0);
}

#[test]
fn l1_exact_value_on_small_example() {
    // a = [2,2]/4, b = [1,3]/4: dist over denominator 16 is
    // |2*4-1*4| + |2*4-3*4| = 8, den = 32, num = 24: score 0.75.
    let a = BoW::from_counts(vec![2, 2]).unwrap();
    let b = BoW::from_counts(vec![1, 3]).unwrap();
    let s = a.l1(&b).unwrap();
    assert_eq!(s.den, 32);
    assert_eq!(s.num, 24);
    let value = s.num as f32 / s.den as f32;
    assert!((value - 0.75).abs() < 1e-6);
}

#[test]
fn l1_rejects_mismatched_lengths() {
    // Histograms of different lengths cannot come from the same
    // vocabulary; comparing them is an explicit error, not a silent
    // truncation.
    let a = BoW::from_counts(vec![1, 2, 3]).unwrap();
    let b = BoW::from_counts(vec![1, 2]).unwrap();
    assert!(a.l1(&b).is_none());
}

#[test]
fn l1_rejects_empty_sides() {
    let a = BoW::from_counts(vec![0, 0]).unwrap();
    let b = BoW::from_counts(vec![1, 1]).unwrap();
    assert!(a.l1(&b).is_none());
    assert!(b.l1(&a).is_none());
}

#[test]
fn l1_scores_bows_of_one_vocabulary() {
    let mut features: Vec<Desc> = Vec::new();
    for i in 0..16u8 {
        features.push([i.wrapping_mul(73); 32]);
    }
    let voc = Vocabulary::create(&features, 3, 2);
    let all = voc.transform(&features).unwrap();
    let half: Vec<Desc> = features[..8].to_vec();
    let some = voc.transform(&half).unwrap();
    let s_self = all.l1(&all).unwrap();
    assert_eq!(s_self.num, s_self.den);
    let s_cross = all.l1(&some).unwrap();
    assert!(s_cross.num <= s_cross.den);
    let s_back = some.l1(&all).unwrap();
    assert_eq!(s_cross.num * s_back.den, s_back.num * s_cross.den);
}
