use vstd::prelude::*;

verus! {

/// Sum of a sequence of word counts.
pub open spec fn sum64(s: Seq<u64>) -> int
    decreases s.len(),
{
    if s.len() == 0 {
        0
    } else {
        sum64(s.drop_last()) + s.last()
    }
}

pub proof fn lemma_sum64_nonneg(s: Seq<u64>)
    ensures
        0 <= sum64(s),
    decreases s.len(),
{
    if s.len() > 0 {
        lemma_sum64_nonneg(s.drop_last());
    }
}

pub proof fn lemma_sum64_update(s: Seq<u64>, i: int, v: u64)
    requires
        0 <= i < s.len(),
    ensures
        sum64(s.update(i, v)) == sum64(s) - s[i] + v,
    decreases s.len(),
{
    if i == s.len() - 1 {
        assert(s.update(i, v).drop_last() =~= s.drop_last());
    } else {
        assert(s.update(i, v).drop_last() =~= s.drop_last().update(i, v));
        lemma_sum64_update(s.drop_last(), i, v);
    }
}

pub proof fn lemma_sum64_element(s: Seq<u64>, i: int)
    requires
        0 <= i < s.len(),
    ensures
        s[i] <= sum64(s),
    decreases s.len(),
{
    lemma_sum64_nonneg(s.drop_last());
    if i < s.len() - 1 {
        lemma_sum64_element(s.drop_last(), i);
    }
}

pub proof fn lemma_sum64_take(s: Seq<u64>, n: int)
    requires
        0 <= n <= s.len(),
    ensures
        sum64(s.take(n)) <= sum64(s),
    decreases s.len() - n,
{
    if n == s.len() {
        assert(s.take(n) =~= s);
    } else {
        assert(s.take(n + 1).drop_last() =~= s.take(n));
        lemma_sum64_take(s, n + 1);
    }
}

/// Pointwise distance between two count vectors brought to the common
/// denominator `ta * tb`: the sum of `|a[i] * tb - b[i] * ta|`.
pub open spec fn l1_dist(a: Seq<u64>, b: Seq<u64>, ta: u64, tb: u64) -> int
    decreases a.len(),
{
    if a.len() == 0 || b.len() == 0 {
        0
    } else {
        let x = a.last() * tb;
        let y = b.last() * ta;
        l1_dist(a.drop_last(), b.drop_last(), ta, tb) + if x >= y {
            x - y
        } else {
            y - x
        }
    }
}

pub proof fn lemma_l1_dist_self(a: Seq<u64>, t: u64)
    ensures
        l1_dist(a, a, t, t) == 0,
    decreases a.len(),
{
    if a.len() > 0 {
        lemma_l1_dist_self(a.drop_last(), t);
    }
}

/// An exact similarity score: the rational number `num / den`,
/// which lies in `[0, 1]`; `num == den` means identical distributions.
#[derive(Clone, Copy, Debug, PartialEq, Eq, Structural)]
pub struct Similarity {
    pub num: u128,
    pub den: u128,
}

/// Largest total for which the similarity score is computed: the
/// exact rational arithmetic needs `2 * ta * tb` to fit 128 bits,
/// which this bound guarantees. Totals count query descriptors, so
/// only batches beyond nine quintillion descriptors fall outside it;
/// comparing such histograms returns `None` rather than an
/// approximate score.
pub const MAX_SCORED_TOTAL: u64 = 0x7fff_ffff_ffff_ffff;

/// The L1 similarity score `1 - 0.5 * sum |a[i]/ta - b[i]/tb|` as an
/// exact rational with denominator `2 * ta * tb`, or `None` when the
/// two vectors do not come from the same vocabulary (their lengths
/// differ), a total is zero, or a total is too large to score exactly.
pub open spec fn spec_l1(a: Seq<u64>, ta: u64, b: Seq<u64>, tb: u64) -> Option<Similarity> {
    if a.len() == b.len() && 1 <= ta <= MAX_SCORED_TOTAL && 1 <= tb <= MAX_SCORED_TOTAL {
        let den = 2 * (ta as int) * (tb as int);
        let dist = l1_dist(a, b, ta, tb);
        Some(Similarity { num: (den - dist) as u128, den: den as u128 })
    } else {
        None
    }
}

/// Bag-of-Words representation of a descriptor set.
///
/// Index: word (leaf) id in the vocabulary. Entry: number of query
/// descriptors that were assigned to that word. Together with `total`,
/// the number of all query descriptors, the entries form the exact
/// L1-normalized histogram `counts[w] / total`.
#[derive(Debug)]
pub struct BoW {
    counts: Vec<u64>,
    total: u64,
}

/// Spec-level image of a `BoW`.
pub ghost struct BoWView {
    pub counts: Seq<u64>,
    pub total: u64,
}

impl View for BoW {
    type V = BoWView;

    closed spec fn view(&self) -> BoWView {
        BoWView { counts: self.counts@, total: self.total }
    }
}

impl BoW {
    #[verifier::type_invariant]
    spec fn type_inv(self) -> bool {
        sum64(self.counts@) == self.total
    }

    /// The counts hold exactly their stated sum.
    pub open spec fn wf(self) -> bool {
        sum64(self@.counts) == self@.total
    }

    /// Word histogram entries, indexed by word id.
    pub fn counts(&self) -> (r: &Vec<u64>)
        ensures
            r@ == self@.counts,
    {
        &self.counts
    }

    /// Number of descriptors the histogram was built from; the sum of
    /// all entries.
    pub fn total(&self) -> (r: u64)
        ensures
            r == self@.total,
    {
        self.total
    }

    /// Assemble a histogram whose total is already known to match.
    pub(crate) fn from_parts(counts: Vec<u64>, total: u64) -> (r: BoW)
        requires
            sum64(counts@) == total,
        ensures
            r@.counts == counts@,
            r@.total == total,
    {
        BoW { counts, total }
    }

    /// Build a histogram directly from word counts; `None` when the
    /// counts overflow a 64-bit total.
    pub fn from_counts(counts: Vec<u64>) -> (r: Option<BoW>)
        ensures
            r is Some <==> sum64(counts@) <= u64::MAX,
            r matches Some(b) ==> b@.counts == counts@ && b@.total == sum64(counts@),
    {
        let mut total: u64 = 0;
        let mut i: usize = 0;
        while i < counts.len()
            invariant
                i <= counts.len(),
                total == sum64(counts@.take(i as int)),
            decreases counts.len() - i,
        {
            proof {
                assert(counts@.take(i + 1).drop_last() =~= counts@.take(i as int));
                lemma_sum64_take(counts@, i + 1);
                lemma_sum64_nonneg(counts@.take(i + 1));
            }
            let ghost new_sum = sum64(counts@.take(i + 1));
            if counts[i] > u64::MAX - total {
                proof {
                    if sum64(counts@) <= u64::MAX {
                        assert(false);
                    }
                }
                return None;
            }
            total = total + counts[i];
            i = i + 1;
        }
        proof {
            assert(counts@.take(counts@.len() as int) =~= counts@);
        }
        Some(BoW { counts, total })
    }

    /// L1 similarity between two bags of words built over the same
    /// vocabulary, as an exact rational score in `[0, 1]`.
    ///
    /// `None` when the vectors' lengths differ (they cannot come from
    /// the same vocabulary), when a side is empty (`total == 0`), or
    /// when a total exceeds `MAX_SCORED_TOTAL`.
    pub fn l1(&self, other: &BoW) -> (r: Option<Similarity>)
        ensures
            r == spec_l1(self@.counts, self@.total, other@.counts, other@.total),
            r matches Some(s) ==> s.num <= s.den && s.den > 0,
    {
        proof {
            use_type_invariant(self);
            use_type_invariant(other);
        }
        if self.counts.len() != other.counts.len() {
            return None;
        }
        if self.total == 0 || self.total > MAX_SCORED_TOTAL || other.total == 0
            || other.total > MAX_SCORED_TOTAL {
            return None;
        }
        let ta: u128 = self.total as u128;
        let tb: u128 = other.total as u128;
        let mut dist: u128 = 0;
        let mut i: usize = 0;
        let ghost av = self.counts@;
        let ghost bv = other.counts@;
        proof {
            lemma_sum64_nonneg(av);
            lemma_sum64_nonneg(bv);
        }
        while i < self.counts.len()
            invariant
                i <= av.len(),
                av.len() == bv.len(),
                av == self.counts@,
                bv == other.counts@,
                ta == self@.total,
                tb == other@.total,
                1 <= ta <= MAX_SCORED_TOTAL,
                1 <= tb <= MAX_SCORED_TOTAL,
                sum64(av) == self@.total,
                sum64(bv) == other@.total,
                dist == l1_dist(av.take(i as int), bv.take(i as int), self.total, other.total),
                dist <= sum64(av.take(i as int)) * tb + sum64(bv.take(i as int)) * ta,
            decreases av.len() - i,
        {
            proof {
                lemma_sum64_element(av, i as int);
                lemma_sum64_element(bv, i as int);
                // The element products stay below 2^64, so they fit u128.
                assert(av[i as int] * tb <= 0x7fff_ffff_ffff_ffff * 0x7fff_ffff_ffff_ffffu128 && bv[i as int] * ta
                    <= 0x7fff_ffff_ffff_ffff * 0x7fff_ffff_ffff_ffffu128) by (nonlinear_arith)
                    requires
                        0 <= av[i as int] <= 0x7fff_ffff_ffff_ffff,
                        0 <= bv[i as int] <= 0x7fff_ffff_ffff_ffff,
                        0 <= ta <= 0x7fff_ffff_ffff_ffff,
                        0 <= tb <= 0x7fff_ffff_ffff_ffff,
                ;
            }
            let x: u128 = (self.counts[i] as u128) * tb;
            let y: u128 = (other.counts[i] as u128) * ta;
            let d: u128 = if x >= y {
                x - y
            } else {
                y - x
            };
            proof {
                assert(av.take(i + 1).drop_last() =~= av.take(i as int));
                assert(bv.take(i + 1).drop_last() =~= bv.take(i as int));
                assert(sum64(av.take(i + 1)) * tb == sum64(av.take(i as int)) * tb + av[i as int]
                    * tb) by (nonlinear_arith)
                    requires
                        sum64(av.take(i + 1)) == sum64(av.take(i as int)) + av[i as int],
                ;
                assert(sum64(bv.take(i + 1)) * ta == sum64(bv.take(i as int)) * ta + bv[i as int]
                    * ta) by (nonlinear_arith)
                    requires
                        sum64(bv.take(i + 1)) == sum64(bv.take(i as int)) + bv[i as int],
                ;
                lemma_sum64_take(av, i + 1);
                lemma_sum64_take(bv, i + 1);
                lemma_sum64_nonneg(av.take(i + 1));
                lemma_sum64_nonneg(bv.take(i + 1));
                assert(sum64(av.take(i + 1)) * tb + sum64(bv.take(i + 1)) * ta <= 2
                    * 0x7fff_ffff_ffff_ffff * 0x7fff_ffff_ffff_ffffu128) by (nonlinear_arith)
                    requires
                        0 <= sum64(av.take(i + 1)) <= ta,
                        0 <= sum64(bv.take(i + 1)) <= tb,
                        0 <= ta <= 0x7fff_ffff_ffff_ffff,
                        0 <= tb <= 0x7fff_ffff_ffff_ffff,
                ;
            }
            dist = dist + d;
            i = i + 1;
        }
        proof {
            assert(av.take(av.len() as int) =~= av);
            assert(bv.take(bv.len() as int) =~= bv);
            assert(2 * ta * tb <= 2 * 0x7fff_ffff_ffff_ffff * 0x7fff_ffff_ffff_ffffu128) by (nonlinear_arith)
                requires
                    0 <= ta <= 0x7fff_ffff_ffff_ffff,
                    0 <= tb <= 0x7fff_ffff_ffff_ffff,
            ;
            assert(dist <= 2 * ta * tb) by (nonlinear_arith)
                requires
                    dist <= sum64(av) * tb + sum64(bv) * ta,
                    sum64(av) == ta,
                    sum64(bv) == tb,
            ;
            assert(2 * ta * tb >= 2) by (nonlinear_arith)
                requires
                    ta >= 1,
                    tb >= 1,
            ;
        }
        let den: u128 = 2 * ta * tb;
        let num: u128 = den - dist;
        Some(Similarity { num, den })
    }
}

/// Comparing any bag of words with itself scores exactly one: the
/// similarity's numerator equals its denominator.
pub proof fn lemma_l1_self(c: Seq<u64>, t: u64)
    requires
        1 <= t <= MAX_SCORED_TOTAL,
    ensures
        spec_l1(c, t, c, t) matches Some(s) && s.num == s.den,
{
    lemma_l1_dist_self(c, t);
}

} // verus!
