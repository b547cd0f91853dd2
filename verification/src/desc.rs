use vstd::prelude::*;

verus! {

/// Number of bytes in a binary descriptor.
pub const DESC_BYTES: usize = 32;

/// Number of bits in a binary descriptor.
pub const DESC_BITS: usize = 256;

/// Supported descriptor type: a 256-bit binary code.
///
/// This is the most commonly used keypoint descriptor data type,
/// produced for example by ORB and BRIEF.
pub type Desc = [u8; 32];

/// Number of set bits among the low `k` bits of `n`.
pub open spec fn pop_bits(n: nat, k: nat) -> nat
    decreases k,
{
    if k == 0 {
        0
    } else {
        n % 2 + pop_bits(n / 2, (k - 1) as nat)
    }
}

/// Number of set bits of a byte.
pub open spec fn pop8(b: u8) -> nat {
    pop_bits(b as nat, 8)
}

pub proof fn lemma_pop_bits_bound(n: nat, k: nat)
    ensures
        pop_bits(n, k) <= k,
    decreases k,
{
    if k > 0 {
        lemma_pop_bits_bound(n / 2, (k - 1) as nat);
    }
}

/// Population count of one byte.
pub fn popcount8(b: u8) -> (r: u8)
    ensures
        r as nat == pop8(b),
        r <= 8,
{
    let mut v: u8 = b;
    let mut r: u8 = 0;
    let mut i: usize = 0;
    while i < 8
        invariant
            i <= 8,
            r <= i,
            r as nat + pop_bits(v as nat, (8 - i) as nat) == pop8(b),
        decreases 8 - i,
    {
        assert((v & 1) == v as nat % 2) by (bit_vector);
        assert((v >> 1) == v as nat / 2) by (bit_vector);
        r = r + (v & 1);
        v = v >> 1;
        i = i + 1;
    }
    proof {
        lemma_pop_bits_bound(b as nat, 8);
    }
    r
}

/// Hamming distance restricted to the first `n` byte positions.
pub open spec fn ham_prefix(a: Seq<u8>, b: Seq<u8>, n: nat) -> nat
    recommends
        n <= a.len(),
        n <= b.len(),
    decreases n,
{
    if n == 0 {
        0
    } else {
        ham_prefix(a, b, (n - 1) as nat) + pop8(a[n - 1] ^ b[n - 1])
    }
}

/// Hamming distance between two descriptors (given as their byte
/// sequences): the number of differing bits.
pub open spec fn spec_hamming(a: Seq<u8>, b: Seq<u8>) -> nat {
    ham_prefix(a, b, 32)
}

/// Hamming distance between two binary descriptors.
pub fn hamming(x: &Desc, y: &Desc) -> (d: u32)
    ensures
        d == spec_hamming(x@, y@),
        d <= 256,
{
    let mut d: u32 = 0;
    let mut i: usize = 0;
    while i < 32
        invariant
            i <= 32,
            d as nat == ham_prefix(x@, y@, i as nat),
            d <= 8 * i,
        decreases 32 - i,
    {
        let p = popcount8(x[i] ^ y[i]);
        d = d + p as u32;
        i = i + 1;
    }
    d
}

/// Copy one descriptor out of a byte buffer.
pub(crate) fn read_desc(b: &Vec<u8>, pos: usize) -> (d: Desc)
    requires
        pos + 32 <= b@.len(),
    ensures
        d@ == b@.subrange(pos as int, pos + 32),
{
    let blen: usize = b.len();
    let mut d: Desc = [0u8; 32];
    let mut t: usize = 0;
    while t < 32
        invariant
            t <= 32,
            pos + 32 <= b@.len(),
            b@.len() == blen,
            d@.len() == 32,
            forall|j: int| 0 <= j < t ==> d@[j] == b@[pos + j],
        decreases 32 - t,
    {
        d[t] = b[pos + t];
        t = t + 1;
    }
    proof {
        assert(d@ =~= b@.subrange(pos as int, pos + 32));
    }
    d
}

/// Byte-exact equality of two descriptors.
pub fn desc_eq(a: &Desc, b: &Desc) -> (r: bool)
    ensures
        r <==> a@ == b@,
{
    let mut i: usize = 0;
    while i < 32
        invariant
            i <= 32,
            forall|j: int| 0 <= j < i ==> a@[j] == b@[j],
        decreases 32 - i,
    {
        if a[i] != b[i] {
            return false;
        }
        i = i + 1;
    }
    proof {
        assert(a@ =~= b@);
    }
    true
}

} // verus!
