use vstd::prelude::*;

verus! {

/// A fixed-width basis-state encoding: bit i holds the value of qubit i,
/// for up to 64 qubits.  All operations return new values; nothing is
/// mutated in place.
#[derive(Clone, Copy, PartialEq, Eq, Structural, Debug, Hash)]
pub struct BitVec {
    pub bits: u64,
}

/// Bit i of w, as 0 or 1.
pub open spec fn spec_bit(w: u64, i: u32) -> u32 {
    ((w >> i) & 1) as u32
}

/// w with bit i forced to b.
pub open spec fn spec_set_bit(w: u64, i: u32, b: u32) -> u64 {
    (w & !(1u64 << i)) | ((b as u64) << i)
}

/// w with bit i inverted.
pub open spec fn spec_flip_bit(w: u64, i: u32) -> u64 {
    w ^ (1u64 << i)
}

/// The big-endian integer value of the first k bits of w: bit 0 is the
/// most significant of the k, bit k - 1 the least.
pub open spec fn be_val(w: u64, k: nat) -> nat
    decreases k,
{
    if k == 0 {
        0
    } else {
        (2 * be_val(w, (k - 1) as nat) + spec_bit(w, (k - 1) as u32)) as nat
    }
}

/// The first k bits of w, read big-endian, are below 2^k.
pub proof fn lemma_be_val_bound(w: u64, k: nat)
    ensures
        be_val(w, k) < vstd::arithmetic::power2::pow2(k),
    decreases k,
{
    vstd::arithmetic::power2::lemma_pow2_pos(k);
    if k > 0 {
        lemma_be_val_bound(w, (k - 1) as nat);
        let j: u32 = (k - 1) as u32;
        assert(spec_bit(w, j) <= 1) by (bit_vector);
        assert(vstd::arithmetic::power2::pow2(k)
            == 2 * vstd::arithmetic::power2::pow2((k - 1) as nat)) by {
            vstd::arithmetic::power2::lemma_pow2_unfold(k);
        }
    }
}

/// Setting or flipping a bit below n leaves the bits from n upward clear.
pub proof fn lemma_bit_ops_bounded(w: u64, i: u32, b: u32, n: u32)
    by (bit_vector)
    requires
        i < n,
        n <= 64,
        w >> n == 0,
        b <= 1,
    ensures
        spec_set_bit(w, i, b) >> n == 0,
        spec_flip_bit(w, i) >> n == 0,
{
}

impl BitVec {
    /// The value of qubit i, as 0 or 1.
    pub fn get_bit(&self, i: u32) -> (r: u32)
        requires
            i < 64,
        ensures
            r == spec_bit(self.bits, i),
            r <= 1,
    {
        proof {
            let w = self.bits;
            assert(((w >> i) & 1) <= 1) by (bit_vector);
        }
        ((self.bits >> i) & 1) as u32
    }

    /// A copy of the state with qubit i forced to b.
    pub fn set_bit(&self, i: u32, b: u32) -> (r: BitVec)
        requires
            i < 64,
            b <= 1,
        ensures
            r.bits == spec_set_bit(self.bits, i, b),
    {
        BitVec { bits: (self.bits & !(1u64 << i)) | ((b as u64) << i) }
    }

    /// A copy of the state with qubit i inverted.
    pub fn flip_bit(&self, i: u32) -> (r: BitVec)
        requires
            i < 64,
        ensures
            r.bits == spec_flip_bit(self.bits, i),
    {
        BitVec { bits: self.bits ^ (1u64 << i) }
    }

    /// The first n qubits as a bit string, highest qubit printed first:
    /// position j holds qubit n - 1 - j.
    pub fn to_be_string(&self, n: u32) -> (r: String)
        requires
            n <= 64,
        ensures
            r@.len() == n,
            forall|j: int| 0 <= j < n ==> r@[j] == (if spec_bit(self.bits, (n - 1 - j) as u32)
                == 1 {
                '1'
            } else {
                '0'
            }),
    {
        let mut r = String::new();
        let mut i: u32 = n;
        while i > 0
            invariant
                i <= n <= 64,
                r@.len() == n - i,
                forall|j: int| 0 <= j < n - i ==> r@[j] == (if spec_bit(
                    self.bits,
                    (n - 1 - j) as u32,
                ) == 1 {
                    '1'
                } else {
                    '0'
                }),
            decreases i,
        {
            proof {
                reveal_strlit("0");
                reveal_strlit("1");
            }
            i = i - 1;
            if self.get_bit(i) == 1 {
                r.append("1");
            } else {
                r.append("0");
            }
        }
        r
    }

    /// The first n qubits as a big-endian unsigned integer: qubit 0 is the
    /// most significant bit.  This is the canonical output index.
    pub fn to_be_u64(&self, n: u32) -> (r: u64)
        requires
            n <= 64,
        ensures
            r == be_val(self.bits, n as nat),
    {
        let mut acc: u64 = 0;
        let mut i: u32 = 0;
        while i < n
            invariant
                i <= n <= 64,
                acc == be_val(self.bits, i as nat),
            decreases n - i,
        {
            proof {
                lemma_be_val_bound(self.bits, i as nat);
                vstd::arithmetic::power2::lemma_pow2_strictly_increases(i as nat, 64);
                vstd::arithmetic::power2::lemma2_to64();
                if (i as nat) < 63 {
                    vstd::arithmetic::power2::lemma_pow2_strictly_increases(i as nat, 63);
                }
                vstd::arithmetic::power2::lemma2_to64_rest();
            }
            let b = self.get_bit(i);
            acc = acc * 2 + (b as u64);
            i = i + 1;
        }
        acc
    }

    /// The first n qubits as a vector, qubit i at position i.
    pub fn to_vec(&self, n: u32) -> (r: Vec<u32>)
        requires
            n <= 64,
        ensures
            r@.len() == n,
            forall|j: int| 0 <= j < n ==> r@[j] == spec_bit(self.bits, j as u32),
    {
        let mut r: Vec<u32> = Vec::new();
        let mut i: u32 = 0;
        while i < n
            invariant
                i <= n <= 64,
                r@.len() == i,
                forall|j: int| 0 <= j < i ==> r@[j] == spec_bit(self.bits, j as u32),
            decreases n - i,
        {
            r.push(self.get_bit(i));
            i = i + 1;
        }
        r
    }
}

} // verus!
