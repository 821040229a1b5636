use vstd::prelude::*;

verus! {

/// A 256-bit mask held as four 64-bit words; bit `i` lives in word `i / 64`
/// at position `i % 64`.  One mask row per pattern slot records which slots
/// conflict with it, and one running mask per partial combination records
/// which slots it already uses, so a single word-wise test decides whether a
/// candidate slot may be added.
#[derive(Clone, Copy, Debug)]
pub struct BitArray {
    pub elem: [u64; 4],
}

/// Bit `m` of the word `w`.
pub open spec fn word_bit(w: u64, m: u64) -> bool {
    (w >> m) & 1u64 == 1u64
}

proof fn lemma_mod2_is_bit(w: u64, m: u64)
    by (bit_vector)
    ensures
        ((w >> m) % 2 != 0) == ((w >> m) & 1u64 == 1u64),
{
}

proof fn lemma_or_bit_set(w: u64, k: u64, m: u64)
    by (bit_vector)
    requires
        k < 64,
        m < 64,
    ensures
        m == k ==> ((w | (1u64 << k)) >> m) & 1u64 == 1u64,
        m != k ==> ((w | (1u64 << k)) >> m) & 1u64 == (w >> m) & 1u64,
{
}

proof fn lemma_and_not_bit_clear(w: u64, k: u64, m: u64)
    by (bit_vector)
    requires
        k < 64,
        m < 64,
    ensures
        m == k ==> ((w & !(1u64 << k)) >> m) & 1u64 == 0u64,
        m != k ==> ((w & !(1u64 << k)) >> m) & 1u64 == (w >> m) & 1u64,
{
}

proof fn lemma_zero_bits(m: u64)
    by (bit_vector)
    ensures
        (0u64 >> m) & 1u64 == 0u64,
{
}

pub(crate) proof fn lemma_or_xor_is_and(a: u64, b: u64)
    by (bit_vector)
    ensures
        ((a | b) == (a ^ b)) == (a & b == 0),
{
}

proof fn lemma_and_shares_bit(a: u64, b: u64, m: u64)
    by (bit_vector)
    ensures
        (((a & b) >> m) & 1u64 == 1u64) == ((a >> m) & 1u64 == 1u64 && (b >> m) & 1u64
            == 1u64),
{
}

proof fn lemma_half_bit(w: u64, m: u64)
    by (bit_vector)
    requires
        m < 63,
    ensures
        ((w >> 1) >> m) & 1u64 == (w >> ((m + 1) as u64)) & 1u64,
        w != 0 && w & 1 == 0 ==> w >> 1 != 0,
        w != 0 ==> w >> 1 < w,
        ((w >> 1) >> 63) & 1u64 == 0u64,
{
}

/// Every nonzero word has some set bit.
proof fn lemma_nonzero_word_has_bit(w: u64)
    ensures
        w != 0 ==> exists|m: u64| m < 64 && word_bit(w, m),
    decreases w,
{
    if w != 0 {
        if w & 1u64 == 1u64 {
            assert((w >> 0u64) & 1u64 == 1u64) by (bit_vector)
                requires
                    w & 1u64 == 1u64,
            ;
            assert(word_bit(w, 0));
        } else {
            assert(w & 1u64 == 0u64) by (bit_vector)
                requires
                    w & 1u64 != 1u64,
            ;
            lemma_half_bit(w, 0);
            lemma_nonzero_word_has_bit(w >> 1);
            let m = choose|m: u64| m < 64 && word_bit(w >> 1, m);
            lemma_half_bit(w >> 1, 0);
            assert(m < 63) by {
                if m == 63 {
                    lemma_half_bit(w, 62);
                }
            }
            lemma_half_bit(w, m);
            assert(word_bit(w, (m + 1) as u64));
        }
    }
}

/// A word-level conjunction is zero exactly when no bit is shared.
proof fn lemma_word_disjoint(a: u64, b: u64)
    ensures
        (a & b == 0) <==> (forall|m: u64| m < 64 ==> !(word_bit(a, m) && word_bit(b, m))),
{
    if a & b == 0 {
        assert forall|m: u64| m < 64 implies !(word_bit(a, m) && word_bit(b, m)) by {
            lemma_and_shares_bit(a, b, m);
            lemma_zero_bits(m);
        }
    } else {
        lemma_nonzero_word_has_bit(a & b);
        let m = choose|m: u64| m < 64 && word_bit(a & b, m);
        lemma_and_shares_bit(a, b, m);
        assert(word_bit(a, m) && word_bit(b, m));
    }
}

impl BitArray {
    /// Whether bit `i` of the mask is set.
    pub open spec fn spec_get(self, i: u8) -> bool {
        word_bit(self.elem@[i as int / 64], (i % 64) as u64)
    }

    /// Two masks are disjoint when no bit is set in both.
    pub open spec fn spec_disjoint(self, other: BitArray) -> bool {
        forall|j: u8| !(self.spec_get(j) && other.spec_get(j))
    }

    /// The all-zero mask.
    pub fn zero() -> (r: BitArray)
        ensures
            forall|j: u8| !r.spec_get(j),
    {
        let r = BitArray { elem: [0u64; 4] };
        proof {
            assert forall|j: u8| !r.spec_get(j) by {
                lemma_zero_bits((j % 64) as u64);
            }
        }
        r
    }

    /// Bit `i` of the mask.
    pub fn get(&self, i: u8) -> (b: bool)
        ensures
            b == self.spec_get(i),
    {
        let w: u64 = self.elem[(i / 64) as usize];
        proof {
            lemma_mod2_is_bit(w, (i % 64) as u64);
        }
        (w >> ((i % 64) as u64)) % 2 != 0
    }

    /// Sets bit `i` of the mask to `flag`, leaving every other bit unchanged.
    pub fn set(&mut self, i: u8, flag: bool)
        ensures
            forall|j: u8|
                final(self).spec_get(j) == (if j == i {
                    flag
                } else {
                    old(self).spec_get(j)
                }),
    {
        let wi = (i / 64) as usize;
        let k = (i % 64) as u64;
        let w: u64 = self.elem[wi];
        if flag {
            self.elem[wi] = w | (1u64 << k);
        } else {
            self.elem[wi] = w & !(1u64 << k);
        }
        proof {
            assert forall|j: u8|
                final(self).spec_get(j) == (if j == i {
                    flag
                } else {
                    old(self).spec_get(j)
                }) by {
                assert(64 * (j as int / 64) + (j as int % 64) == j as int);
                assert(64 * (i as int / 64) + (i as int % 64) == i as int);
                if j as int / 64 == i as int / 64 {
                    if flag {
                        lemma_or_bit_set(w, k, (j % 64) as u64);
                    } else {
                        lemma_and_not_bit_clear(w, k, (j % 64) as u64);
                    }
                }
            }
        }
    }

    /// Whether this mask and `other` share no set bit, decided word-wise as
    /// `(a | b) == (a ^ b)` on each of the four words.
    pub fn disjoint(&self, other: &BitArray) -> (b: bool)
        ensures
            b == self.spec_disjoint(*other),
    {
        let mut ok = true;
        let mut w: usize = 0;
        while w < 4
            invariant
                w <= 4,
                ok == forall|m: int| 0 <= m < w ==> self.elem@[m] & other.elem@[m] == 0,
            decreases 4 - w,
        {
            let a = self.elem[w];
            let b = other.elem[w];
            proof {
                lemma_or_xor_is_and(a, b);
            }
            if (a | b) != (a ^ b) {
                ok = false;
            }
            w = w + 1;
        }
        proof {
            if ok {
                assert forall|j: u8| !(self.spec_get(j) && other.spec_get(j)) by {
                    lemma_word_disjoint(
                        self.elem@[j as int / 64],
                        other.elem@[j as int / 64],
                    );
                }
            } else {
                let m = choose|m: int| 0 <= m < 4 && self.elem@[m] & other.elem@[m] != 0;
                lemma_word_disjoint(self.elem@[m], other.elem@[m]);
                let k = choose|k: u64|
                    k < 64 && word_bit(self.elem@[m], k) && word_bit(other.elem@[m], k);
                let j = (64 * m + k as int) as u8;
                assert(j as int / 64 == m && (j % 64) as u64 == k);
                assert(self.spec_get(j) && other.spec_get(j));
            }
        }
        ok
    }
}

impl From<[u64; 4]> for BitArray {
    fn from(a: [u64; 4]) -> (r: BitArray) {
        BitArray { elem: a }
    }
}

impl vstd::std_specs::convert::FromSpecImpl<[u64; 4]> for BitArray {
    open spec fn obeys_from_spec() -> bool {
        true
    }

    open spec fn from_spec(a: [u64; 4]) -> BitArray {
        BitArray { elem: a }
    }
}

} // verus!
