use vstd::prelude::*;

verus! {

/// The set of teams (bits `0..16`) that can see a stone at a point.
#[derive(Copy, Clone, PartialEq, Eq, Structural, Debug, Hash)]
pub struct Visibility(pub u16);

/// Bit `i` of `v` is set.
pub open spec fn bit(v: u16, i: u16) -> bool {
    (v >> i) & 1 == 1
}

/// Number of set bits of `v` among the lowest `k`.
pub open spec fn count_bits(v: u16, k: nat) -> nat
    decreases k,
{
    if k == 0 {
        0
    } else {
        count_bits(v, (k - 1) as nat) + if bit(v, (k - 1) as u16) {
            1nat
        } else {
            0nat
        }
    }
}

proof fn lemma_bit_set(v: u16, i: u16, j: u16)
    requires
        i < 16,
        j < 16,
    ensures
        bit(v | (1u16 << i), j) == (j == i || bit(v, j)),
        bit(v & !(1u16 << i), j) == (j != i && bit(v, j)),
{
    assert(((v | (1u16 << i)) >> j) & 1 == 1 <==> (j == i || (v >> j) & 1 == 1)) by (bit_vector)
        requires
            i < 16,
            j < 16,
    ;
    assert(((v & !(1u16 << i)) >> j) & 1 == 1 <==> (j != i && (v >> j) & 1 == 1)) by (bit_vector)
        requires
            i < 16,
            j < 16,
    ;
}

proof fn lemma_zero_no_bits(v: u16)
    ensures
        v == 0 <==> forall|j: u16| j < 16 ==> !#[trigger] bit(v, j),
{
    if v != 0 {
        assert(exists|j: u16| j < 16 && #[trigger] bit(v, j)) by {
            assert(v != 0 ==> (v & 1 == 1 || (v >> 1u16) & 1 == 1 || (v >> 2u16) & 1 == 1 || (v
                >> 3u16) & 1 == 1 || (v >> 4u16) & 1 == 1 || (v >> 5u16) & 1 == 1 || (v >> 6u16)
                & 1 == 1 || (v >> 7u16) & 1 == 1 || (v >> 8u16) & 1 == 1 || (v >> 9u16) & 1 == 1
                || (v >> 10u16) & 1 == 1 || (v >> 11u16) & 1 == 1 || (v >> 12u16) & 1 == 1 || (v
                >> 13u16) & 1 == 1 || (v >> 14u16) & 1 == 1 || (v >> 15u16) & 1 == 1)) by (bit_vector);
            assert(v & 1 == (v >> 0u16) & 1) by (bit_vector);
            if (v >> 0u16) & 1 == 1 {
                assert(bit(v, 0));
            } else if (v >> 1u16) & 1 == 1 {
                assert(bit(v, 1));
            } else if (v >> 2u16) & 1 == 1 {
                assert(bit(v, 2));
            } else if (v >> 3u16) & 1 == 1 {
                assert(bit(v, 3));
            } else if (v >> 4u16) & 1 == 1 {
                assert(bit(v, 4));
            } else if (v >> 5u16) & 1 == 1 {
                assert(bit(v, 5));
            } else if (v >> 6u16) & 1 == 1 {
                assert(bit(v, 6));
            } else if (v >> 7u16) & 1 == 1 {
                assert(bit(v, 7));
            } else if (v >> 8u16) & 1 == 1 {
                assert(bit(v, 8));
            } else if (v >> 9u16) & 1 == 1 {
                assert(bit(v, 9));
            } else if (v >> 10u16) & 1 == 1 {
                assert(bit(v, 10));
            } else if (v >> 11u16) & 1 == 1 {
                assert(bit(v, 11));
            } else if (v >> 12u16) & 1 == 1 {
                assert(bit(v, 12));
            } else if (v >> 13u16) & 1 == 1 {
                assert(bit(v, 13));
            } else if (v >> 14u16) & 1 == 1 {
                assert(bit(v, 14));
            } else {
                assert(bit(v, 15));
            }
        }
    } else {
        assert forall|j: u16| j < 16 implies !#[trigger] bit(v, j) by {
            assert(v == 0 ==> (v >> j) & 1 == 0) by (bit_vector);
        }
    }
}

proof fn lemma_count_bits_zero(v: u16, k: nat)
    requires
        k <= 16,
    ensures
        (count_bits(v, k) == 0) <==> (forall|j: u16| j < k ==> !#[trigger] bit(v, j)),
    decreases k,
{
    if k > 0 {
        lemma_count_bits_zero(v, (k - 1) as nat);
        if count_bits(v, k) == 0 {
            assert forall|j: u16| j < k implies !#[trigger] bit(v, j) by {
                if j < k - 1 {
                } else {
                    assert(j == (k - 1) as u16);
                }
            }
        } else {
            if count_bits(v, (k - 1) as nat) == 0 {
                assert(bit(v, (k - 1) as u16));
            }
        }
    }
}

impl Visibility {
    /// The set of teams seeing the stone, as a bit mask.
    pub open spec fn bits(self) -> u16 {
        self.0
    }

    /// Number of teams in the set.
    pub open spec fn count(self) -> nat {
        count_bits(self.0, 16)
    }

    /// The empty set.
    pub fn new() -> (v: Visibility)
        ensures
            v.0 == 0,
    {
        Visibility(0)
    }

    /// Team `index` is in the set.
    pub fn get(&self, index: usize) -> (b: bool)
        requires
            index < 16,
        ensures
            b == bit(self.0, index as u16),
    {
        let i = index as u16;
        (self.0 >> i) & 1 == 1
    }

    /// Adds team `index` to the set, or removes it.
    pub fn set(&mut self, index: usize, value: bool)
        requires
            index < 16,
        ensures
            forall|j: u16|
                j < 16 ==> #[trigger] bit(final(self).0, j) == if j == index as u16 {
                    value
                } else {
                    bit(old(self).0, j)
                },
    {
        let i = index as u16;
        let old_v = self.0;
        if value {
            self.0 = old_v | (1u16 << i);
        } else {
            self.0 = old_v & !(1u16 << i);
        }
        proof {
            assert forall|j: u16| j < 16 implies #[trigger] bit(self.0, j) == if j == i {
                value
            } else {
                bit(old_v, j)
            } by {
                lemma_bit_set(old_v, i, j);
            }
        }
    }

    /// Number of teams in the set.
    pub fn len(&self) -> (n: usize)
        ensures
            n == self.count(),
    {
        let mut n: usize = 0;
        let mut i: u16 = 0;
        while i < 16
            invariant
                i <= 16,
                n == count_bits(self.0, i as nat),
                n <= i,
            decreases 16 - i,
        {
            if (self.0 >> i) & 1 == 1 {
                n = n + 1;
            }
            i = i + 1;
        }
        n
    }

    /// No team is in the set.
    pub fn is_empty(&self) -> (b: bool)
        ensures
            b == (self.0 == 0),
            b == (self.count() == 0),
    {
        proof {
            lemma_zero_no_bits(self.0);
            lemma_count_bits_zero(self.0, 16);
        }
        self.0 == 0
    }

    /// The set as a bit mask.
    pub fn into_value(self) -> (v: u16)
        ensures
            v == self.0,
    {
        self.0
    }
}

} // verus!
