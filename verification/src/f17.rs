//! A small concrete prime field, the integers mod 17, implementing the
//! field capability interface.  Its multiplicative group is cyclic of
//! order 16, so the field has two-adicity 4; 3 generates the whole
//! group, and the designated `2^bits`-th roots of unity are the
//! successive squares 3, 9, 13, 16, 1.

use vstd::prelude::*;
use vstd::arithmetic::power::pow;
use vstd::arithmetic::power2::{pow2, lemma2_to64};
use vstd::arithmetic::div_mod::lemma_mod_add_multiples_vanish;
use crate::field::{FieldElem, TwoAdicElem};
use crate::modular::{fmul, invertible};

verus! {

/// An element of the field of 17 elements, held as its reduced residue.
#[derive(Clone, Copy, Debug, PartialEq, Eq, Structural)]
pub struct F17 {
    pub v: u64,
}

impl F17 {
    /// Wraps a reduced residue.
    pub fn new(v: u64) -> (r: Self)
        requires
            v < 17,
        ensures
            r.val() == v as int,
    {
        F17 { v }
    }

    /// The residue this element holds.
    pub fn as_u64(self) -> (r: u64)
        ensures
            r as int == self.v as int,
    {
        self.v
    }
}

/// The powers of 3 mod 17, in order: 3 has multiplicative order 16.
proof fn pow3_table()
    ensures
        pow(3, 0) % 17 == 1,
        pow(3, 1) % 17 == 3,
        pow(3, 2) % 17 == 9,
        pow(3, 3) % 17 == 10,
        pow(3, 4) % 17 == 13,
        pow(3, 5) % 17 == 5,
        pow(3, 6) % 17 == 15,
        pow(3, 7) % 17 == 11,
        pow(3, 8) % 17 == 16,
        pow(3, 9) % 17 == 14,
        pow(3, 10) % 17 == 8,
        pow(3, 11) % 17 == 7,
        pow(3, 12) % 17 == 4,
        pow(3, 13) % 17 == 12,
        pow(3, 14) % 17 == 2,
        pow(3, 15) % 17 == 6,
        pow(3, 16) % 17 == 1,
{
    reveal_with_fuel(pow, 18);
}

impl FieldElem for F17 {
    open spec fn modulus() -> int {
        17
    }

    open spec fn val(self) -> int {
        self.v as int
    }

    proof fn modulus_at_least_two() {
    }

    proof fn nonzero_invertible(a: int) {
        let p: int = 17;
        if a == 1 {
            assert(fmul(1, 1, p) == 1);
        } else if a == 2 {
            assert(fmul(2, 9, p) == 1);
        } else if a == 3 {
            assert(fmul(3, 6, p) == 1);
        } else if a == 4 {
            assert(fmul(4, 13, p) == 1);
        } else if a == 5 {
            assert(fmul(5, 7, p) == 1);
        } else if a == 6 {
            assert(fmul(6, 3, p) == 1);
        } else if a == 7 {
            assert(fmul(7, 5, p) == 1);
        } else if a == 8 {
            assert(fmul(8, 15, p) == 1);
        } else if a == 9 {
            assert(fmul(9, 2, p) == 1);
        } else if a == 10 {
            assert(fmul(10, 12, p) == 1);
        } else if a == 11 {
            assert(fmul(11, 14, p) == 1);
        } else if a == 12 {
            assert(fmul(12, 10, p) == 1);
        } else if a == 13 {
            assert(fmul(13, 4, p) == 1);
        } else if a == 14 {
            assert(fmul(14, 11, p) == 1);
        } else if a == 15 {
            assert(fmul(15, 8, p) == 1);
        } else {
            assert(fmul(16, 16, p) == 1);
        }
    }

    fn from_usize(x: usize) -> (r: Self) {
        F17 { v: (x as u64) % 17 }
    }

    fn add_elem(self, other: Self) -> (r: Self) {
        F17 { v: (self.v + other.v) % 17 }
    }

    fn sub_elem(self, other: Self) -> (r: Self) {
        let r = F17 { v: (self.v + 17 - other.v) % 17 };
        proof {
            lemma_mod_add_multiples_vanish(self.v as int - other.v as int, 17);
        }
        r
    }

    fn mul_elem(self, other: Self) -> (r: Self) {
        proof {
            assert(self.v * other.v < 289) by (nonlinear_arith)
                requires
                    self.v < 17,
                    other.v < 17,
            ;
        }
        F17 { v: (self.v * other.v) % 17 }
    }

    fn eq_elem(self, other: Self) -> (r: bool) {
        self.v == other.v
    }

    fn inverse(self) -> (r: Self) {
        let mut j: u64 = 0;
        while j < 17
            invariant
                self.v < 17,
                j <= 17,
                invertible(self.v as int, 17),
                forall|k: int| 0 <= k < j ==> fmul(self.v as int, k, 17) != 1,
            decreases 17 - j,
        {
            proof {
                assert(self.v * j < 289) by (nonlinear_arith)
                    requires
                        self.v < 17,
                        j < 17,
                ;
            }
            if (self.v * j) % 17 == 1 {
                return F17 { v: j };
            }
            j = j + 1;
        }
        proof {
            let b = choose|b: int| 0 <= b < 17 && fmul(self.v as int, b, 17) == 1;
            assert(fmul(self.v as int, b, 17) != 1);
        }
        F17 { v: 0 }
    }
}

impl TwoAdicElem for F17 {
    open spec fn adicity() -> nat {
        4
    }

    open spec fn root_val(bits: nat) -> int {
        if bits == 0 {
            1
        } else if bits == 1 {
            16
        } else if bits == 2 {
            13
        } else if bits == 3 {
            9
        } else {
            3
        }
    }

    open spec fn gen_val() -> int {
        3
    }

    proof fn root_facts(bits: nat) {
        if bits == 0 {
            assert(Self::root_val(0) == fmul(16, 16, 17));
        } else if bits == 1 {
            assert(Self::root_val(1) == fmul(13, 13, 17));
        } else if bits == 2 {
            assert(Self::root_val(2) == fmul(9, 9, 17));
        } else if bits == 3 {
            assert(Self::root_val(3) == fmul(3, 3, 17));
        }
    }

    proof fn top_root_order(d: nat) {
        pow3_table();
        lemma2_to64();
        assert(pow2(4) == 16);
        if d == 1 {
            assert(pow(3, 1) % 17 != 1);
        } else if d == 2 {
            assert(pow(3, 2) % 17 != 1);
        } else if d == 3 {
            assert(pow(3, 3) % 17 != 1);
        } else if d == 4 {
            assert(pow(3, 4) % 17 != 1);
        } else if d == 5 {
            assert(pow(3, 5) % 17 != 1);
        } else if d == 6 {
            assert(pow(3, 6) % 17 != 1);
        } else if d == 7 {
            assert(pow(3, 7) % 17 != 1);
        } else if d == 8 {
            assert(pow(3, 8) % 17 != 1);
        } else if d == 9 {
            assert(pow(3, 9) % 17 != 1);
        } else if d == 10 {
            assert(pow(3, 10) % 17 != 1);
        } else if d == 11 {
            assert(pow(3, 11) % 17 != 1);
        } else if d == 12 {
            assert(pow(3, 12) % 17 != 1);
        } else if d == 13 {
            assert(pow(3, 13) % 17 != 1);
        } else if d == 14 {
            assert(pow(3, 14) % 17 != 1);
        } else if d == 15 {
            assert(pow(3, 15) % 17 != 1);
        } else if d == 16 {
            assert(pow(3, 16) % 17 == 1);
        }
    }

    proof fn generator_facts() {
        pow3_table();
        lemma2_to64();
        assert forall|k: nat| k < 4 implies pow(3, pow2(k)) % 17 != 1 by {
            if k == 0 {
                assert(pow2(0) == 1);
                assert(pow(3, 1) % 17 != 1);
            } else if k == 1 {
                assert(pow2(1) == 2);
                assert(pow(3, 2) % 17 != 1);
            } else if k == 2 {
                assert(pow2(2) == 4);
                assert(pow(3, 4) % 17 != 1);
            } else {
                assert(pow2(3) == 8);
                assert(pow(3, 8) % 17 != 1);
            }
        }
    }

    fn two_adic_generator(bits: usize) -> (g: Self) {
        if bits == 0 {
            F17 { v: 1 }
        } else if bits == 1 {
            F17 { v: 16 }
        } else if bits == 2 {
            F17 { v: 13 }
        } else if bits == 3 {
            F17 { v: 9 }
        } else {
            F17 { v: 3 }
        }
    }

    fn generator() -> (s: Self) {
        F17 { v: 3 }
    }
}

} // verus!

