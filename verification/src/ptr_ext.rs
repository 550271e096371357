//! Rounding an address up to a power-of-two alignment.

use vstd::arithmetic::power2::{is_pow2, is_pow2_equiv, pow2};
use vstd::prelude::*;

verus! {

/// Whether `addr` is a multiple of `align`.
pub open spec fn is_aligned(addr: int, align: int) -> bool {
    addr % align == 0
}

/// The least multiple of `align` that is not below `addr`.
pub open spec fn round_up(addr: int, align: int) -> int {
    if is_aligned(addr, align) {
        addr
    } else {
        addr + (align - addr % align)
    }
}

/// `round_up(addr, align)` is a multiple of `align`, lies in
/// `[addr, addr + align)`, is `addr` itself exactly where `addr` is aligned,
/// and no smaller multiple of `align` reaches `addr`.
pub proof fn lemma_round_up_is_least(addr: int, align: int)
    requires
        align > 0,
    ensures
        is_aligned(round_up(addr, align), align),
        addr <= round_up(addr, align) < addr + align,
        is_aligned(addr, align) <==> round_up(addr, align) == addr,
        forall|m: int| #[trigger] is_aligned(m, align) && addr <= m ==> round_up(addr, align) <= m,
{
    let r = round_up(addr, align);
    vstd::arithmetic::div_mod::lemma_fundamental_div_mod(addr, align);
    let q = addr / align;
    if addr % align != 0 {
        assert(r == align * (q + 1)) by (nonlinear_arith)
            requires
                r == addr + (align - addr % align),
                addr == align * q + addr % align,
        ;
        vstd::arithmetic::div_mod::lemma_mod_multiples_basic(q + 1, align);
    }
    assert forall|m: int| #[trigger] is_aligned(m, align) && addr <= m implies r <= m by {
        vstd::arithmetic::div_mod::lemma_fundamental_div_mod(m, align);
        let k = m / align;
        if m < r {
            assert(false) by (nonlinear_arith)
                requires
                    align > 0,
                    align * q < align * k,
                    align * k < align * (q + 1),
            ;
        }
    }
}

/// A multiple of `big` is a multiple of every divisor `small` of `big`.
pub proof fn lemma_aligned_to_divisor(addr: int, big: int, small: int)
    requires
        small > 0,
        big > 0,
        is_aligned(big, small),
        is_aligned(addr, big),
    ensures
        is_aligned(addr, small),
{
    vstd::arithmetic::div_mod::lemma_fundamental_div_mod(big, small);
    let factor = big / small;
    assert(factor > 0) by (nonlinear_arith)
        requires
            big == small * factor,
            big > 0,
            small > 0,
    ;
    vstd::arithmetic::div_mod::lemma_mod_mod(addr, small, factor);
}

/// Of two powers of two the smaller divides the larger.
pub proof fn lemma_pow2_divides(small: int, big: int)
    requires
        is_pow2(small),
        is_pow2(big),
        small <= big,
    ensures
        small > 0,
        is_aligned(big, small),
    decreases small,
{
    reveal(is_pow2);
    if small > 1 {
        lemma_pow2_divides(small / 2, big / 2);
        let q = (big / 2) / (small / 2);
        vstd::arithmetic::div_mod::lemma_fundamental_div_mod(big / 2, small / 2);
        assert(big == small * q) by (nonlinear_arith)
            requires
                big == 2 * (big / 2),
                small == 2 * (small / 2),
                big / 2 == (small / 2) * q,
        ;
        vstd::arithmetic::div_mod::lemma_mod_multiples_basic(q, small);
    }
}

/// The size of the address space is a power of two.
pub proof fn lemma_address_space_is_pow2()
    ensures
        is_pow2(usize::MAX + 1),
{
    vstd::arithmetic::power2::lemma2_to64();
    is_pow2_equiv(usize::MAX + 1);
    vstd::arithmetic::power::lemma_pow_positive(2, 32);
    vstd::arithmetic::power::lemma_pow_positive(2, 64);
    if usize::BITS == 32 {
        assert(vstd::arithmetic::power::pow(2, 32) == usize::MAX + 1);
    } else {
        assert(vstd::arithmetic::power::pow(2, 64) == usize::MAX + 1);
    }
}

/// Rounding up to a power of two leaves the address space exactly when
/// adding the alignment less one does.
pub proof fn lemma_round_up_overflow(addr: usize, align: usize)
    requires
        is_pow2(align as int),
    ensures
        round_up(addr as int, align as int) <= usize::MAX <==> addr + align - 1 <= usize::MAX,
{
    lemma_address_space_is_pow2();
    lemma_pow2_divides(align as int, usize::MAX + 1);
    lemma_round_up_is_least(addr as int, align as int);
    let space = usize::MAX + 1;
    let up = round_up(addr as int, align as int);
    if up <= usize::MAX {
        // `up` and `space` are multiples of `align`, so `up <= space - align`
        vstd::arithmetic::div_mod::lemma_fundamental_div_mod(up, align as int);
        vstd::arithmetic::div_mod::lemma_fundamental_div_mod(space, align as int);
        let a = up / (align as int);
        let b = space / (align as int);
        assert(a < b) by (nonlinear_arith)
            requires
                align > 0,
                up == align * a,
                space == align * b,
                up < space,
        ;
        assert(up + align <= space) by (nonlinear_arith)
            requires
                align > 0,
                up == align * a,
                space == align * b,
                a < b,
        ;
    }
}

/// A `usize` is a power of two exactly when it is not zero and shares no bit
/// with its predecessor.
pub proof fn lemma_pow2_single_bit(n: usize)
    ensures
        is_pow2(n as int) <==> (n != 0 && n & ((n - 1) as usize) == 0),
    decreases n,
{
    reveal(is_pow2);
    if n == 1 {
        assert(1usize & 0usize == 0) by (bit_vector);
    } else if n > 1 {
        let h: usize = n / 2;
        lemma_pow2_single_bit(h);
        assert((n & ((n - 1) as usize) == 0) <==> (n % 2 == 0 && h != 0 && h & ((h - 1) as usize)
            == 0)) by (bit_vector)
            requires
                n > 1,
                h == n / 2,
        ;
    }
}

/// Tells whether `n` is a power of two.
pub fn is_power_of_two(n: usize) -> (r: bool)
    ensures
        r == is_pow2(n as int),
{
    proof {
        lemma_pow2_single_bit(n);
    }
    n != 0 && n & (n - 1) == 0
}

/// For a power of two `align`, masking with `align - 1` takes the remainder.
pub proof fn lemma_mask_is_mod(addr: usize, align: usize)
    requires
        is_pow2(align as int),
    ensures
        addr & ((align - 1) as usize) == addr % align,
{
    is_pow2_equiv(align as int);
    let n = choose|n: nat| vstd::arithmetic::power::pow(2, n) == align as int;
    if n >= usize::BITS {
        vstd::arithmetic::power2::lemma2_to64();
        if n > usize::BITS {
            vstd::arithmetic::power2::lemma_pow2_strictly_increases(usize::BITS as nat, n);
        }
        assert(pow2(n) > usize::MAX);
    }
    vstd::arithmetic::power2::lemma_pow2_pos(n);
    vstd::bits::lemma_usize_low_bits_mask_is_mod(addr, n);
}

/// An address with a way to round it up to an alignment.
pub trait PtrExt: Sized {
    /// The address as a number.
    spec fn addr(self) -> int;

    /// Rounds the address up to the next multiple of `align`. There is no
    /// result when `align` is not a power of two or when the rounded address
    /// does not fit the address space.
    fn try_align_up(self, align: usize) -> (r: Option<Self>)
        ensures
            match r {
                Some(p) => is_pow2(align as int) && p.addr() == round_up(self.addr(), align as int),
                None => !is_pow2(align as int) || round_up(self.addr(), align as int)
                    > usize::MAX,
            },
    ;
}

impl PtrExt for usize {
    open spec fn addr(self) -> int {
        self as int
    }

    fn try_align_up(self, align: usize) -> (r: Option<usize>) {
        if !is_power_of_two(align) {
            return None;
        }
        proof {
            reveal(is_pow2);
        }
        if self % align == 0 {
            Some(self)
        } else {
            let mask: usize = align - 1;
            let filled: usize = self | mask;
            proof {
                lemma_mask_is_mod(self, align);
                let low: usize = self & mask;
                assert(filled == self - low + mask) by (bit_vector)
                    requires
                        filled == self | mask,
                        low == self & mask,
                ;
            }
            filled.checked_add(1)
        }
    }
}

} // verus!
