use vstd::prelude::*;

verus! {

/// Number of zero bytes needed to move `pos` up to the next multiple of `alignment`.
pub open spec fn spec_padding(pos: int, alignment: int) -> int {
    if pos % alignment == 0 { 0 } else { alignment - pos % alignment }
}

/// Padding that brings `pos` to the next multiple of `alignment`.
pub fn padding_for_alignment(pos: usize, alignment: usize) -> (pad: usize)
    requires
        alignment > 0,
    ensures
        pad == spec_padding(pos as int, alignment as int),
        pad < alignment,
        (pos + pad) % (alignment as int) == 0,
{
    let remainder = pos % alignment;
    if remainder == 0 {
        0
    } else {
        proof {
            let a = alignment as int;
            let q = pos as int / a;
            vstd::arithmetic::div_mod::lemma_fundamental_div_mod(pos as int, a);
            vstd::arithmetic::div_mod::lemma_mod_multiples_basic(q + 1, a);
            assert((q + 1) * a == a * q + a) by (nonlinear_arith);
        }
        alignment - remainder
    }
}

/// Padding is less than the alignment.
pub proof fn lemma_padding_bounds(pos: int, alignment: int)
    requires
        alignment > 0,
    ensures
        0 <= spec_padding(pos, alignment) < alignment,
{
    vstd::arithmetic::div_mod::lemma_mod_bound(pos, alignment);
}

/// Padding from `pos` reaches a multiple of `alignment`, and no position it steps over
/// is one.
pub proof fn lemma_padding_reaches_next_multiple(pos: int, alignment: int)
    requires
        alignment > 0,
    ensures
        (pos + spec_padding(pos, alignment)) % alignment == 0,
        forall|q: int| pos <= q < pos + spec_padding(pos, alignment) ==> #[trigger] (q % alignment) != 0,
{
    let r = pos % alignment;
    let d = pos / alignment;
    vstd::arithmetic::div_mod::lemma_fundamental_div_mod(pos, alignment);
    vstd::arithmetic::div_mod::lemma_mod_bound(pos, alignment);
    if r != 0 {
        assert(pos + (alignment - r) == alignment * (d + 1)) by (nonlinear_arith)
            requires
                pos == alignment * d + r,
        ;
        vstd::arithmetic::div_mod::lemma_mod_multiples_basic(d + 1, alignment);
        assert(alignment * (d + 1) == (d + 1) * alignment) by (nonlinear_arith);
        assert forall|q: int| pos <= q < pos + spec_padding(pos, alignment) implies #[trigger] (q % alignment) != 0 by {
            let j = q - pos;
            vstd::arithmetic::div_mod::lemma_mod_multiples_vanish(d, r + j, alignment);
            vstd::arithmetic::div_mod::lemma_small_mod((r + j) as nat, alignment as nat);
        }
    } else {
        assert(pos + 0 == pos);
    }
}

/// After `j` of the padding bytes from `pos`, the padding still needed is `j` less.
pub proof fn lemma_padding_progress(pos: int, alignment: int, j: int)
    requires
        alignment > 0,
        0 <= j <= spec_padding(pos, alignment),
    ensures
        spec_padding(pos + j, alignment) == spec_padding(pos, alignment) - j,
{
    let r = pos % alignment;
    vstd::arithmetic::div_mod::lemma_fundamental_div_mod(pos, alignment);
    let q = pos / alignment;
    if r != 0 {
        if r + j < alignment {
            vstd::arithmetic::div_mod::lemma_mod_multiples_vanish(q, r + j, alignment);
            vstd::arithmetic::div_mod::lemma_small_mod((r + j) as nat, alignment as nat);
            assert(pos + j == alignment * q + (r + j));
        } else {
            assert(pos + j == alignment * (q + 1)) by (nonlinear_arith)
                requires
                    pos == alignment * q + r,
                    r + j == alignment,
            ;
            vstd::arithmetic::div_mod::lemma_mod_multiples_basic(q + 1, alignment);
            assert((q + 1) * alignment == alignment * (q + 1)) by (nonlinear_arith);
        }
    }
}

} // verus!
