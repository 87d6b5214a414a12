use vstd::prelude::*;

verus! {

/// An exact fraction `num / den`, used for derived metrics whose true value
/// is not an integer: the relative profit of a position in percent and the
/// value-at-risk estimate. The library only ever returns ratios with a
/// non-zero denominator.
#[derive(Clone, Copy, Debug, PartialEq, Eq, Structural)]
pub struct Ratio {
    pub num: i128,
    pub den: i128,
}

/// Exact order on fractions: `an / ad < bn / bd`, for non-zero denominators.
/// Multiplying both sides of the inequality by `ad * bd` gives `an * bd` and
/// `bn * ad`; the comparison flips when `ad * bd` is negative, that is, when
/// the two denominators have opposite signs.
pub open spec fn ratio_lt(an: int, ad: int, bn: int, bd: int) -> bool
    recommends
        ad != 0,
        bd != 0,
{
    if (ad > 0) == (bd > 0) {
        an * bd < bn * ad
    } else {
        an * bd > bn * ad
    }
}

/// `ratio_lt` agrees with the sign-free form of the comparison obtained by
/// multiplying both sides of `an / ad < bn / bd` with the positive quantity
/// `ad * ad * bd * bd`.
pub proof fn lemma_ratio_lt_canonical(an: int, ad: int, bn: int, bd: int)
    requires
        ad != 0,
        bd != 0,
    ensures
        ratio_lt(an, ad, bn, bd) <==> an * ad * bd * bd < bn * bd * ad * ad,
{
    if (ad > 0) == (bd > 0) {
        assert((an * bd < bn * ad) <==> an * ad * bd * bd < bn * bd * ad * ad)
            by (nonlinear_arith)
            requires
                ad != 0,
                bd != 0,
                (ad > 0) == (bd > 0),
        ;
    } else {
        assert((an * bd > bn * ad) <==> an * ad * bd * bd < bn * bd * ad * ad)
            by (nonlinear_arith)
            requires
                ad != 0,
                bd != 0,
                (ad > 0) != (bd > 0),
        ;
    }
}

} // verus!
