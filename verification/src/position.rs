use vstd::prelude::*;

use crate::rational::Ratio;

verus! {

/// Fixed-point steps per currency unit: every quantity, price and limit
/// handed to this library is an integer count of hundredths.
pub const SCALE: i64 = 100;

/// Largest magnitude accepted for a scaled quantity or price. Keeping every
/// stored amount inside this range lets the portfolio aggregates stay inside
/// `i128` for any number of held positions.
pub const AMOUNT_LIMIT: i64 = 1_000_000_000_000;

/// Largest magnitude accepted for a scaled percentage: the stop-loss
/// threshold of a guard and the confidence level of the value-at-risk
/// estimate.
pub const PERCENT_LIMIT: i64 = 1_000_000;

/// Mathematical content of a `Position`: the symbol as a character sequence
/// and the scaled amounts as unbounded integers.
#[verifier::ext_equal]
pub struct PositionData {
    pub symbol: Seq<char>,
    pub quantity: int,
    pub entry_price: int,
    pub current_price: int,
}

/// A position is well formed when its entry price is non-zero, so that the
/// relative profit is defined, and every amount is within `AMOUNT_LIMIT`.
pub open spec fn position_wf(p: PositionData) -> bool {
    &&& p.entry_price != 0
    &&& -(AMOUNT_LIMIT as int) <= p.quantity <= AMOUNT_LIMIT as int
    &&& -(AMOUNT_LIMIT as int) <= p.entry_price <= AMOUNT_LIMIT as int
    &&& -(AMOUNT_LIMIT as int) <= p.current_price <= AMOUNT_LIMIT as int
}

/// Absolute profit of a position: `(current_price - entry_price) * quantity`.
/// Since both factors are scaled by `SCALE`, the result carries the scale
/// `SCALE * SCALE`, that is, ten-thousandths of a currency unit.
pub open spec fn spec_pnl(p: PositionData) -> int {
    (p.current_price - p.entry_price) * p.quantity
}

/// Numerator of the exact relative profit in percent,
/// `(current_price - entry_price) / entry_price * 100`; the denominator is
/// `entry_price`. Both prices carry the same scale, so the fraction needs no
/// scale correction.
pub open spec fn spec_pnl_percent_num(p: PositionData) -> int {
    (p.current_price - p.entry_price) * 100
}

/// The error values the library returns; no operation ever panics or ends
/// the process.
#[derive(Debug, Clone, PartialEq)]
pub enum RiskError {
    /// `add_position` refused a quantity above the guard's configured
    /// maximum; carries the offending symbol, the requested quantity and the
    /// configured limit.
    PositionTooLarge { symbol: String, requested: i64, limit: i64 },
    /// `Position::new` refused an entry price of zero, for which the
    /// relative profit would be undefined.
    ZeroEntryPrice { symbol: String },
}

/// A single held quantity of an asset with its entry and latest price, all
/// amounts fixed-point at `SCALE`. Values are only created through
/// `Position::new`, so a non-zero entry price and the `AMOUNT_LIMIT` bounds
/// hold of every `Position`.
#[derive(Debug, Clone)]
pub struct Position {
    pub(crate) symbol: String,
    pub(crate) quantity: i64,
    pub(crate) entry_price: i64,
    pub(crate) current_price: i64,
}

impl View for Position {
    type V = PositionData;

    closed spec fn view(&self) -> PositionData {
        PositionData {
            symbol: self.symbol@,
            quantity: self.quantity as int,
            entry_price: self.entry_price as int,
            current_price: self.current_price as int,
        }
    }
}

impl Position {
    /// Validates and builds a position. An entry price of zero is rejected,
    /// so that the relative profit below is always defined; any other input
    /// within the fixed-point range is accepted unchanged.
    pub fn new(symbol: String, quantity: i64, entry_price: i64, current_price: i64) -> (r: Result<
        Position,
        RiskError,
    >)
        requires
            -AMOUNT_LIMIT <= quantity <= AMOUNT_LIMIT,
            -AMOUNT_LIMIT <= entry_price <= AMOUNT_LIMIT,
            -AMOUNT_LIMIT <= current_price <= AMOUNT_LIMIT,
        ensures
            entry_price == 0 ==> (r matches Err(e) && (e matches RiskError::ZeroEntryPrice {
                symbol: s,
            } && s@ == symbol@)),
            entry_price != 0 ==> (r matches Ok(p) && p@ == (PositionData {
                symbol: symbol@,
                quantity: quantity as int,
                entry_price: entry_price as int,
                current_price: current_price as int,
            }) && position_wf(p@)),
    {
        if entry_price == 0 {
            Err(RiskError::ZeroEntryPrice { symbol })
        } else {
            Ok(Position { symbol, quantity, entry_price, current_price })
        }
    }

    /// The symbol under which the position is keyed.
    pub fn symbol(&self) -> (r: &str)
        ensures
            r@ == self@.symbol,
    {
        self.symbol.as_str()
    }

    /// The held quantity, scaled by `SCALE`.
    pub fn quantity(&self) -> (r: i64)
        ensures
            r as int == self@.quantity,
    {
        self.quantity
    }

    /// The price at acquisition, scaled by `SCALE`.
    pub fn entry_price(&self) -> (r: i64)
        ensures
            r as int == self@.entry_price,
    {
        self.entry_price
    }

    /// The latest observed price, scaled by `SCALE`.
    pub fn current_price(&self) -> (r: i64)
        ensures
            r as int == self@.current_price,
    {
        self.current_price
    }

    /// Absolute profit `(current_price - entry_price) * quantity`, scaled by
    /// `SCALE * SCALE`. Works for either sign of the quantity, so long and
    /// short positions are treated symmetrically.
    pub fn pnl(&self) -> (r: i128)
        requires
            position_wf(self@),
        ensures
            r as int == spec_pnl(self@),
    {
        let diff: i128 = self.current_price as i128 - self.entry_price as i128;
        proof {
            assert(-(2 * (AMOUNT_LIMIT as int) * (AMOUNT_LIMIT as int)) <= (self@.current_price
                - self@.entry_price) * self@.quantity <= 2 * (AMOUNT_LIMIT as int) * (
            AMOUNT_LIMIT as int)) by (nonlinear_arith)
                requires
                    position_wf(self@),
            ;
        }
        diff * (self.quantity as i128)
    }

    /// Exact relative profit in percent,
    /// `(current_price - entry_price) / entry_price * 100`, as the fraction
    /// `(current_price - entry_price) * 100 / entry_price`.
    pub fn pnl_percent(&self) -> (r: Ratio)
        requires
            self@.entry_price != 0,
        ensures
            r.num as int == spec_pnl_percent_num(self@),
            r.den as int == self@.entry_price,
            r.den != 0,
    {
        let diff: i128 = self.current_price as i128 - self.entry_price as i128;
        Ratio { num: diff * 100, den: self.entry_price as i128 }
    }

    /// How a position's view reads its fields, for the sibling module that
    /// stores positions.
    pub(crate) broadcast proof fn lemma_view(p: &Position)
        ensures
            (#[trigger] p@) == (PositionData {
                symbol: p.symbol@,
                quantity: p.quantity as int,
                entry_price: p.entry_price as int,
                current_price: p.current_price as int,
            }),
    {
    }

    /// The same position with its latest price replaced.
    pub(crate) fn with_current_price(&self, price: i64) -> (r: Position)
        ensures
            r@ == (PositionData { current_price: price as int, ..self@ }),
    {
        Position {
            symbol: self.symbol.clone(),
            quantity: self.quantity,
            entry_price: self.entry_price,
            current_price: price,
        }
    }
}

} // verus!
