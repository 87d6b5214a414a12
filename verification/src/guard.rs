use vstd::prelude::*;

use crate::position::AMOUNT_LIMIT;
use crate::position::PERCENT_LIMIT;
use crate::position::Position;
use crate::position::PositionData;
use crate::position::RiskError;
use crate::position::position_wf;
use crate::position::spec_pnl;
use crate::position::spec_pnl_percent_num;
use crate::rational::Ratio;
use crate::rational::ratio_lt;

verus! {

broadcast use crate::position::Position::lemma_view;

/// Most positions a guard holds at once. Together with `AMOUNT_LIMIT` this
/// keeps the portfolio aggregates below within `i128`.
pub const MAX_POSITIONS: usize = 1_000_000;

/// Denominator of the value-at-risk estimate returned by `calculate_var`:
/// the portfolio value carries the scale `SCALE * SCALE`, the confidence
/// factor `1 - confidence` the scale `SCALE`, and the model multiplies by
/// one tenth, so the numerator is `SCALE * SCALE * SCALE * 10` times the
/// estimate.
pub const VAR_DENOMINATOR: i128 = 10_000_000;

/// Mathematical content of a `RiskGuard`: the held positions in insertion
/// order and the two configured limits as unbounded integers.
#[verifier::ext_equal]
pub struct GuardData {
    pub positions: Seq<PositionData>,
    pub max_position_size: int,
    pub max_loss_percent: int,
}

/// A guard is well formed when every held position is well formed, symbols
/// are unique keys, the position count is within `MAX_POSITIONS`, and the
/// stop-loss threshold is within `PERCENT_LIMIT`.
pub open spec fn guard_wf(g: GuardData) -> bool {
    &&& forall|i: int| 0 <= i < g.positions.len() ==> position_wf(#[trigger] g.positions[i])
    &&& forall|i: int, j: int|
        0 <= i < j < g.positions.len() ==> g.positions[i].symbol != g.positions[j].symbol
    &&& g.positions.len() <= MAX_POSITIONS
    &&& -(PERCENT_LIMIT as int) <= g.max_loss_percent <= PERCENT_LIMIT as int
}

/// Whether some held position is keyed by the symbol `s`.
pub open spec fn holds_symbol(ps: Seq<PositionData>, s: Seq<char>) -> bool {
    exists|i: int| 0 <= i < ps.len() && ps[i].symbol == s
}

/// The index of the position keyed by `s`; meaningful when `holds_symbol`
/// holds and symbols are unique.
pub open spec fn index_of_symbol(ps: Seq<PositionData>, s: Seq<char>) -> int {
    choose|i: int| 0 <= i < ps.len() && ps[i].symbol == s
}

/// The position keyed by `s`.
pub open spec fn position_of(ps: Seq<PositionData>, s: Seq<char>) -> PositionData {
    ps[index_of_symbol(ps, s)]
}

/// Sum of `spec_pnl` over the positions, scaled by `SCALE * SCALE`.
pub open spec fn sum_pnl(ps: Seq<PositionData>) -> int
    decreases ps.len(),
{
    if ps.len() == 0 {
        0
    } else {
        sum_pnl(ps.drop_last()) + spec_pnl(ps.last())
    }
}

/// Market value of one position, `quantity * current_price`, scaled by
/// `SCALE * SCALE`. The quantity keeps its sign: a short position lowers the
/// portfolio value.
pub open spec fn spec_position_value(p: PositionData) -> int {
    p.quantity * p.current_price
}

/// Sum of `spec_position_value` over the positions, scaled by
/// `SCALE * SCALE`.
pub open spec fn sum_value(ps: Seq<PositionData>) -> int
    decreases ps.len(),
{
    if ps.len() == 0 {
        0
    } else {
        sum_value(ps.drop_last()) + spec_position_value(ps.last())
    }
}

/// A position breaches the stop-loss exactly when its relative profit in
/// percent is strictly below the negated threshold: as exact fractions,
/// `pnl_percent < -(max_loss_percent / SCALE)`. A loss equal to the
/// threshold does not trigger.
pub open spec fn spec_triggered(p: PositionData, max_loss_percent: int) -> bool {
    ratio_lt(spec_pnl_percent_num(p), p.entry_price, -max_loss_percent, 100)
}

/// The symbols of the positions that breach the stop-loss, in the order the
/// positions are held.
pub open spec fn triggered_symbols(ps: Seq<PositionData>, max_loss_percent: int) -> Seq<Seq<char>>
    decreases ps.len(),
{
    if ps.len() == 0 {
        Seq::empty()
    } else if spec_triggered(ps.last(), max_loss_percent) {
        triggered_symbols(ps.drop_last(), max_loss_percent).push(ps.last().symbol)
    } else {
        triggered_symbols(ps.drop_last(), max_loss_percent)
    }
}

/// The profit of one well-formed position is bounded by twice the square of
/// the amount limit.
proof fn lemma_pnl_bound(p: PositionData)
    requires
        position_wf(p),
    ensures
        -(2 * (AMOUNT_LIMIT as int) * (AMOUNT_LIMIT as int)) <= spec_pnl(p) <= 2 * (
        AMOUNT_LIMIT as int) * (AMOUNT_LIMIT as int),
{
    assert(-(2 * (AMOUNT_LIMIT as int) * (AMOUNT_LIMIT as int)) <= (p.current_price
        - p.entry_price) * p.quantity <= 2 * (AMOUNT_LIMIT as int) * (AMOUNT_LIMIT as int))
        by (nonlinear_arith)
        requires
            position_wf(p),
    ;
}

/// The value of one well-formed position is bounded by the square of the
/// amount limit.
proof fn lemma_position_value_bound(p: PositionData)
    requires
        position_wf(p),
    ensures
        -((AMOUNT_LIMIT as int) * (AMOUNT_LIMIT as int)) <= spec_position_value(p) <= (
        AMOUNT_LIMIT as int) * (AMOUNT_LIMIT as int),
{
    assert(-((AMOUNT_LIMIT as int) * (AMOUNT_LIMIT as int)) <= p.quantity * p.current_price <= (
    AMOUNT_LIMIT as int) * (AMOUNT_LIMIT as int)) by (nonlinear_arith)
        requires
            position_wf(p),
    ;
}

/// The summed profit of well-formed positions grows at most linearly with
/// their number.
proof fn lemma_sum_pnl_bound(ps: Seq<PositionData>)
    requires
        forall|i: int| 0 <= i < ps.len() ==> position_wf(#[trigger] ps[i]),
    ensures
        -(ps.len() * (2 * (AMOUNT_LIMIT as int) * (AMOUNT_LIMIT as int))) <= sum_pnl(ps) <= ps.len()
            * (2 * (AMOUNT_LIMIT as int) * (AMOUNT_LIMIT as int)),
    decreases ps.len(),
{
    if ps.len() > 0 {
        lemma_sum_pnl_bound(ps.drop_last());
        lemma_pnl_bound(ps.last());
        assert((ps.len() as int) * (2 * (AMOUNT_LIMIT as int) * (AMOUNT_LIMIT as int)) == ((
        ps.len() - 1) as int) * (2 * (AMOUNT_LIMIT as int) * (AMOUNT_LIMIT as int)) + 2 * (
        AMOUNT_LIMIT as int) * (AMOUNT_LIMIT as int)) by (nonlinear_arith)
            requires
                ps.len() > 0,
        ;
    }
}

/// The summed value of well-formed positions grows at most linearly with
/// their number.
proof fn lemma_sum_value_bound(ps: Seq<PositionData>)
    requires
        forall|i: int| 0 <= i < ps.len() ==> position_wf(#[trigger] ps[i]),
    ensures
        -(ps.len() * ((AMOUNT_LIMIT as int) * (AMOUNT_LIMIT as int))) <= sum_value(ps) <= ps.len()
            * ((AMOUNT_LIMIT as int) * (AMOUNT_LIMIT as int)),
    decreases ps.len(),
{
    if ps.len() > 0 {
        lemma_sum_value_bound(ps.drop_last());
        lemma_position_value_bound(ps.last());
        assert((ps.len() as int) * ((AMOUNT_LIMIT as int) * (AMOUNT_LIMIT as int)) == ((ps.len()
            - 1) as int) * ((AMOUNT_LIMIT as int) * (AMOUNT_LIMIT as int)) + (AMOUNT_LIMIT as int)
            * (AMOUNT_LIMIT as int)) by (nonlinear_arith)
            requires
                ps.len() > 0,
        ;
    }
}

/// With unique symbols, any index whose position carries the symbol `s` is
/// the one `index_of_symbol` denotes.
pub proof fn lemma_unique_symbol_index(ps: Seq<PositionData>, s: Seq<char>, i: int)
    requires
        forall|a: int, b: int| 0 <= a < b < ps.len() ==> ps[a].symbol != ps[b].symbol,
        0 <= i < ps.len(),
        ps[i].symbol == s,
    ensures
        holds_symbol(ps, s),
        index_of_symbol(ps, s) == i,
{
    assert(holds_symbol(ps, s));
    let j = index_of_symbol(ps, s);
    assert(0 <= j < ps.len() && ps[j].symbol == s);
    if i < j {
        assert(ps[i].symbol != ps[j].symbol);
    } else if j < i {
        assert(ps[j].symbol != ps[i].symbol);
    }
}

/// The stop-loss report is exact: it contains a symbol precisely when some
/// held position carries that symbol and breaches the threshold. Together
/// with the strictness of `ratio_lt` this means a loss exactly at the
/// threshold is never reported.
pub proof fn lemma_stop_loss_exact(ps: Seq<PositionData>, max_loss_percent: int)
    ensures
        forall|s: Seq<char>|
            #[trigger] triggered_symbols(ps, max_loss_percent).contains(s) <==> exists|i: int|
                0 <= i < ps.len() && (#[trigger] ps[i]).symbol == s && spec_triggered(
                    ps[i],
                    max_loss_percent,
                ),
    decreases ps.len(),
{
    let syms = triggered_symbols(ps, max_loss_percent);
    if ps.len() == 0 {
        assert(forall|s: Seq<char>| !(#[trigger] syms.contains(s)));
    } else {
        let pre = ps.drop_last();
        let last = ps.last();
        lemma_stop_loss_exact(pre, max_loss_percent);
        let syms_pre = triggered_symbols(pre, max_loss_percent);
        assert forall|s: Seq<char>| #[trigger] syms.contains(s) implies exists|i: int|
            0 <= i < ps.len() && (#[trigger] ps[i]).symbol == s && spec_triggered(
                ps[i],
                max_loss_percent,
            ) by {
            let k = choose|k: int| 0 <= k < syms.len() && syms[k] == s;
            if spec_triggered(last, max_loss_percent) && k == syms.len() - 1 {
                assert(ps[ps.len() - 1] == last);
                assert(ps[ps.len() - 1].symbol == s);
            } else {
                assert(syms_pre[k] == s);
                assert(syms_pre.contains(s));
                let i = choose|i: int|
                    0 <= i < pre.len() && (#[trigger] pre[i]).symbol == s && spec_triggered(
                        pre[i],
                        max_loss_percent,
                    );
                assert(ps[i] == pre[i]);
                assert(0 <= i < ps.len() && ps[i].symbol == s && spec_triggered(
                    ps[i],
                    max_loss_percent,
                ));
            }
        }
        assert forall|s: Seq<char>|
            (exists|i: int|
                0 <= i < ps.len() && (#[trigger] ps[i]).symbol == s && spec_triggered(
                    ps[i],
                    max_loss_percent,
                )) implies #[trigger] syms.contains(s) by {
            let i = choose|i: int|
                0 <= i < ps.len() && (#[trigger] ps[i]).symbol == s && spec_triggered(
                    ps[i],
                    max_loss_percent,
                );
            if i < ps.len() - 1 {
                assert(pre[i] == ps[i]);
                assert(0 <= i < pre.len() && pre[i].symbol == s && spec_triggered(
                    pre[i],
                    max_loss_percent,
                ));
                assert(syms_pre.contains(s));
                let k = choose|k: int| 0 <= k < syms_pre.len() && syms_pre[k] == s;
                assert(syms[k] == s);
                assert(syms.contains(s));
            } else {
                assert(ps[i] == last);
                assert(syms.last() == s);
                assert(syms.contains(s));
            }
        }
    }
}

/// A portfolio of positions keyed by symbol with a position-size limit
/// checked on insertion and a stop-loss threshold, both fixed for the life
/// of the guard.
#[derive(Debug)]
pub struct RiskGuard {
    positions: Vec<Position>,
    max_position_size: i64,
    max_loss_percent: i64,
}

impl View for RiskGuard {
    type V = GuardData;

    closed spec fn view(&self) -> GuardData {
        GuardData {
            positions: self.positions@.map_values(|p: Position| p@),
            max_position_size: self.max_position_size as int,
            max_loss_percent: self.max_loss_percent as int,
        }
    }
}

impl RiskGuard {
    /// Whether the guard's own invariant holds; established by `new` and
    /// preserved by every operation.
    pub open spec fn wf(&self) -> bool {
        guard_wf(self@)
    }

    /// A guard with no positions and the given limits. The limits themselves
    /// are not validated: a negative size limit simply makes every insertion
    /// fail, and a negative loss threshold makes positions trigger early.
    pub fn new(max_position_size: i64, max_loss_percent: i64) -> (g: RiskGuard)
        requires
            -PERCENT_LIMIT <= max_loss_percent <= PERCENT_LIMIT,
        ensures
            g.wf(),
            g@.positions == Seq::<PositionData>::empty(),
            g@.max_position_size == max_position_size as int,
            g@.max_loss_percent == max_loss_percent as int,
    {
        let g = RiskGuard { positions: Vec::new(), max_position_size, max_loss_percent };
        proof {
            assert(g@.positions =~= Seq::<PositionData>::empty());
        }
        g
    }

    /// The held positions, in insertion order.
    pub fn positions(&self) -> (r: &Vec<Position>)
        ensures
            r@.map_values(|p: Position| p@) == self@.positions,
    {
        &self.positions
    }

    /// The index of the position keyed by `symbol`, if one is held.
    fn position_index(v: &Vec<Position>, symbol: &String) -> (r: Option<usize>)
        ensures
            match r {
                Some(j) => j < v.len() && v@[j as int]@.symbol == symbol@,
                None => forall|i: int| 0 <= i < v@.len() ==> v@[i]@.symbol != symbol@,
            },
    {
        let mut j: usize = 0;
        while j < v.len()
            invariant
                j <= v.len(),
                forall|i: int| 0 <= i < j ==> v@[i]@.symbol != symbol@,
            decreases v.len() - j,
        {
            if v[j].symbol == *symbol {
                return Some(j);
            }
            j += 1;
        }
        None
    }

    /// Inserts `position` keyed by its symbol. A quantity above the
    /// configured maximum is refused with `PositionTooLarge` and the guard
    /// left unchanged; any other position is stored, silently replacing a
    /// previously held position with the same symbol (replace semantics, by
    /// design).
    pub fn add_position(&mut self, position: Position) -> (r: Result<(), RiskError>)
        requires
            old(self).wf(),
            position_wf(position@),
            old(self)@.positions.len() < MAX_POSITIONS,
        ensures
            final(self).wf(),
            final(self)@.max_position_size == old(self)@.max_position_size,
            final(self)@.max_loss_percent == old(self)@.max_loss_percent,
            position@.quantity > old(self)@.max_position_size ==> final(self)@ == old(self)@ && (
            r matches Err(e) && (e matches RiskError::PositionTooLarge { symbol, requested, limit }
                && symbol@ == position@.symbol && requested as int == position@.quantity
                && limit as int == old(self)@.max_position_size)),
            position@.quantity <= old(self)@.max_position_size ==> r is Ok && holds_symbol(
                final(self)@.positions,
                position@.symbol,
            ) && position_of(final(self)@.positions, position@.symbol) == position@ && (
            if holds_symbol(old(self)@.positions, position@.symbol) {
                final(self)@.positions == old(self)@.positions.update(
                    index_of_symbol(old(self)@.positions, position@.symbol),
                    position@,
                )
            } else {
                final(self)@.positions == old(self)@.positions.push(position@)
            }),
    {
        if position.quantity > self.max_position_size {
            let limit = self.max_position_size;
            let Position { symbol, quantity, .. } = position;
            return Err(RiskError::PositionTooLarge { symbol, requested: quantity, limit });
        }
        match Self::position_index(&self.positions, &position.symbol) {
            Some(j) => {
                proof {
                    lemma_unique_symbol_index(old(self)@.positions, position@.symbol, j as int);
                }
                self.positions[j] = position;
                proof {
                    assert(self@.positions =~= old(self)@.positions.update(j as int, position@));
                    assert forall|a: int, b: int| 0 <= a < b < self@.positions.len() implies
                        self@.positions[a].symbol != self@.positions[b].symbol by {
                        assert(old(self)@.positions[a].symbol != old(self)@.positions[b].symbol);
                    }
                    lemma_unique_symbol_index(self@.positions, position@.symbol, j as int);
                }
            },
            None => {
                proof {
                    assert(!holds_symbol(old(self)@.positions, position@.symbol));
                }
                self.positions.push(position);
                proof {
                    assert(self@.positions =~= old(self)@.positions.push(position@));
                    assert forall|a: int, b: int| 0 <= a < b < self@.positions.len() implies
                        self@.positions[a].symbol != self@.positions[b].symbol by {
                        if b < self@.positions.len() - 1 {
                            assert(old(self)@.positions[a].symbol != old(
                                self,
                            )@.positions[b].symbol);
                        }
                    }
                    lemma_unique_symbol_index(
                        self@.positions,
                        position@.symbol,
                        old(self)@.positions.len() as int,
                    );
                }
            },
        }
        Ok(())
    }

    /// Overwrites the latest price of the position keyed by `symbol`; the
    /// quantity and entry price are untouched. When no position carries the
    /// symbol the call is a silent no-op, by design: callers get no signal
    /// either way.
    pub fn update_price(&mut self, symbol: &str, price: i64)
        requires
            old(self).wf(),
            -AMOUNT_LIMIT <= price <= AMOUNT_LIMIT,
        ensures
            final(self).wf(),
            final(self)@.max_position_size == old(self)@.max_position_size,
            final(self)@.max_loss_percent == old(self)@.max_loss_percent,
            holds_symbol(old(self)@.positions, symbol@) ==> final(self)@.positions == old(
                self,
            )@.positions.update(
                index_of_symbol(old(self)@.positions, symbol@),
                (PositionData {
                    current_price: price as int,
                    ..old(self)@.positions[index_of_symbol(old(self)@.positions, symbol@)]
                }),
            ),
            !holds_symbol(old(self)@.positions, symbol@) ==> final(self)@ == old(self)@,
    {
        let key: String = symbol.to_owned();
        match Self::position_index(&self.positions, &key) {
            Some(j) => {
                proof {
                    lemma_unique_symbol_index(old(self)@.positions, symbol@, j as int);
                }
                let updated = self.positions[j].with_current_price(price);
                self.positions[j] = updated;
                proof {
                    assert(self@.positions =~= old(self)@.positions.update(
                        j as int,
                        (PositionData {
                            current_price: price as int,
                            ..old(self)@.positions[j as int]
                        }),
                    ));
                    assert forall|a: int, b: int| 0 <= a < b < self@.positions.len() implies
                        self@.positions[a].symbol != self@.positions[b].symbol by {
                        assert(old(self)@.positions[a].symbol != old(self)@.positions[b].symbol);
                    }
                }
            },
            None => {
                proof {
                    assert(!holds_symbol(old(self)@.positions, symbol@));
                }
            },
        }
    }

    /// The held position keyed by `symbol`, if one is held.
    pub fn get_position(&self, symbol: &str) -> (r: Option<&Position>)
        requires
            self.wf(),
        ensures
            match r {
                Some(p) => holds_symbol(self@.positions, symbol@) && p@ == position_of(
                    self@.positions,
                    symbol@,
                ),
                None => !holds_symbol(self@.positions, symbol@),
            },
    {
        let key: String = symbol.to_owned();
        match Self::position_index(&self.positions, &key) {
            Some(j) => {
                proof {
                    lemma_unique_symbol_index(self@.positions, symbol@, j as int);
                }
                Some(&self.positions[j])
            },
            None => None,
        }
    }

    /// Whether one position breaches the stop-loss, by the exact fraction
    /// comparison `pnl_percent < -(max_loss_percent / SCALE)`.
    fn is_triggered(p: &Position, max_loss_percent: i64) -> (b: bool)
        requires
            position_wf(p@),
            -PERCENT_LIMIT <= max_loss_percent <= PERCENT_LIMIT,
        ensures
            b == spec_triggered(p@, max_loss_percent as int),
    {
        let num: i128 = (p.current_price as i128 - p.entry_price as i128) * 100;
        proof {
            assert(-((PERCENT_LIMIT as int) * (AMOUNT_LIMIT as int)) <= (-(
            max_loss_percent as int)) * p@.entry_price <= (PERCENT_LIMIT as int) * (
            AMOUNT_LIMIT as int)) by (nonlinear_arith)
                requires
                    -(PERCENT_LIMIT as int) <= max_loss_percent as int <= PERCENT_LIMIT as int,
                    -(AMOUNT_LIMIT as int) <= p@.entry_price <= AMOUNT_LIMIT as int,
            ;
        }
        let lhs: i128 = num * 100;
        let rhs: i128 = (-(max_loss_percent as i128)) * (p.entry_price as i128);
        if p.entry_price > 0 {
            lhs < rhs
        } else {
            lhs > rhs
        }
    }

    /// The symbols of the positions whose exact relative loss is strictly
    /// worse than the configured threshold, in the order the positions are
    /// held; empty when nothing breaches. A loss exactly at the threshold is
    /// not reported.
    pub fn check_stop_loss(&self) -> (r: Vec<String>)
        requires
            self.wf(),
        ensures
            r@.map_values(|s: String| s@) == triggered_symbols(
                self@.positions,
                self@.max_loss_percent,
            ),
    {
        let mut out: Vec<String> = Vec::new();
        proof {
            assert(out@.map_values(|s: String| s@) =~= triggered_symbols(
                self@.positions.take(0),
                self@.max_loss_percent,
            ));
        }
        let mut j: usize = 0;
        while j < self.positions.len()
            invariant
                self.wf(),
                j <= self.positions.len(),
                out@.map_values(|s: String| s@) == triggered_symbols(
                    self@.positions.take(j as int),
                    self@.max_loss_percent,
                ),
            decreases self.positions.len() - j,
        {
            proof {
                assert(self@.positions[j as int] == self.positions@[j as int]@);
                assert(position_wf(self@.positions[j as int]));
            }
            let ghost prefix = out@.map_values(|s: String| s@);
            if Self::is_triggered(&self.positions[j], self.max_loss_percent) {
                out.push(self.positions[j].symbol.clone());
                proof {
                    assert(out@.map_values(|s: String| s@) =~= prefix.push(
                        self@.positions[j as int].symbol,
                    ));
                }
            }
            proof {
                let taken = self@.positions.take(j as int + 1);
                assert(taken.drop_last() =~= self@.positions.take(j as int));
                assert(taken.last() == self@.positions[j as int]);
                assert(out@.map_values(|s: String| s@) =~= triggered_symbols(
                    taken,
                    self@.max_loss_percent,
                ));
            }
            j += 1;
        }
        proof {
            assert(self@.positions.take(self.positions.len() as int) =~= self@.positions);
        }
        out
    }

    /// Sum of `pnl()` over all held positions, scaled by `SCALE * SCALE`;
    /// zero when no position is held.
    pub fn total_pnl(&self) -> (r: i128)
        requires
            self.wf(),
        ensures
            r as int == sum_pnl(self@.positions),
    {
        let mut total: i128 = 0;
        let mut j: usize = 0;
        while j < self.positions.len()
            invariant
                self.wf(),
                j <= self.positions.len(),
                total as int == sum_pnl(self@.positions.take(j as int)),
            decreases self.positions.len() - j,
        {
            proof {
                assert(self@.positions[j as int] == self.positions@[j as int]@);
                assert(position_wf(self@.positions[j as int]));
            }
            let pnl_j: i128 = self.positions[j].pnl();
            proof {
                let taken = self@.positions.take(j as int + 1);
                assert(taken.drop_last() =~= self@.positions.take(j as int));
                assert(taken.last() == self@.positions[j as int]);
                assert(forall|i: int| 0 <= i < taken.len() ==> position_wf(#[trigger] taken[i]));
                lemma_sum_pnl_bound(taken);
                assert((j as int + 1) * (2 * (AMOUNT_LIMIT as int) * (AMOUNT_LIMIT as int)) <= (
                MAX_POSITIONS as int) * (2 * (AMOUNT_LIMIT as int) * (AMOUNT_LIMIT as int)))
                    by (nonlinear_arith)
                    requires
                        0 <= j as int + 1 <= MAX_POSITIONS as int,
                        AMOUNT_LIMIT as int >= 0,
                ;
            }
            total = total + pnl_j;
            j += 1;
        }
        proof {
            assert(self@.positions.take(self.positions.len() as int) =~= self@.positions);
        }
        total
    }

    /// The simplified value-at-risk estimate
    /// `total_value * (1 - confidence) * 0.1`, where `total_value` sums
    /// `quantity * current_price` over all positions, as an exact fraction
    /// with denominator `VAR_DENOMINATOR`. The confidence is scaled by
    /// `SCALE`, is expected in `[0, SCALE]`, and is not validated: a value
    /// outside that range simply scales the estimate beyond the intended
    /// bound. This is a placeholder model, not a statistical quantile.
    pub fn calculate_var(&self, confidence: i64) -> (r: Ratio)
        requires
            self.wf(),
            -PERCENT_LIMIT <= confidence <= PERCENT_LIMIT,
        ensures
            r.num as int == sum_value(self@.positions) * (100 - confidence as int),
            r.den == VAR_DENOMINATOR,
    {
        let mut total: i128 = 0;
        let mut j: usize = 0;
        while j < self.positions.len()
            invariant
                self.wf(),
                j <= self.positions.len(),
                total as int == sum_value(self@.positions.take(j as int)),
            decreases self.positions.len() - j,
        {
            let p = &self.positions[j];
            proof {
                assert(self@.positions[j as int] == self.positions@[j as int]@);
                assert(position_wf(self@.positions[j as int]));
                let taken = self@.positions.take(j as int + 1);
                assert(taken.drop_last() =~= self@.positions.take(j as int));
                assert(taken.last() == self@.positions[j as int]);
                assert(forall|i: int| 0 <= i < taken.len() ==> position_wf(#[trigger] taken[i]));
                lemma_sum_value_bound(taken);
                lemma_position_value_bound(self@.positions[j as int]);
                assert((j as int + 1) * ((AMOUNT_LIMIT as int) * (AMOUNT_LIMIT as int)) <= (
                MAX_POSITIONS as int) * ((AMOUNT_LIMIT as int) * (AMOUNT_LIMIT as int)))
                    by (nonlinear_arith)
                    requires
                        0 <= j as int + 1 <= MAX_POSITIONS as int,
                        AMOUNT_LIMIT as int >= 0,
                ;
            }
            let value_j: i128 = (p.quantity as i128) * (p.current_price as i128);
            total = total + value_j;
            j += 1;
        }
        proof {
            assert(self@.positions.take(self.positions.len() as int) =~= self@.positions);
            lemma_sum_value_bound(self@.positions);
            assert((self@.positions.len() as int) * ((AMOUNT_LIMIT as int) * (AMOUNT_LIMIT as int))
                <= (MAX_POSITIONS as int) * ((AMOUNT_LIMIT as int) * (AMOUNT_LIMIT as int)))
                by (nonlinear_arith)
                requires
                    self@.positions.len() <= MAX_POSITIONS as int,
                    AMOUNT_LIMIT as int >= 0,
            ;
            assert(-(MAX_POSITIONS as int) * ((AMOUNT_LIMIT as int) * (AMOUNT_LIMIT as int)) * (100
                + PERCENT_LIMIT as int) <= sum_value(self@.positions) * (100 - confidence as int)
                <= (MAX_POSITIONS as int) * ((AMOUNT_LIMIT as int) * (AMOUNT_LIMIT as int)) * (100
                + PERCENT_LIMIT as int)) by (nonlinear_arith)
                requires
                    -((MAX_POSITIONS as int) * ((AMOUNT_LIMIT as int) * (AMOUNT_LIMIT as int)))
                        <= sum_value(self@.positions) <= (MAX_POSITIONS as int) * ((
                    AMOUNT_LIMIT as int) * (AMOUNT_LIMIT as int)),
                    -(PERCENT_LIMIT as int) <= confidence as int <= PERCENT_LIMIT as int,
            ;
        }
        let factor: i128 = 100 - confidence as i128;
        Ratio { num: total * factor, den: VAR_DENOMINATOR }
    }
}

} // verus!
