use vstd::prelude::*;

use super::Account;
use super::Investment;
use super::Portfolio;
use super::MAX_MONEY;
use super::PPM_SCALE;
use super::abs_of;
use super::acc_units;
use super::accounts_hold_value;
use super::clamp0;
use super::distinct_positions;
use super::find_inv_idx;
use super::find_pos_idx;
use super::find_target_idx;
use super::has_position;
use super::lemma_acc_units_bound;
use super::lemma_price_or0_absent;
use super::lemma_price_or0_nonneg;
use super::lemma_price_or0_first;
use super::lemma_price_or0_pos;
use super::market_has;
use super::name_listed;
use super::names_contain;
use super::portfolio_gross;
use super::portfolio_value;
use super::price_or0;
use super::sum_accounts_cash;
use super::units_in;
use super::weight_of;
use super::yield_or0;

use super::results::AccountPositions;
use super::results::CashBalance;
use super::results::Results;
use super::results::cash_of;
use super::results::has_acct;
use super::results::has_cash;
use super::results::ledger_gross;
use super::results::ledger_holds;
use super::results::positions_value;
use super::results::results_value;
use super::results::sum_abs_cash;
use super::results::sum_cash;
use super::results::units_of;
use super::results::lemma_cash_of_le_abs;
use super::results::lemma_units_of_le_total;
use super::results::lemma_total_units_price_le;
use super::results::lemma_units_of_nonneg;
use super::results::total_units;

verus! {

/// One symbol's outstanding need: the cents still to be acquired
/// (`cash_delta`, negative when overweight) and the target amount it is
/// measured against (`alloc`, the symbol's target share of the total
/// value). The need's priority is the ratio `cash_delta / alloc`, so
/// small positions that are far from their own target outrank large ones
/// that are nearly there. `ord`, the symbol's place in the target list,
/// breaks exact ties, later entries first.
struct Needed {
    symbol: String,
    cash_delta: i64,
    alloc: i64,
    ord: usize,
}

/// `w` ppm of `v` cents, rounded toward zero.
pub open spec fn scale_weight(w: int, v: int) -> int {
    if v >= 0 {
        (w * v) / PPM_SCALE as int
    } else {
        -((w * -v) / PPM_SCALE as int)
    }
}

/// The target dollar amount of the `k`-th target entry.
pub open spec fn alloc_of_target(p: Portfolio, k: int) -> int {
    scale_weight(p.target@[k].weight as int, portfolio_value(p))
}

/// The planner's cash delta for the `k`-th target entry: target amount
/// minus current holding value, positive when more is needed.
pub open spec fn delta_of_target(p: Portfolio, k: int) -> int {
    alloc_of_target(p, k) - acc_units(p.accounts@, p.target@[k].symbol@) * price_or0(
        p.market@,
        p.target@[k].symbol@,
    )
}

/// The portfolio holds, in every targeted symbol, exactly the target
/// fraction of the total portfolio value.
pub open spec fn at_target(p: Portfolio) -> bool {
    forall|k: int|
        0 <= k < p.target@.len() ==> (#[trigger] p.target@[k].weight as int) * portfolio_value(p)
            == acc_units(p.accounts@, p.target@[k].symbol@) * price_or0(
            p.market@,
            p.target@[k].symbol@,
        ) * PPM_SCALE as int
}

/// Every account starts with exactly zero cash.
pub open spec fn zero_cash(p: Portfolio) -> bool {
    forall|i: int| 0 <= i < p.accounts@.len() ==> (#[trigger] p.accounts@[i].cash) == 0
}

/// Every account starts with non-negative cash.
pub open spec fn cash_nonneg(p: Portfolio) -> bool {
    forall|i: int| 0 <= i < p.accounts@.len() ==> (#[trigger] p.accounts@[i].cash) >= 0
}

/// Whether `a` is the name of one of the portfolio's accounts.
pub open spec fn account_named(p: Portfolio, a: Seq<char>) -> bool {
    exists|i: int| 0 <= i < p.accounts@.len() && p.accounts@[i].name@ == a
}

/// An account that the sale policy protects: it is named in
/// `no_sale_accounts`, or it is taxable while taxable sales are barred.
pub open spec fn sale_protected(p: Portfolio, a: Account) -> bool {
    name_listed(p.no_sale_accounts@, a.name@) || (!a.tax_sheltered && !p.spec_can_sell_taxed())
}

/// The ledger shape that every rebalancing phase preserves: well-formed
/// maps, every held symbol priced, and a gross size within machine range.
pub open spec fn ledger_ok(r: Results, p: Portfolio) -> bool {
    &&& r.wf()
    &&& ledger_gross(r, p.market@) <= MAX_MONEY as int
    &&& forall|s: Seq<char>| ledger_holds(r.positions@, s) ==> market_has(p.market@, s)
}

/// Bounds on a need entry, inherited from the planner.
spec fn needed_ok(n: Needed, p: Portfolio) -> bool {
    &&& abs_of(n.cash_delta as int) <= 3 * MAX_MONEY as int
    &&& abs_of(n.alloc as int) <= 3 * MAX_MONEY as int
    &&& market_has(p.market@, n.symbol@)
}

spec fn queue_ok(q: Seq<Needed>, p: Portfolio) -> bool {
    forall|k: int| 0 <= k < q.len() ==> #[trigger] needed_ok(q[k], p)
}

/// The cents a need still asks for, never negative.
spec fn need_units(n: Needed) -> int {
    if n.cash_delta > 0 {
        n.cash_delta as int
    } else {
        0
    }
}

/// The sum of all outstanding needs: the buy phase's termination measure.
spec fn sum_need(q: Seq<Needed>) -> int
    decreases q.len(),
{
    if q.len() == 0 {
        0
    } else {
        sum_need(q.drop_last()) + need_units(q.last())
    }
}

proof fn lemma_sum_need_nonneg(q: Seq<Needed>)
    ensures
        0 <= sum_need(q),
    decreases q.len(),
{
    if q.len() > 0 {
        lemma_sum_need_nonneg(q.drop_last());
    }
}

proof fn lemma_sum_need_remove(q: Seq<Needed>, i: int)
    requires
        0 <= i < q.len(),
    ensures
        sum_need(q.remove(i)) == sum_need(q) - need_units(q[i]),
    decreases q.len(),
{
    if i == q.len() - 1 {
        assert(q.remove(i) =~= q.drop_last());
    } else {
        assert(q.remove(i).drop_last() =~= q.drop_last().remove(i));
        lemma_sum_need_remove(q.drop_last(), i);
    }
}

proof fn lemma_sum_need_push(q: Seq<Needed>, v: Needed)
    ensures
        sum_need(q.push(v)) == sum_need(q) + need_units(v),
{
    assert(q.push(v).drop_last() =~= q);
}

/// The priority ratio's numerator and denominator: a need measured
/// against a target amount of zero or less counts as no need at all.
spec fn pct_num(n: Needed) -> int {
    if n.alloc <= 0 {
        0
    } else {
        n.cash_delta as int
    }
}

spec fn pct_den(n: Needed) -> int {
    if n.alloc <= 0 {
        1
    } else {
        n.alloc as int
    }
}

/// Whether `a` is served no later than `b`: a strictly larger relative
/// need wins, and exact ties go to the later target entry.
spec fn ranks_before(a: Needed, b: Needed) -> bool {
    let x = pct_num(a) * pct_den(b);
    let y = pct_num(b) * pct_den(a);
    x > y || (x == y && a.ord >= b.ord)
}

/// Compares two needs by relative underweight, exactly, by cross
/// multiplication of the two ratios.
fn ranks_before_exec(a: &Needed, b: &Needed) -> (r: bool)
    requires
        abs_of(a.cash_delta as int) <= 3 * MAX_MONEY as int,
        abs_of(a.alloc as int) <= 3 * MAX_MONEY as int,
        abs_of(b.cash_delta as int) <= 3 * MAX_MONEY as int,
        abs_of(b.alloc as int) <= 3 * MAX_MONEY as int,
    ensures
        r == ranks_before(*a, *b),
{
    let (na, da): (i64, i64) = if a.alloc <= 0 {
        (0, 1)
    } else {
        (a.cash_delta, a.alloc)
    };
    let (nb, db): (i64, i64) = if b.alloc <= 0 {
        (0, 1)
    } else {
        (b.cash_delta, b.alloc)
    };
    proof {
        let bound = 3 * MAX_MONEY as int;
        assert(-bound <= na as int <= bound && -bound <= db as int <= bound && -bound <= nb as int
            <= bound && -bound <= da as int <= bound);
        assert(na as int * db as int <= 0x10000000000000000000000000000 && na as int * db as int
            >= -0x10000000000000000000000000000) by (nonlinear_arith)
            requires
                -bound <= na as int <= bound,
                -bound <= db as int <= bound,
                bound == 3000000000000,
        ;
        assert(nb as int * da as int <= 0x10000000000000000000000000000 && nb as int * da as int
            >= -0x10000000000000000000000000000) by (nonlinear_arith)
            requires
                -bound <= nb as int <= bound,
                -bound <= da as int <= bound,
                bound == 3000000000000,
        ;
    }
    let x: i128 = (na as i128) * (db as i128);
    let y: i128 = (nb as i128) * (da as i128);
    x > y || (x == y && a.ord >= b.ord)
}

/// The index of the need that the queue serves next: the entry that
/// ranks before every other one.
fn pick_best(q: &Vec<Needed>, p: &Portfolio) -> (r: usize)
    requires
        q@.len() > 0,
        queue_ok(q@, *p),
    ensures
        r < q@.len(),
{
    let mut best: usize = 0;
    let mut i: usize = 1;
    while i < q.len()
        invariant
            1 <= i <= q@.len(),
            best < i,
            queue_ok(q@, *p),
        decreases q@.len() - i,
    {
        assert(needed_ok(q@[i as int], *p));
        assert(needed_ok(q@[best as int], *p));
        if ranks_before_exec(&q[i], &q[best]) {
            best = i;
        }
        i = i + 1;
    }
    best
}

impl Needed {
    /// A fresh need for `symbol`, measured against its target share of
    /// the given total value.
    fn new(symbol: &str, cash_delta: i64, portfolio: &Portfolio, total_value: i64, ord: usize) -> (r:
        Needed)
        requires
            portfolio.ok(),
            abs_of(total_value as int) <= MAX_MONEY as int,
            total_value as int == portfolio_value(*portfolio),
        ensures
            r.symbol@ == symbol@,
            r.cash_delta == cash_delta,
            r.alloc as int == scale_weight(
                weight_of(portfolio.target@, symbol@),
                portfolio_value(*portfolio),
            ),
            r.ord == ord,
            abs_of(r.alloc as int) <= 3 * MAX_MONEY as int,
    {
        let w: u64 = match find_target_idx(&portfolio.target, symbol) {
            Option::Some(k) => {
                proof {
                    super::lemma_weight_of_at(portfolio.target@, k as int, symbol@);
                }
                portfolio.target[k].weight
            }
            Option::None => {
                proof {
                    super::lemma_weight_of_absent(portfolio.target@, symbol@);
                }
                0
            }
        };
        let alloc = scale_weight_exec(w, total_value);
        Needed { symbol: symbol.to_owned(), cash_delta, alloc, ord }
    }
}

/// The planner: computes, for every target entry, the cash still needed
/// in that symbol (target weight times total value, minus the value
/// already held), exactly, in cents.
fn compute_deltas(p: &Portfolio, total_value: i64) -> (r: Vec<Needed>)
    requires
        p.ok(),
        total_value as int == portfolio_value(*p),
        abs_of(total_value as int) <= MAX_MONEY as int,
    ensures
        r@.len() == p.target@.len(),
        forall|k: int|
            0 <= k < r@.len() ==> {
                let e = #[trigger] r@[k];
                &&& e.symbol@ == p.target@[k].symbol@
                &&& e.ord == k
                &&& e.alloc as int == alloc_of_target(*p, k)
                &&& e.cash_delta as int == delta_of_target(*p, k)
                &&& needed_ok(e, *p)
            },
{
    let shares = p.total_shares();
    let mut r: Vec<Needed> = Vec::new();
    let mut k: usize = 0;
    while k < p.target.len()
        invariant
            k <= p.target@.len(),
            p.ok(),
            total_value as int == portfolio_value(*p),
            abs_of(total_value as int) <= MAX_MONEY as int,
            forall|s: Seq<char>| units_in(shares@, s) == acc_units(p.accounts@, s),
            distinct_positions(shares@),
            r@.len() == k,
            forall|k2: int|
                0 <= k2 < k ==> {
                    let e = #[trigger] r@[k2];
                    &&& e.symbol@ == p.target@[k2].symbol@
                    &&& e.ord == k2
                    &&& e.alloc as int == alloc_of_target(*p, k2)
                    &&& e.cash_delta as int == delta_of_target(*p, k2)
                    &&& needed_ok(e, *p)
                },
        decreases p.target@.len() - k,
    {
        let t = &p.target[k];
        let ghost sym = t.symbol@;
        let price: u64 = match find_inv_idx(&p.market, t.symbol.as_str()) {
            Option::Some(x) => {
                proof {
                    lemma_price_or0_first(p.market@, x as int, sym);
                }
                p.market[x].price
            }
            Option::None => {
                proof {
                    lemma_price_or0_absent(p.market@, sym);
                    assert(market_has(p.market@, sym));
                    assert(false);
                }
                0
            }
        };
        let units: u64 = match find_pos_idx(&shares, t.symbol.as_str()) {
            Option::Some(x) => {
                proof {
                    super::results::lemma_units_in_at(shares@, x as int, sym);
                }
                shares[x].shares
            }
            Option::None => {
                proof {
                    super::results::lemma_units_in_absent(shares@, sym);
                }
                0
            }
        };
        proof {
            super::lemma_acc_units_price_le(p.accounts@, p.market@, sym);
            super::lemma_ahv_le_gross(p.accounts@, p.market@);
            super::lemma_acc_units_bound(p.accounts@, p.market@, sym);
        }
        let alloc: i64 = scale_weight_exec(t.weight, total_value);
        let held: i64 = ((units as i128) * (price as i128)) as i64;
        let cd: i64 = alloc - held;
        r.push(Needed { symbol: t.symbol.clone(), cash_delta: cd, alloc, ord: k });
        k = k + 1;
    }
    r
}

/// The account order of the sell phase: tax-sheltered accounts first,
/// each group in its original order. Returns indices into `accounts`.
fn order_sheltered_first(accounts: &Vec<Account>) -> (r: Vec<usize>)
    ensures
        forall|k: int| 0 <= k < r@.len() ==> (#[trigger] r@[k]) < accounts@.len(),
{
    let mut r: Vec<usize> = Vec::new();
    let mut i: usize = 0;
    while i < accounts.len()
        invariant
            i <= accounts@.len(),
            forall|k: int| 0 <= k < r@.len() ==> (#[trigger] r@[k]) < accounts@.len(),
        decreases accounts@.len() - i,
    {
        if accounts[i].tax_sheltered {
            r.push(i);
        }
        i = i + 1;
    }
    let mut j: usize = 0;
    while j < accounts.len()
        invariant
            j <= accounts@.len(),
            forall|k: int| 0 <= k < r@.len() ==> (#[trigger] r@[k]) < accounts@.len(),
        decreases accounts@.len() - j,
    {
        if !accounts[j].tax_sheltered {
            r.push(j);
        }
        j = j + 1;
    }
    r
}

/// The reverse of an account order: the buy phase tries accounts in the
/// opposite order of the sell phase.
fn reverse_order(order: &Vec<usize>, n: Ghost<int>) -> (r: Vec<usize>)
    requires
        forall|k: int| 0 <= k < order@.len() ==> (#[trigger] order@[k]) < n@,
    ensures
        forall|k: int| 0 <= k < r@.len() ==> (#[trigger] r@[k]) < n@,
{
    let mut r: Vec<usize> = Vec::new();
    let mut i: usize = order.len();
    while i > 0
        invariant
            i <= order@.len(),
            forall|k: int| 0 <= k < order@.len() ==> (#[trigger] order@[k]) < n@,
            forall|k: int| 0 <= k < r@.len() ==> (#[trigger] r@[k]) < n@,
        decreases i,
    {
        i = i - 1;
        r.push(order[i]);
    }
    r
}

/// Whether `mi` occurs in a list of indices.
spec fn index_listed(r: Seq<usize>, mi: int) -> bool {
    exists|x: int| 0 <= x < r.len() && (#[trigger] r[x]) as int == mi
}

/// The fill phase's symbol order: market indices sorted by price, highest
/// first, entries of equal price in their original order. Every market
/// entry appears.
fn order_by_price_desc(market: &Vec<Investment>) -> (r: Vec<usize>)
    ensures
        r@.len() == market@.len(),
        forall|k: int| 0 <= k < r@.len() ==> (#[trigger] r@[k]) < market@.len(),
        forall|mi: int| 0 <= mi < market@.len() ==> #[trigger] index_listed(r@, mi),
{
    let mut order: Vec<usize> = Vec::new();
    let mut i: usize = 0;
    while i < market.len()
        invariant
            i <= market@.len(),
            order@.len() == i,
            forall|k: int| 0 <= k < order@.len() ==> (#[trigger] order@[k]) < market@.len(),
            forall|mi: int| 0 <= mi < i ==> #[trigger] index_listed(order@, mi),
            forall|x: int, y: int|
                0 <= x < y < order@.len() ==> market@[order@[x] as int].price >= market@[order@[y]
                    as int].price,
        decreases market@.len() - i,
    {
        let price_i = market[i].price;
        let mut pos: usize = 0;
        while pos < order.len() && market[order[pos]].price >= price_i
            invariant
                pos <= order@.len(),
                forall|k: int| 0 <= k < order@.len() ==> (#[trigger] order@[k]) < market@.len(),
                forall|x: int|
                    0 <= x < pos ==> market@[order@[x] as int].price >= price_i,
            decreases order@.len() - pos,
        {
            pos = pos + 1;
        }
        let ghost order0 = order@;
        order.insert(pos, i);
        proof {
            order0.insert_ensures(pos as int, i);
            assert forall|mi: int| 0 <= mi < i + 1 implies #[trigger] index_listed(
                order@,
                mi,
            ) by {
                if mi == i as int {
                    assert(order@[pos as int] as int == mi);
                } else {
                    assert(index_listed(order0, mi));
                    let x0 = choose|x: int|
                        0 <= x < order0.len() && (#[trigger] order0[x]) as int == mi;
                    if x0 < pos {
                        assert(order@[x0] == order0[x0]);
                        assert(order@[x0] as int == mi);
                    } else {
                        assert(order@[x0 + 1] == order0[x0]);
                        assert(order@[x0 + 1] as int == mi);
                    }
                }
            }
            assert forall|x: int, y: int|
                0 <= x < y < order@.len() implies market@[order@[x] as int].price
                    >= market@[order@[y] as int].price by {
                if y == pos as int {
                    assert(order@[x] == order0[x]);
                    assert(market@[order0[x] as int].price >= price_i);
                } else if x == pos as int {
                    assert(y > pos as int);
                    assert(order@[y] == order0[y - 1]);
                    assert(pos < order0.len());
                    assert(market@[order0[pos as int] as int].price < price_i);
                    if y - 1 > pos as int {
                        assert(market@[order0[y - 1] as int].price <= market@[order0[pos as int]
                            as int].price);
                    }
                } else if x < pos as int && y > pos as int {
                    assert(order@[x] == order0[x]);
                    assert(order@[y] == order0[y - 1]);
                    assert(x < y - 1 || market@[order0[x] as int].price >= market@[order0[y - 1]
                        as int].price);
                } else if x < pos as int && y < pos as int {
                    assert(order@[x] == order0[x] && order@[y] == order0[y]);
                } else {
                    assert(order@[x] == order0[x - 1] && order@[y] == order0[y - 1]);
                }
            }
        }
        i = i + 1;
    }
    order
}

/// A seeded ledger mirrors its accounts entry by entry, so its sums are
/// the portfolio's sums.
proof fn lemma_seed_sums(
    cs: Seq<CashBalance>,
    aps: Seq<AccountPositions>,
    accs: Seq<Account>,
    m: Seq<Investment>,
)
    requires
        cs.len() == accs.len(),
        aps.len() == accs.len(),
        forall|i: int|
            0 <= i < accs.len() ==> (#[trigger] aps[i]).name@ == accs[i].name@
                && aps[i].positions@ == accs[i].positions@,
        forall|i: int|
            0 <= i < accs.len() ==> (#[trigger] cs[i]).name@ == accs[i].name@ && cs[i].cash
                == accs[i].cash,
    ensures
        sum_cash(cs) == sum_accounts_cash(accs),
        positions_value(aps, m) == accounts_hold_value(accs, m),
        sum_abs_cash(cs) + positions_value(aps, m) == portfolio_gross(accs, m),
    decreases accs.len(),
{
    if accs.len() > 0 {
        lemma_seed_sums(cs.drop_last(), aps.drop_last(), accs.drop_last(), m);
    }
}

/// A seeded ledger holds, in every symbol, exactly what the accounts
/// hold.
proof fn lemma_seed_units(
    aps: Seq<AccountPositions>,
    accs: Seq<Account>,
    sym: Seq<char>,
)
    requires
        aps.len() == accs.len(),
        forall|i: int|
            0 <= i < accs.len() ==> (#[trigger] aps[i]).positions@ == accs[i].positions@,
    ensures
        total_units(aps, sym) == acc_units(accs, sym),
    decreases accs.len(),
{
    if accs.len() > 0 {
        lemma_seed_units(aps.drop_last(), accs.drop_last(), sym);
    }
}

/// The bounds that every ledger operation's preconditions need, derived
/// from the phase invariant.
proof fn lemma_ledger_call_bounds(r: Results, p: Portfolio, name: Seq<char>, sym: Seq<char>)
    requires
        ledger_ok(r, p),
        market_has(p.market@, sym),
        p.ok(),
    ensures
        abs_of(cash_of(r.cash@, name)) <= MAX_MONEY as int,
        0 <= units_of(r.positions@, name, sym) <= MAX_MONEY as int,
        units_of(r.positions@, name, sym) * price_or0(p.market@, sym) <= MAX_MONEY as int,
        0 <= positions_value(r.positions@, p.market@) <= MAX_MONEY as int,
        0 <= sum_abs_cash(r.cash@) <= MAX_MONEY as int,
        1 <= price_or0(p.market@, sym) <= MAX_MONEY as int,
{
    let m = p.market@;
    lemma_cash_of_le_abs(r.cash@, name);
    super::results::lemma_sum_cash_le_abs(r.cash@);
    super::results::lemma_positions_value_nonneg(r.positions@, m);
    lemma_units_of_nonneg(r.positions@, name, sym);
    lemma_units_of_le_total(r.positions@, name, sym);
    super::results::lemma_total_units_nonneg(r.positions@, sym);
    lemma_total_units_price_le(r.positions@, m, sym);
    lemma_price_or0_pos(m, sym);
    let u = units_of(r.positions@, name, sym);
    let t = super::results::total_units(r.positions@, sym);
    let pr = price_or0(m, sym);
    assert(u * pr <= t * pr) by (nonlinear_arith)
        requires
            u <= t,
            pr >= 0,
    ;
    assert(u <= u * pr) by (nonlinear_arith)
        requires
            u >= 0,
            pr >= 1,
    ;
    assert(pr <= MAX_MONEY as int) by {
        let w = choose|w: int| 0 <= w < m.len() && m[w].symbol@ == sym;
        lemma_price_first_bound(m, sym);
    }
}

/// The first matching price is one of the market's prices, so it obeys
/// the market-wide price bound.
proof fn lemma_price_first_bound(m: Seq<Investment>, sym: Seq<char>)
    requires
        forall|k: int|
            0 <= k < m.len() ==> 1 <= (#[trigger] m[k].price as int) <= MAX_MONEY as int,
    ensures
        price_or0(m, sym) <= MAX_MONEY as int,
    decreases m.len(),
{
    if m.len() > 0 && m[0].symbol@ != sym {
        lemma_price_first_bound(m.drop_first(), sym);
    }
}

/// Sells whole shares of every symbol that is overweight by more than one
/// share's worth, tax-sheltered accounts first, skipping accounts that the
/// sale policy protects. Sales move value from positions to cash exactly;
/// a protected account is never touched, and when nothing is overweight
/// the ledger is left as it was.
fn sell_phase(results: &mut Results, p: &Portfolio, order: &Vec<usize>, deltas: &Vec<Needed>)
    requires
        p.ok(),
        ledger_ok(*old(results), *p),
        forall|k: int| 0 <= k < order@.len() ==> (#[trigger] order@[k]) < p.accounts@.len(),
        queue_ok(deltas@, *p),
        forall|k: int, k2: int|
            0 <= k < k2 < deltas@.len() ==> deltas@[k].symbol@ != deltas@[k2].symbol@,
    ensures
        ledger_ok(*final(results), *p),
        ledger_gross(*final(results), p.market@) <= ledger_gross(*old(results), p.market@),
        results_value(*final(results), p.market@) == results_value(*old(results), p.market@),
        forall|s: Seq<char>|
            total_units(final(results).positions@, s) <= total_units(old(results).positions@, s),
        forall|k: int|
            0 <= k < deltas@.len() && ((#[trigger] deltas@[k]).cash_delta as int) < 0 ==> price_or0(
                p.market@,
                deltas@[k].symbol@,
            ) * (total_units(old(results).positions@, deltas@[k].symbol@) - total_units(
                final(results).positions@,
                deltas@[k].symbol@,
            )) <= -(deltas@[k].cash_delta as int),
        forall|a: Seq<char>|
            has_acct(old(results).positions@, a) ==> has_acct(final(results).positions@, a),
        forall|a: Seq<char>|
            has_acct(final(results).positions@, a) ==> has_acct(old(results).positions@, a)
                || account_named(*p, a),
        forall|n: Seq<char>|
            has_cash(old(results).cash@, n) ==> has_cash(final(results).cash@, n),
        forall|n: Seq<char>|
            has_cash(final(results).cash@, n) ==> has_cash(old(results).cash@, n)
                || account_named(*p, n),
        forall|n: Seq<char>|
            cash_of(final(results).cash@, n) >= cash_of(old(results).cash@, n),
        forall|a: Seq<char>, s: Seq<char>|
            units_of(final(results).positions@, a, s) <= units_of(old(results).positions@, a, s),
        forall|i: int, s: Seq<char>|
            0 <= i < p.accounts@.len() && sale_protected(*p, p.accounts@[i]) ==> units_of(
                final(results).positions@,
                p.accounts@[i].name@,
                s,
            ) == units_of(old(results).positions@, p.accounts@[i].name@, s),
        forall|i: int|
            0 <= i < p.accounts@.len() && sale_protected(*p, p.accounts@[i]) ==> cash_of(
                final(results).cash@,
                p.accounts@[i].name@,
            ) == cash_of(old(results).cash@, p.accounts@[i].name@),
        (forall|k: int|
            0 <= k < deltas@.len() ==> (#[trigger] deltas@[k]).cash_delta as int >= -price_or0(
                p.market@,
                deltas@[k].symbol@,
            )) ==> ((forall|n: Seq<char>|
            cash_of(final(results).cash@, n) == cash_of(old(results).cash@, n)) && (forall|
            a: Seq<char>,
            s: Seq<char>,
        |
            units_of(final(results).positions@, a, s) == units_of(old(results).positions@, a, s))),
        final(results).allocations@ == old(results).allocations@,
        final(results).total_cash == old(results).total_cash,
{
    let can_taxed = p.can_sell_taxed();
    let mut di: usize = 0;
    while di < deltas.len()
        invariant
            di <= deltas@.len(),
            p.ok(),
            queue_ok(deltas@, *p),
            forall|k: int| 0 <= k < order@.len() ==> (#[trigger] order@[k]) < p.accounts@.len(),
            can_taxed == p.spec_can_sell_taxed(),
            ledger_ok(*results, *p),
            ledger_gross(*results, p.market@) <= ledger_gross(*old(results), p.market@),
            results_value(*results, p.market@) == results_value(*old(results), p.market@),
            forall|k: int, k2: int|
                0 <= k < k2 < deltas@.len() ==> deltas@[k].symbol@ != deltas@[k2].symbol@,
            forall|s: Seq<char>|
                total_units(results.positions@, s) <= total_units(old(results).positions@, s),
            forall|k: int|
                0 <= k < di && ((#[trigger] deltas@[k]).cash_delta as int) < 0 ==> price_or0(
                    p.market@,
                    deltas@[k].symbol@,
                ) * (total_units(old(results).positions@, deltas@[k].symbol@) - total_units(
                    results.positions@,
                    deltas@[k].symbol@,
                )) <= -(deltas@[k].cash_delta as int),
            forall|k: int|
                di <= k < deltas@.len() ==> total_units(
                    results.positions@,
                    (#[trigger] deltas@[k]).symbol@,
                ) == total_units(old(results).positions@, deltas@[k].symbol@),
            forall|a: Seq<char>|
                has_acct(old(results).positions@, a) ==> has_acct(results.positions@, a),
            forall|a: Seq<char>|
                has_acct(results.positions@, a) ==> has_acct(old(results).positions@, a)
                    || account_named(*p, a),
            forall|n: Seq<char>|
                has_cash(old(results).cash@, n) ==> has_cash(results.cash@, n),
            forall|n: Seq<char>|
                has_cash(results.cash@, n) ==> has_cash(old(results).cash@, n) || account_named(
                    *p,
                    n,
                ),
            forall|n: Seq<char>| cash_of(results.cash@, n) >= cash_of(old(results).cash@, n),
            forall|a: Seq<char>, s: Seq<char>|
                units_of(results.positions@, a, s) <= units_of(old(results).positions@, a, s),
            forall|i: int, s: Seq<char>|
                0 <= i < p.accounts@.len() && sale_protected(*p, p.accounts@[i]) ==> units_of(
                    results.positions@,
                    p.accounts@[i].name@,
                    s,
                ) == units_of(old(results).positions@, p.accounts@[i].name@, s),
            forall|i: int|
                0 <= i < p.accounts@.len() && sale_protected(*p, p.accounts@[i]) ==> cash_of(
                    results.cash@,
                    p.accounts@[i].name@,
                ) == cash_of(old(results).cash@, p.accounts@[i].name@),
            (forall|k: int|
                0 <= k < deltas@.len() ==> (#[trigger] deltas@[k]).cash_delta as int
                    >= -price_or0(p.market@, deltas@[k].symbol@)) ==> ((forall|n: Seq<char>|
                cash_of(results.cash@, n) == cash_of(old(results).cash@, n)) && (forall|
                a: Seq<char>,
                s: Seq<char>,
            |
                units_of(results.positions@, a, s) == units_of(old(results).positions@, a, s))),
            results.allocations@ == old(results).allocations@,
            results.total_cash == old(results).total_cash,
        decreases deltas@.len() - di,
    {
        let d = &deltas[di];
        let ghost sym = d.symbol@;
        proof {
            assert(needed_ok(deltas@[di as int], *p));
        }
        let price: u64 = match find_inv_idx(&p.market, d.symbol.as_str()) {
            Option::Some(x) => {
                proof {
                    lemma_price_or0_first(p.market@, x as int, sym);
                }
                p.market[x].price
            }
            Option::None => {
                proof {
                    lemma_price_or0_absent(p.market@, sym);
                    assert(false);
                }
                0
            }
        };
        let mut remaining: i64 = d.cash_delta;
        if remaining >= -(price as i64) {
            di = di + 1;
            continue;
        }
        let mut ai: usize = 0;
        while ai < order.len()
            invariant
                ai <= order@.len(),
                di < deltas@.len(),
                p.ok(),
                queue_ok(deltas@, *p),
                forall|k: int|
                    0 <= k < order@.len() ==> (#[trigger] order@[k]) < p.accounts@.len(),
                can_taxed == p.spec_can_sell_taxed(),
                sym == deltas@[di as int].symbol@,
                d.symbol@ == sym,
                price as int == price_or0(p.market@, sym),
                1 <= price as int <= MAX_MONEY as int,
                market_has(p.market@, sym),
                (deltas@[di as int].cash_delta as int) < -(price as int),
                -(3 * MAX_MONEY as int) <= remaining as int && remaining as int <= 0,
                ledger_ok(*results, *p),
                ledger_gross(*results, p.market@) <= ledger_gross(*old(results), p.market@),
                results_value(*results, p.market@) == results_value(*old(results), p.market@),
                forall|k: int, k2: int|
                    0 <= k < k2 < deltas@.len() ==> deltas@[k].symbol@ != deltas@[k2].symbol@,
                forall|s: Seq<char>|
                    total_units(results.positions@, s) <= total_units(
                        old(results).positions@,
                        s,
                    ),
                price as int * (total_units(old(results).positions@, sym) - total_units(
                    results.positions@,
                    sym,
                )) == remaining as int - deltas@[di as int].cash_delta as int,
                forall|k: int|
                    0 <= k < di && ((#[trigger] deltas@[k]).cash_delta as int) < 0 ==> price_or0(
                        p.market@,
                        deltas@[k].symbol@,
                    ) * (total_units(old(results).positions@, deltas@[k].symbol@) - total_units(
                        results.positions@,
                        deltas@[k].symbol@,
                    )) <= -(deltas@[k].cash_delta as int),
                forall|k: int|
                    di < k < deltas@.len() ==> total_units(
                        results.positions@,
                        (#[trigger] deltas@[k]).symbol@,
                    ) == total_units(old(results).positions@, deltas@[k].symbol@),
                forall|a: Seq<char>|
                    has_acct(old(results).positions@, a) ==> has_acct(results.positions@, a),
                forall|a: Seq<char>|
                    has_acct(results.positions@, a) ==> has_acct(old(results).positions@, a)
                        || account_named(*p, a),
                forall|n: Seq<char>|
                    has_cash(old(results).cash@, n) ==> has_cash(results.cash@, n),
                forall|n: Seq<char>|
                    has_cash(results.cash@, n) ==> has_cash(old(results).cash@, n) || account_named(
                        *p,
                        n,
                    ),
                forall|n: Seq<char>| cash_of(results.cash@, n) >= cash_of(old(results).cash@, n),
                forall|a: Seq<char>, s: Seq<char>|
                    units_of(results.positions@, a, s) <= units_of(old(results).positions@, a, s),
                forall|i: int, s: Seq<char>|
                    0 <= i < p.accounts@.len() && sale_protected(*p, p.accounts@[i]) ==> units_of(
                        results.positions@,
                        p.accounts@[i].name@,
                        s,
                    ) == units_of(old(results).positions@, p.accounts@[i].name@, s),
                forall|i: int|
                    0 <= i < p.accounts@.len() && sale_protected(*p, p.accounts@[i]) ==> cash_of(
                        results.cash@,
                        p.accounts@[i].name@,
                    ) == cash_of(old(results).cash@, p.accounts@[i].name@),
                results.allocations@ == old(results).allocations@,
                results.total_cash == old(results).total_cash,
            decreases order@.len() - ai,
        {
            let idx = order[ai];
            let acct = &p.accounts[idx];
            if !acct.tax_sheltered && !can_taxed {
                ai = ai + 1;
                continue;
            }
            if names_contain(&p.no_sale_accounts, acct.name.as_str()) {
                ai = ai + 1;
                continue;
            }
            let ghost name = acct.name@;
            proof {
                assert(!sale_protected(*p, p.accounts@[idx as int]));
                lemma_ledger_call_bounds(*results, *p, name, sym);
            }
            let ghost r_before = *results;
            let acct_shares: u64 = results.transact(acct.name.as_str(), d.symbol.as_str(), 0);
            proof {
                lemma_units_of_nonneg(r_before.positions@, name, sym);
                // A zero change reads the position and leaves every sum
                // as it was.
                assert(units_of(results.positions@, name, sym) == units_of(
                    r_before.positions@,
                    name,
                    sym,
                ));
                assert forall|a: Seq<char>, s: Seq<char>| units_of(results.positions@, a, s)
                    == units_of(r_before.positions@, a, s) by {}
                assert forall|m2: Seq<Investment>| #[trigger] positions_value(
                    results.positions@,
                    m2,
                ) == positions_value(r_before.positions@, m2) by {}
                assert(ledger_gross(*results, p.market@) == ledger_gross(r_before, p.market@));
                assert(results_value(*results, p.market@) == results_value(r_before, p.market@));
                assert forall|s: Seq<char>| ledger_holds(results.positions@, s) implies market_has(
                    p.market@,
                    s,
                ) by {
                    assert(ledger_holds(r_before.positions@, s) || s == sym);
                }
                assert(ledger_ok(*results, *p));
                assert(account_named(*p, name)) by {
                    assert(p.accounts@[idx as int].name@ == name);
                }
                assert forall|a: Seq<char>| has_acct(results.positions@, a) implies has_acct(
                    old(results).positions@,
                    a,
                ) || account_named(*p, a) by {}
            }
            let floor_shares: u64 = ((-remaining) as u64) / price;
            let to_sell: u64 = if acct_shares < floor_shares {
                acct_shares
            } else {
                floor_shares
            };
            if to_sell < 1 {
                ai = ai + 1;
                continue;
            }
            proof {
                lemma_ledger_call_bounds(*results, *p, name, sym);
                let u = units_of(results.positions@, name, sym);
                assert(acct_shares as int == u);
                assert(to_sell as int * price as int <= u * price as int) by (nonlinear_arith)
                    requires
                        to_sell as int <= u,
                        price as int >= 0,
                ;
                vstd::arithmetic::div_mod::lemma_fundamental_div_mod(
                    (-remaining) as int,
                    price as int,
                );
                vstd::arithmetic::div_mod::lemma_mod_bound((-remaining) as int, price as int);
                assert(to_sell as int * price as int <= floor_shares as int * price as int)
                    by (nonlinear_arith)
                    requires
                        to_sell as int <= floor_shares as int,
                        price as int >= 0,
                ;
                assert(floor_shares as int * price as int <= (-remaining) as int) by {
                    assert(price as int * floor_shares as int == (-remaining) as int - (
                    (-remaining) as int % price as int));
                    assert(price as int * floor_shares as int == floor_shares as int * price
                        as int) by (nonlinear_arith);
                }
            }
            proof {
                assert(price as int * (-(to_sell as int)) == -(to_sell as int * price as int))
                    by (nonlinear_arith);
                assert(0 <= to_sell as int * price as int) by (nonlinear_arith)
                    requires
                        to_sell as int >= 0,
                        price as int >= 0,
                ;
            }
            let ghost r_pre = *results;
            let sell_res = results.buy_maybe(
                acct.name.as_str(),
                d.symbol.as_str(),
                price,
                -(to_sell as i64),
            );
            match sell_res {
                Option::Some(_) => {
                    let gross: i64 = (to_sell as i64) * (price as i64);
                    proof {
                        let g = -(to_sell as int) * price as int;
                        let c = cash_of(r_pre.cash@, name);
                        let u = units_of(r_pre.positions@, name, sym);
                        assert(price as int * -(to_sell as int) == -(to_sell as int) * price
                            as int) by (nonlinear_arith);
                        assert(clamp0(u + -(to_sell as int)) == u - to_sell as int);
                        // Value moves exactly from the position to cash.
                        assert(price as int * ((u - to_sell as int) - u) == g)
                            by (nonlinear_arith)
                            requires
                                g == -(to_sell as int) * price as int,
                        ;
                        assert(results_value(*results, p.market@) == results_value(
                            r_pre,
                            p.market@,
                        ));
                        assert(abs_of(c - g) + g <= abs_of(c));
                        assert(ledger_gross(*results, p.market@) <= ledger_gross(
                            r_pre,
                            p.market@,
                        ));
                        assert forall|s: Seq<char>| ledger_holds(results.positions@, s) implies
                            market_has(p.market@, s) by {
                            assert(ledger_holds(r_pre.positions@, s) || s == sym);
                        }
                        // Only this unprotected account changed, cash up,
                        // position down.
                        assert forall|n: Seq<char>| cash_of(results.cash@, n) >= cash_of(
                            r_pre.cash@,
                            n,
                        ) by {
                            if n == name {
                                assert(cash_of(results.cash@, n) == c - (price as int * -(to_sell
                                    as int)));
                            }
                        }
                        assert forall|a: Seq<char>, s: Seq<char>| units_of(
                            results.positions@,
                            a,
                            s,
                        ) <= units_of(r_pre.positions@, a, s) by {}
                        assert forall|i: int, s: Seq<char>|
                            0 <= i < p.accounts@.len() && sale_protected(
                                *p,
                                p.accounts@[i],
                            ) implies units_of(results.positions@, p.accounts@[i].name@, s)
                            == units_of(r_pre.positions@, p.accounts@[i].name@, s) by {
                            if i != idx as int {
                                assert(p.accounts@[i].name@ != name);
                            }
                        }
                        assert forall|i: int|
                            0 <= i < p.accounts@.len() && sale_protected(
                                *p,
                                p.accounts@[i],
                            ) implies cash_of(results.cash@, p.accounts@[i].name@) == cash_of(
                            r_pre.cash@,
                            p.accounts@[i].name@,
                        ) by {
                            if i != idx as int {
                                assert(p.accounts@[i].name@ != name);
                            }
                        }
                        assert forall|a: Seq<char>| has_acct(results.positions@, a) implies
                            has_acct(old(results).positions@, a) || account_named(*p, a) by {}
                        assert forall|n: Seq<char>| has_cash(results.cash@, n) implies has_cash(
                            old(results).cash@,
                            n,
                        ) || account_named(*p, n) by {}
                        // The running total of value sold in this symbol
                        // grows by exactly this sale's gross amount.
                        let sold_before = total_units(old(results).positions@, sym) - total_units(
                            r_pre.positions@,
                            sym,
                        );
                        assert(total_units(results.positions@, sym) == total_units(
                            r_pre.positions@,
                            sym,
                        ) - to_sell as int);
                        assert(price as int * (sold_before + to_sell as int) == price as int
                            * sold_before + price as int * (to_sell as int)) by (nonlinear_arith);
                        assert(price as int * (to_sell as int) == to_sell as int * price as int)
                            by (nonlinear_arith);
                    }
                    remaining = remaining + gross;
                }
                Option::None => {},
            }
            ai = ai + 1;
        }
        proof {
            assert(!(forall|k: int|
                0 <= k < deltas@.len() ==> (#[trigger] deltas@[k]).cash_delta as int
                    >= -price_or0(p.market@, deltas@[k].symbol@))) by {
                assert((deltas@[di as int].cash_delta as int) < -price_or0(
                    p.market@,
                    deltas@[di as int].symbol@,
                ));
            }
        }
        di = di + 1;
    }
}

/// Tries to buy exactly one share of `symbol` in each listed account in
/// turn, stopping at the first account whose cash covers the price.
/// `only_sheltered` restricts the attempt to tax-sheltered accounts;
/// `skip_sheltered` leaves them out (they were already tried).
fn try_accounts(
    results: &mut Results,
    p: &Portfolio,
    list: &Vec<usize>,
    symbol: &str,
    price: u64,
    only_sheltered: bool,
    skip_sheltered: bool,
) -> (r: bool)
    requires
        p.ok(),
        ledger_ok(*old(results), *p),
        forall|k: int| 0 <= k < list@.len() ==> (#[trigger] list@[k]) < p.accounts@.len(),
        market_has(p.market@, symbol@),
        price as int == price_or0(p.market@, symbol@),
        1 <= price as int <= MAX_MONEY as int,
    ensures
        ledger_ok(*final(results), *p),
        ledger_gross(*final(results), p.market@) <= ledger_gross(*old(results), p.market@),
        results_value(*final(results), p.market@) == results_value(*old(results), p.market@),
        final(results).allocations@ == old(results).allocations@,
        final(results).total_cash == old(results).total_cash,
        forall|n: Seq<char>|
            cash_of(final(results).cash@, n) >= 0 || cash_of(final(results).cash@, n) == cash_of(
                old(results).cash@,
                n,
            ),
        forall|n: Seq<char>|
            cash_of(final(results).cash@, n) <= cash_of(old(results).cash@, n),
        forall|a: Seq<char>, s: Seq<char>|
            units_of(final(results).positions@, a, s) >= units_of(old(results).positions@, a, s),
        forall|a: Seq<char>, s: Seq<char>|
            s != symbol@ ==> units_of(final(results).positions@, a, s) == units_of(
                old(results).positions@,
                a,
                s,
            ),
        !r ==> (forall|n: Seq<char>|
            cash_of(final(results).cash@, n) == cash_of(old(results).cash@, n)) && (forall|
            a: Seq<char>,
            s: Seq<char>,
        |
            units_of(final(results).positions@, a, s) == units_of(old(results).positions@, a, s))
            && sum_cash(final(results).cash@) == sum_cash(old(results).cash@) && sum_abs_cash(
            final(results).cash@,
        ) == sum_abs_cash(old(results).cash@),
        !r ==> (forall|k: int|
            0 <= k < list@.len() && ((!only_sheltered || p.accounts@[list@[k] as int].tax_sheltered)
                && (!skip_sheltered || !p.accounts@[list@[k] as int].tax_sheltered)) ==> cash_of(
                old(results).cash@,
                (#[trigger] p.accounts@[list@[k] as int]).name@,
            ) < price as int),
        r ==> sum_abs_cash(final(results).cash@) + sum_cash(final(results).cash@) <= sum_abs_cash(
            old(results).cash@,
        ) + sum_cash(old(results).cash@) - 2,
        r ==> exists|k: int|
            0 <= k < list@.len() && cash_of(
                old(results).cash@,
                (#[trigger] p.accounts@[list@[k] as int]).name@,
            ) >= price as int,
        forall|a: Seq<char>|
            has_acct(old(results).positions@, a) ==> has_acct(final(results).positions@, a),
        forall|a: Seq<char>|
            has_acct(final(results).positions@, a) ==> has_acct(old(results).positions@, a)
                || account_named(*p, a),
        forall|n: Seq<char>|
            has_cash(old(results).cash@, n) ==> has_cash(final(results).cash@, n),
        forall|n: Seq<char>|
            has_cash(final(results).cash@, n) ==> has_cash(old(results).cash@, n)
                || account_named(*p, n),
        total_units(final(results).positions@, symbol@) == total_units(
            old(results).positions@,
            symbol@,
        ) + (if r {
            1int
        } else {
            0int
        }),
        forall|s: Seq<char>|
            s != symbol@ ==> total_units(final(results).positions@, s) == total_units(
                old(results).positions@,
                s,
            ),
{
    let ghost sym = symbol@;
    let mut ai: usize = 0;
    while ai < list.len()
        invariant
            ai <= list@.len(),
            p.ok(),
            forall|k: int| 0 <= k < list@.len() ==> (#[trigger] list@[k]) < p.accounts@.len(),
            market_has(p.market@, sym),
            symbol@ == sym,
            price as int == price_or0(p.market@, sym),
            1 <= price as int <= MAX_MONEY as int,
            ledger_ok(*results, *p),
            results.positions@ == old(results).positions@,
            forall|n: Seq<char>|
                has_cash(old(results).cash@, n) ==> has_cash(results.cash@, n),
            forall|n: Seq<char>|
                has_cash(results.cash@, n) ==> has_cash(old(results).cash@, n) || account_named(
                    *p,
                    n,
                ),
            forall|n: Seq<char>| cash_of(results.cash@, n) == cash_of(old(results).cash@, n),
            sum_cash(results.cash@) == sum_cash(old(results).cash@),
            sum_abs_cash(results.cash@) == sum_abs_cash(old(results).cash@),
            results.allocations@ == old(results).allocations@,
            results.total_cash == old(results).total_cash,
            forall|k: int|
                0 <= k < ai && ((!only_sheltered || p.accounts@[list@[k] as int].tax_sheltered) && (
                !skip_sheltered || !p.accounts@[list@[k] as int].tax_sheltered)) ==> cash_of(
                    old(results).cash@,
                    (#[trigger] p.accounts@[list@[k] as int]).name@,
                ) < price as int,
        decreases list@.len() - ai,
    {
        let idx = list[ai];
        let acct = &p.accounts[idx];
        if only_sheltered && !acct.tax_sheltered {
            ai = ai + 1;
            continue;
        }
        if skip_sheltered && acct.tax_sheltered {
            ai = ai + 1;
            continue;
        }
        let ghost name = acct.name@;
        proof {
            lemma_ledger_call_bounds(*results, *p, name, sym);
            lemma_units_of_nonneg(results.positions@, name, sym);
        }
        let ghost r_pre = *results;
        match results.buy_maybe(acct.name.as_str(), symbol, price, 1) {
            Option::Some(_) => {
                proof {
                    let c = cash_of(r_pre.cash@, name);
                    let u = units_of(r_pre.positions@, name, sym);
                    assert(clamp0(u + 1) == u + 1);
                    assert(price_or0(p.market@, sym) * ((u + 1) - u) == price as int)
                        by (nonlinear_arith)
                        requires
                            price_or0(p.market@, sym) == price as int,
                    ;
                    assert(results_value(*results, p.market@) == results_value(r_pre, p.market@));
                    assert(ledger_gross(*results, p.market@) <= ledger_gross(r_pre, p.market@));
                    assert forall|s: Seq<char>|
                        ledger_holds(results.positions@, s) implies market_has(p.market@, s) by {
                        assert(ledger_holds(r_pre.positions@, s) || s == sym);
                    }
                    assert(cash_of(results.cash@, name) == c - price);
                    assert forall|n: Seq<char>|
                        cash_of(results.cash@, n) >= 0 || cash_of(results.cash@, n) == cash_of(
                            old(results).cash@,
                            n,
                        ) by {}
                    assert forall|a: Seq<char>, s: Seq<char>| units_of(
                        results.positions@,
                        a,
                        s,
                    ) >= units_of(old(results).positions@, a, s) by {}
                    assert(cash_of(old(results).cash@, p.accounts@[list@[ai as int] as int].name@)
                        >= price as int);
                    assert(account_named(*p, name)) by {
                        assert(p.accounts@[idx as int].name@ == name);
                    }
                    assert forall|a: Seq<char>|
                        has_acct(results.positions@, a) implies has_acct(
                        old(results).positions@,
                        a,
                    ) || account_named(*p, a) by {}
                    assert forall|n: Seq<char>|
                        has_cash(results.cash@, n) implies has_cash(old(results).cash@, n)
                        || account_named(*p, n) by {}
                }
                return true;
            }
            Option::None => {
                proof {
                    assert(cash_of(r_pre.cash@, name) < price as int);
                    assert forall|n: Seq<char>| cash_of(results.cash@, n) == cash_of(
                        r_pre.cash@,
                        n,
                    ) by {}
                    assert(account_named(*p, name)) by {
                        assert(p.accounts@[idx as int].name@ == name);
                    }
                    assert forall|n: Seq<char>|
                        has_cash(results.cash@, n) implies has_cash(old(results).cash@, n)
                        || account_named(*p, n) by {}
                }
            }
        }
        ai = ai + 1;
    }
    false
}

/// The dividend yields of all market entries that carry one, in ppm.
fn collect_yields(market: &Vec<Investment>) -> (r: Vec<u64>)
    requires
        forall|i: int|
            0 <= i < market@.len() ==> yield_or0(#[trigger] market@[i].div_yield) <= super::MAX_PPM
                as int,
    ensures
        forall|k: int| 0 <= k < r@.len() ==> (#[trigger] r@[k]) as int <= super::MAX_PPM as int,
{
    let mut r: Vec<u64> = Vec::new();
    let mut i: usize = 0;
    while i < market.len()
        invariant
            i <= market@.len(),
            forall|x: int|
                0 <= x < market@.len() ==> yield_or0(#[trigger] market@[x].div_yield)
                    <= super::MAX_PPM as int,
            forall|k: int|
                0 <= k < r@.len() ==> (#[trigger] r@[k]) as int <= super::MAX_PPM as int,
        decreases market@.len() - i,
    {
        match market[i].div_yield {
            Option::Some(y) => {
                proof {
                    assert(yield_or0(market@[i as int].div_yield) <= super::MAX_PPM as int);
                }
                r.push(y);
            }
            Option::None => {},
        }
        i = i + 1;
    }
    r
}

/// Sorts the yields ascending (insertion sort), so that the middle of the
/// list is the median.
fn sort_yields(v: &Vec<u64>) -> (r: Vec<u64>)
    requires
        forall|k: int| 0 <= k < v@.len() ==> (#[trigger] v@[k]) as int <= super::MAX_PPM as int,
    ensures
        r@.len() == v@.len(),
        forall|k: int| 0 <= k < r@.len() ==> (#[trigger] r@[k]) as int <= super::MAX_PPM as int,
        forall|x: int, y: int| 0 <= x < y < r@.len() ==> r@[x] <= r@[y],
{
    let mut r: Vec<u64> = Vec::new();
    let mut i: usize = 0;
    while i < v.len()
        invariant
            i <= v@.len(),
            r@.len() == i,
            forall|k: int| 0 <= k < v@.len() ==> (#[trigger] v@[k]) as int <= super::MAX_PPM as int,
            forall|k: int| 0 <= k < r@.len() ==> (#[trigger] r@[k]) as int <= super::MAX_PPM as int,
            forall|x: int, y: int| 0 <= x < y < r@.len() ==> r@[x] <= r@[y],
        decreases v@.len() - i,
    {
        let val = v[i];
        let mut pos: usize = 0;
        while pos < r.len() && r[pos] <= val
            invariant
                pos <= r@.len(),
                forall|x: int| 0 <= x < pos ==> r@[x] <= val,
            decreases r@.len() - pos,
        {
            pos = pos + 1;
        }
        let ghost r0 = r@;
        r.insert(pos, val);
        proof {
            r0.insert_ensures(pos as int, val);
            assert forall|x: int, y: int| 0 <= x < y < r@.len() implies r@[x] <= r@[y] by {
                if y == pos as int {
                    assert(r@[x] == r0[x]);
                } else if x == pos as int {
                    assert(r@[y] == r0[y - 1]);
                    assert(pos < r0.len());
                    assert(r0[pos as int] > val);
                    if y - 1 > pos as int {
                        assert(r0[pos as int] <= r0[y - 1]);
                    }
                } else if x < pos as int && y > pos as int {
                    assert(r@[x] == r0[x] && r@[y] == r0[y - 1]);
                    assert(x < y - 1 || r0[x] <= r0[y - 1]);
                } else if y < pos as int {
                    assert(r@[x] == r0[x] && r@[y] == r0[y]);
                } else {
                    assert(r@[x] == r0[x - 1] && r@[y] == r0[y - 1]);
                }
            }
        }
        i = i + 1;
    }
    r
}

/// The need-prioritized buy phase: repeatedly serves the most relatively
/// underweight symbol one whole share at a time, placing high-yield
/// symbols into tax-sheltered accounts first, until every need is met or
/// no account can pay. Buys move value from cash to positions exactly,
/// never drive cash negative, and never touch the ledger when no symbol
/// needs buying.
fn buy_phase(
    results: &mut Results,
    p: &Portfolio,
    order: &Vec<usize>,
    deltas: &Vec<Needed>,
    total_value: i64,
)
    requires
        p.ok(),
        ledger_ok(*old(results), *p),
        forall|k: int| 0 <= k < order@.len() ==> (#[trigger] order@[k]) < p.accounts@.len(),
        queue_ok(deltas@, *p),
        total_value as int == portfolio_value(*p),
        abs_of(total_value as int) <= MAX_MONEY as int,
    ensures
        ledger_ok(*final(results), *p),
        ledger_gross(*final(results), p.market@) <= ledger_gross(*old(results), p.market@),
        results_value(*final(results), p.market@) == results_value(*old(results), p.market@),
        forall|a: Seq<char>|
            has_acct(old(results).positions@, a) ==> has_acct(final(results).positions@, a),
        forall|a: Seq<char>|
            has_acct(final(results).positions@, a) ==> has_acct(old(results).positions@, a)
                || account_named(*p, a),
        forall|n: Seq<char>|
            has_cash(old(results).cash@, n) ==> has_cash(final(results).cash@, n),
        forall|n: Seq<char>|
            has_cash(final(results).cash@, n) ==> has_cash(old(results).cash@, n)
                || account_named(*p, n),
        forall|n: Seq<char>|
            cash_of(final(results).cash@, n) >= 0 || cash_of(final(results).cash@, n) == cash_of(
                old(results).cash@,
                n,
            ),
        forall|a: Seq<char>, s: Seq<char>|
            units_of(final(results).positions@, a, s) >= units_of(old(results).positions@, a, s),
        forall|s: Seq<char>|
            total_units(final(results).positions@, s) >= total_units(old(results).positions@, s),
        (forall|k: int|
            0 <= k < deltas@.len() ==> (#[trigger] deltas@[k]).cash_delta as int <= 0) ==> ((forall|
            n: Seq<char>,
        |
            cash_of(final(results).cash@, n) == cash_of(old(results).cash@, n)) && (forall|
            a: Seq<char>,
            s: Seq<char>,
        |
            units_of(final(results).positions@, a, s) == units_of(old(results).positions@, a, s))),
        final(results).allocations@ == old(results).allocations@,
        final(results).total_cash == old(results).total_cash,
{
    let raw_yields = collect_yields(&p.market);
    let ys = sort_yields(&raw_yields);
    let taxable_first = reverse_order(order, Ghost(p.accounts@.len() as int));
    let mut queue: Vec<Needed> = Vec::new();
    let mut qi: usize = 0;
    while qi < deltas.len()
        invariant
            qi <= deltas@.len(),
            queue_ok(deltas@, *p),
            queue@.len() == qi,
            forall|k: int|
                0 <= k < qi ==> (#[trigger] queue@[k]).symbol@ == deltas@[k].symbol@
                    && queue@[k].cash_delta == deltas@[k].cash_delta && queue@[k].alloc
                    == deltas@[k].alloc,
            queue_ok(queue@, *p),
        decreases deltas@.len() - qi,
    {
        let d = &deltas[qi];
        proof {
            assert(needed_ok(deltas@[qi as int], *p));
        }
        queue.push(
            Needed {
                symbol: d.symbol.clone(),
                cash_delta: d.cash_delta,
                alloc: d.alloc,
                ord: d.ord,
            },
        );
        qi = qi + 1;
    }
    let ghost buy_hyp = forall|k: int|
        0 <= k < deltas@.len() ==> (#[trigger] deltas@[k]).cash_delta as int <= 0;
    while queue.len() > 0
        invariant
            p.ok(),
            forall|k: int| 0 <= k < order@.len() ==> (#[trigger] order@[k]) < p.accounts@.len(),
            forall|k: int|
                0 <= k < taxable_first@.len() ==> (#[trigger] taxable_first@[k])
                    < p.accounts@.len(),
            total_value as int == portfolio_value(*p),
            abs_of(total_value as int) <= MAX_MONEY as int,
            forall|k: int| 0 <= k < ys@.len() ==> (#[trigger] ys@[k]) as int <= super::MAX_PPM
                as int,
            queue_ok(queue@, *p),
            ledger_ok(*results, *p),
            ledger_gross(*results, p.market@) <= ledger_gross(*old(results), p.market@),
            results_value(*results, p.market@) == results_value(*old(results), p.market@),
            forall|a: Seq<char>|
                has_acct(old(results).positions@, a) ==> has_acct(results.positions@, a),
            forall|a: Seq<char>|
                has_acct(results.positions@, a) ==> has_acct(old(results).positions@, a)
                    || account_named(*p, a),
            forall|n: Seq<char>|
                has_cash(old(results).cash@, n) ==> has_cash(results.cash@, n),
            forall|n: Seq<char>|
                has_cash(results.cash@, n) ==> has_cash(old(results).cash@, n) || account_named(
                    *p,
                    n,
                ),
            forall|n: Seq<char>|
                cash_of(results.cash@, n) >= 0 || cash_of(results.cash@, n) == cash_of(
                    old(results).cash@,
                    n,
                ),
            forall|a: Seq<char>, s: Seq<char>|
                units_of(results.positions@, a, s) >= units_of(old(results).positions@, a, s),
            forall|s: Seq<char>|
                total_units(results.positions@, s) >= total_units(old(results).positions@, s),
            buy_hyp == (forall|k: int|
                0 <= k < deltas@.len() ==> (#[trigger] deltas@[k]).cash_delta as int <= 0),
            buy_hyp ==> (forall|k: int|
                0 <= k < queue@.len() ==> (#[trigger] queue@[k]).cash_delta as int <= 0),
            buy_hyp ==> ((forall|n: Seq<char>|
                cash_of(results.cash@, n) == cash_of(old(results).cash@, n)) && (forall|
                a: Seq<char>,
                s: Seq<char>,
            |
                units_of(results.positions@, a, s) == units_of(old(results).positions@, a, s))),
            results.allocations@ == old(results).allocations@,
            results.total_cash == old(results).total_cash,
        decreases sum_need(queue@) + queue@.len(),
    {
        proof {
            lemma_sum_need_nonneg(queue@);
        }
        let best = pick_best(&queue, p);
        let ghost q0 = queue@;
        let next = queue.remove(best);
        proof {
            lemma_sum_need_remove(q0, best as int);
            lemma_sum_need_nonneg(queue@);
            assert(needed_ok(q0[best as int], *p));
            assert forall|k: int| 0 <= k < queue@.len() implies #[trigger] needed_ok(
                queue@[k],
                *p,
            ) by {
                if k < best {
                    assert(queue@[k] == q0[k]);
                } else {
                    assert(queue@[k] == q0[k + 1]);
                }
            }
            if buy_hyp {
                assert forall|k: int|
                    0 <= k < queue@.len() implies (#[trigger] queue@[k]).cash_delta as int
                    <= 0 by {
                    if k < best {
                        assert(queue@[k] == q0[k]);
                    } else {
                        assert(queue@[k] == q0[k + 1]);
                    }
                }
            }
        }
        let ghost sym = next.symbol@;
        if next.cash_delta <= 0 {
            continue;
        }
        proof {
            if buy_hyp {
                assert(q0[best as int].cash_delta as int <= 0);
                assert(false);
            }
        }
        let price: u64 = match find_inv_idx(&p.market, next.symbol.as_str()) {
            Option::Some(x) => {
                proof {
                    lemma_price_or0_first(p.market@, x as int, sym);
                }
                p.market[x].price
            }
            Option::None => {
                proof {
                    lemma_price_or0_absent(p.market@, sym);
                    assert(false);
                }
                0
            }
        };
        // A symbol is high-yield when its dividend yield exceeds the
        // median yield of the market entries that report one.
        let is_hy: bool = if ys.len() > 0 {
            let y: u64 = match find_inv_idx(&p.market, next.symbol.as_str()) {
                Option::Some(x) => {
                    proof {
                        assert(yield_or0(p.market@[x as int].div_yield) <= super::MAX_PPM as int);
                    }
                    match p.market[x].div_yield {
                        Option::Some(v) => v,
                        Option::None => 0,
                    }
                }
                Option::None => 0,
            };
            let lo = ys[(ys.len() - 1) / 2];
            let hi = ys[ys.len() / 2];
            2 * y > lo + hi
        } else {
            false
        };
        let ghost r_pre = *results;
        let mut bought = false;
        if is_hy {
            bought = try_accounts(results, p, order, next.symbol.as_str(), price, true, false);
        }
        if !bought {
            bought = try_accounts(
                results,
                p,
                &taxable_first,
                next.symbol.as_str(),
                price,
                false,
                is_hy,
            );
        }
        proof {
            assert forall|n: Seq<char>|
                cash_of(results.cash@, n) >= 0 || cash_of(results.cash@, n) == cash_of(
                    old(results).cash@,
                    n,
                ) by {
                if cash_of(results.cash@, n) < 0 {
                    assert(cash_of(results.cash@, n) == cash_of(r_pre.cash@, n));
                }
            }
        }
        if bought {
            let new_needed: i64 = next.cash_delta - (price as i64);
            if new_needed > 0 {
                let fresh = Needed::new(next.symbol.as_str(), new_needed, p, total_value, next.ord);
                let ghost q1 = queue@;
                let ghost gfresh = fresh;
                queue.push(fresh);
                proof {
                    lemma_sum_need_push(q1, gfresh);
                    assert(needed_ok(gfresh, *p));
                    assert forall|k: int| 0 <= k < queue@.len() implies #[trigger] needed_ok(
                        queue@[k],
                        *p,
                    ) by {
                        if k < q1.len() {
                            assert(queue@[k] == q1[k]);
                        }
                    }
                }
            }
        }
    }
}

/// The indices of all accounts, in portfolio order.
fn identity_order(n: usize) -> (r: Vec<usize>)
    ensures
        r@.len() == n,
        forall|k: int| 0 <= k < r@.len() ==> (#[trigger] r@[k]) as int == k,
{
    let mut r: Vec<usize> = Vec::new();
    let mut i: usize = 0;
    while i < n
        invariant
            i <= n,
            r@.len() == i,
            forall|k: int| 0 <= k < r@.len() ==> (#[trigger] r@[k]) as int == k,
        decreases n - i,
    {
        r.push(i);
        i = i + 1;
    }
    r
}

/// The spare-cash fill phase: sweeps all symbols by price, highest first,
/// buying one share per symbol per sweep in the first account that can
/// pay, until a whole sweep buys nothing. On return no account can afford
/// a single share of any symbol; with no spendable cash to begin with the
/// ledger is left as it was.
fn fill_phase(results: &mut Results, p: &Portfolio)
    requires
        p.ok(),
        ledger_ok(*old(results), *p),
    ensures
        ledger_ok(*final(results), *p),
        ledger_gross(*final(results), p.market@) <= ledger_gross(*old(results), p.market@),
        results_value(*final(results), p.market@) == results_value(*old(results), p.market@),
        forall|a: Seq<char>|
            has_acct(old(results).positions@, a) ==> has_acct(final(results).positions@, a),
        forall|a: Seq<char>|
            has_acct(final(results).positions@, a) ==> has_acct(old(results).positions@, a)
                || account_named(*p, a),
        forall|n: Seq<char>|
            has_cash(old(results).cash@, n) ==> has_cash(final(results).cash@, n),
        forall|n: Seq<char>|
            has_cash(final(results).cash@, n) ==> has_cash(old(results).cash@, n)
                || account_named(*p, n),
        forall|n: Seq<char>|
            cash_of(final(results).cash@, n) >= 0 || cash_of(final(results).cash@, n) == cash_of(
                old(results).cash@,
                n,
            ),
        forall|a: Seq<char>, s: Seq<char>|
            units_of(final(results).positions@, a, s) >= units_of(old(results).positions@, a, s),
        forall|s: Seq<char>|
            total_units(final(results).positions@, s) >= total_units(old(results).positions@, s),
        forall|mi: int, i: int|
            0 <= mi < p.market@.len() && 0 <= i < p.accounts@.len() ==> cash_of(
                final(results).cash@,
                (#[trigger] p.accounts@[i]).name@,
            ) < (#[trigger] p.market@[mi]).price,
        (forall|i: int|
            0 <= i < p.accounts@.len() ==> cash_of(
                old(results).cash@,
                (#[trigger] p.accounts@[i]).name@,
            ) <= 0) ==> ((forall|n: Seq<char>|
            cash_of(final(results).cash@, n) == cash_of(old(results).cash@, n)) && (forall|
            a: Seq<char>,
            s: Seq<char>,
        |
            units_of(final(results).positions@, a, s) == units_of(old(results).positions@, a, s))),
        final(results).allocations@ == old(results).allocations@,
        final(results).total_cash == old(results).total_cash,
{
    let order_syms = order_by_price_desc(&p.market);
    let all_accounts = identity_order(p.accounts.len());
    let ghost idle_hyp = forall|i: int|
        0 <= i < p.accounts@.len() ==> cash_of(
            old(results).cash@,
            (#[trigger] p.accounts@[i]).name@,
        ) <= 0;
    let mut again = true;
    while again
        invariant
            p.ok(),
            order_syms@.len() == p.market@.len(),
            forall|k: int|
                0 <= k < order_syms@.len() ==> (#[trigger] order_syms@[k]) < p.market@.len(),
            forall|mi: int| 0 <= mi < p.market@.len() ==> #[trigger] index_listed(order_syms@, mi),
            all_accounts@.len() == p.accounts@.len(),
            forall|k: int|
                0 <= k < all_accounts@.len() ==> (#[trigger] all_accounts@[k]) as int == k,
            ledger_ok(*results, *p),
            ledger_gross(*results, p.market@) <= ledger_gross(*old(results), p.market@),
            results_value(*results, p.market@) == results_value(*old(results), p.market@),
            forall|a: Seq<char>|
                has_acct(old(results).positions@, a) ==> has_acct(results.positions@, a),
            forall|a: Seq<char>|
                has_acct(results.positions@, a) ==> has_acct(old(results).positions@, a)
                    || account_named(*p, a),
            forall|n: Seq<char>|
                has_cash(old(results).cash@, n) ==> has_cash(results.cash@, n),
            forall|n: Seq<char>|
                has_cash(results.cash@, n) ==> has_cash(old(results).cash@, n) || account_named(
                    *p,
                    n,
                ),
            forall|n: Seq<char>|
                cash_of(results.cash@, n) >= 0 || cash_of(results.cash@, n) == cash_of(
                    old(results).cash@,
                    n,
                ),
            forall|a: Seq<char>, s: Seq<char>|
                units_of(results.positions@, a, s) >= units_of(old(results).positions@, a, s),
            forall|s: Seq<char>|
                total_units(results.positions@, s) >= total_units(old(results).positions@, s),
            idle_hyp == (forall|i: int|
                0 <= i < p.accounts@.len() ==> cash_of(
                    old(results).cash@,
                    (#[trigger] p.accounts@[i]).name@,
                ) <= 0),
            idle_hyp ==> ((forall|n: Seq<char>|
                cash_of(results.cash@, n) == cash_of(old(results).cash@, n)) && (forall|
                a: Seq<char>,
                s: Seq<char>,
            |
                units_of(results.positions@, a, s) == units_of(old(results).positions@, a, s))),
            !again ==> (forall|mi: int, i: int|
                0 <= mi < p.market@.len() && 0 <= i < p.accounts@.len() ==> cash_of(
                    results.cash@,
                    (#[trigger] p.accounts@[i]).name@,
                ) < (#[trigger] p.market@[mi]).price),
            results.allocations@ == old(results).allocations@,
            results.total_cash == old(results).total_cash,
        decreases sum_abs_cash(results.cash@) + sum_cash(results.cash@) + (if again {
            1int
        } else {
            0int
        }),
    {
        proof {
            super::results::lemma_sum_cash_le_abs(results.cash@);
        }
        let ghost sweep0 = *results;
        let mut bought_any = false;
        let mut si: usize = 0;
        while si < order_syms.len()
            invariant
                si <= order_syms@.len(),
                p.ok(),
                order_syms@.len() == p.market@.len(),
                forall|k: int|
                    0 <= k < order_syms@.len() ==> (#[trigger] order_syms@[k]) < p.market@.len(),
                all_accounts@.len() == p.accounts@.len(),
                forall|k: int|
                    0 <= k < all_accounts@.len() ==> (#[trigger] all_accounts@[k]) as int == k,
                ledger_ok(*results, *p),
                ledger_gross(*results, p.market@) <= ledger_gross(sweep0, p.market@),
                results_value(*results, p.market@) == results_value(sweep0, p.market@),
                forall|a: Seq<char>|
                    has_acct(old(results).positions@, a) ==> has_acct(results.positions@, a),
                forall|a: Seq<char>|
                    has_acct(results.positions@, a) ==> has_acct(old(results).positions@, a)
                        || account_named(*p, a),
                forall|n: Seq<char>|
                    has_cash(old(results).cash@, n) ==> has_cash(results.cash@, n),
                forall|n: Seq<char>|
                    has_cash(results.cash@, n) ==> has_cash(old(results).cash@, n) || account_named(
                        *p,
                        n,
                    ),
                ledger_gross(sweep0, p.market@) <= ledger_gross(*old(results), p.market@),
                results_value(sweep0, p.market@) == results_value(*old(results), p.market@),
                forall|n: Seq<char>|
                    cash_of(results.cash@, n) >= 0 || cash_of(results.cash@, n) == cash_of(
                        old(results).cash@,
                        n,
                    ),
                forall|n: Seq<char>|
                    cash_of(sweep0.cash@, n) >= 0 || cash_of(sweep0.cash@, n) == cash_of(
                        old(results).cash@,
                        n,
                    ),
                forall|a: Seq<char>, s: Seq<char>|
                    units_of(results.positions@, a, s) >= units_of(old(results).positions@, a, s),
                forall|a: Seq<char>, s: Seq<char>|
                    units_of(sweep0.positions@, a, s) >= units_of(old(results).positions@, a, s),
                forall|s: Seq<char>|
                    total_units(results.positions@, s) >= total_units(old(results).positions@, s),

                idle_hyp == (forall|i: int|
                    0 <= i < p.accounts@.len() ==> cash_of(
                        old(results).cash@,
                        (#[trigger] p.accounts@[i]).name@,
                    ) <= 0),
                idle_hyp ==> ((forall|n: Seq<char>|
                    cash_of(sweep0.cash@, n) == cash_of(old(results).cash@, n)) && (forall|
                    a: Seq<char>,
                    s: Seq<char>,
                |
                    units_of(sweep0.positions@, a, s) == units_of(
                        old(results).positions@,
                        a,
                        s,
                    ))),
                idle_hyp ==> !bought_any,
                !bought_any ==> ((forall|n: Seq<char>|
                    cash_of(results.cash@, n) == cash_of(sweep0.cash@, n)) && (forall|
                    a: Seq<char>,
                    s: Seq<char>,
                |
                    units_of(results.positions@, a, s) == units_of(sweep0.positions@, a, s))
                    && sum_abs_cash(results.cash@) + sum_cash(results.cash@) == sum_abs_cash(
                    sweep0.cash@,
                ) + sum_cash(sweep0.cash@)),
                !bought_any ==> (forall|k: int, i: int|
                    0 <= k < si && 0 <= i < p.accounts@.len() ==> cash_of(
                        sweep0.cash@,
                        (#[trigger] p.accounts@[i]).name@,
                    ) < p.market@[(#[trigger] order_syms@[k]) as int].price),
                bought_any ==> sum_abs_cash(results.cash@) + sum_cash(results.cash@)
                    <= sum_abs_cash(sweep0.cash@) + sum_cash(sweep0.cash@) - 2,
                results.allocations@ == old(results).allocations@,
                results.total_cash == old(results).total_cash,
            decreases order_syms@.len() - si,
        {
            let mi = order_syms[si];
            let inv = &p.market[mi];
            let ghost sym = inv.symbol@;
            proof {
                assert(market_has(p.market@, sym)) by {
                    assert(p.market@[mi as int].symbol@ == sym);
                }
                lemma_price_or0_first(p.market@, mi as int, sym);
            }
            let ghost r_pre = *results;
            let b = try_accounts(results, p, &all_accounts, inv.symbol.as_str(), inv.price, false, false);
            proof {
                assert forall|n: Seq<char>|
                    cash_of(results.cash@, n) >= 0 || cash_of(results.cash@, n) == cash_of(
                        old(results).cash@,
                        n,
                    ) by {
                    if cash_of(results.cash@, n) < 0 {
                        assert(cash_of(results.cash@, n) == cash_of(r_pre.cash@, n));
                    }
                }
                if b && idle_hyp {
                    let kw = choose|k: int|
                        0 <= k < all_accounts@.len() && cash_of(
                            r_pre.cash@,
                            (#[trigger] p.accounts@[all_accounts@[k] as int]).name@,
                        ) >= inv.price as int;
                    assert(cash_of(old(results).cash@, p.accounts@[kw].name@) <= 0);
                    assert(cash_of(r_pre.cash@, p.accounts@[kw].name@) == cash_of(
                        old(results).cash@,
                        p.accounts@[kw].name@,
                    ));
                    assert(false);
                }
                if !b && !bought_any {
                    assert forall|i: int|
                        0 <= i < p.accounts@.len() implies cash_of(
                            sweep0.cash@,
                            (#[trigger] p.accounts@[i]).name@,
                        ) < p.market@[mi as int].price by {
                        assert(all_accounts@[i] as int == i);
                        assert(cash_of(r_pre.cash@, p.accounts@[all_accounts@[i] as int].name@)
                            < inv.price as int);
                        assert(cash_of(sweep0.cash@, p.accounts@[i].name@) == cash_of(
                            r_pre.cash@,
                            p.accounts@[i].name@,
                        ));
                    }
                }
            }
            if b {
                bought_any = true;
            }
            si = si + 1;
        }
        if !bought_any {
            again = false;
            proof {
                assert forall|mi2: int, i: int|
                    0 <= mi2 < p.market@.len() && 0 <= i < p.accounts@.len() implies cash_of(
                        results.cash@,
                        (#[trigger] p.accounts@[i]).name@,
                    ) < (#[trigger] p.market@[mi2]).price by {
                    assert(index_listed(order_syms@, mi2));
                    let k = choose|k: int|
                        0 <= k < order_syms@.len() && (#[trigger] order_syms@[k]) as int == mi2;
                    assert(cash_of(sweep0.cash@, p.accounts@[i].name@) < p.market@[order_syms@[k]
                        as int].price);
                }
            }
        }
        proof {
            super::results::lemma_sum_cash_le_abs(results.cash@);
        }
    }
}

proof fn lemma_accounts_hold_value_nonneg(accs: Seq<Account>, m: Seq<Investment>)
    ensures
        0 <= accounts_hold_value(accs, m),
    decreases accs.len(),
{
    if accs.len() > 0 {
        lemma_accounts_hold_value_nonneg(accs.drop_last(), m);
        super::lemma_holding_value_nonneg(accs.last().positions@, m);
    }
}

proof fn lemma_sum_accounts_cash_zero(accs: Seq<Account>)
    requires
        forall|i: int| 0 <= i < accs.len() ==> (#[trigger] accs[i].cash) == 0,
    ensures
        sum_accounts_cash(accs) == 0,
    decreases accs.len(),
{
    if accs.len() > 0 {
        lemma_sum_accounts_cash_zero(accs.drop_last());
    }
}

/// Rebalances the portfolio toward its target allocation: sells
/// overweight positions where the sale policy allows, buys the most
/// relatively needed symbols one share at a time (high-yield symbols into
/// tax-sheltered accounts first), sweeps spare cash into the
/// highest-priced affordable shares, and reports the final allocation
/// fractions. The run conserves total value exactly, never drives any
/// cash balance negative when none was negative to begin with, never
/// sells from a protected account, never liquidates a symbol by more
/// than its own excess over target, leaves a portfolio that is exactly
/// at target with no cash untouched, books positions and cash under
/// exactly the portfolio's account names, and stops only when no account
/// can afford a single share of anything.
pub fn run_balancing(portfolio: Portfolio) -> (r: Results)
    requires
        portfolio.ok(),
    ensures
        r.wf(),
        results_value(r, portfolio.market@) == portfolio_value(portfolio),
        cash_nonneg(portfolio) ==> forall|k: int|
            0 <= k < r.cash@.len() ==> (#[trigger] r.cash@[k]).cash >= 0,
        forall|mi: int, i: int|
            0 <= mi < portfolio.market@.len() && 0 <= i < portfolio.accounts@.len() ==> cash_of(
                r.cash@,
                (#[trigger] portfolio.accounts@[i]).name@,
            ) < (#[trigger] portfolio.market@[mi]).price,
        forall|i: int, s: Seq<char>|
            0 <= i < portfolio.accounts@.len() && sale_protected(
                portfolio,
                portfolio.accounts@[i],
            ) ==> #[trigger] units_of(r.positions@, portfolio.accounts@[i].name@, s) >= units_in(
                portfolio.accounts@[i].positions@,
                s,
            ),
        at_target(portfolio) && zero_cash(portfolio) ==> ((forall|i: int, s: Seq<char>|
            0 <= i < portfolio.accounts@.len() ==> #[trigger] units_of(
                r.positions@,
                portfolio.accounts@[i].name@,
                s,
            ) == units_in(portfolio.accounts@[i].positions@, s)) && (forall|i: int|
            0 <= i < portfolio.accounts@.len() ==> cash_of(
                r.cash@,
                (#[trigger] portfolio.accounts@[i]).name@,
            ) == 0)),
        forall|a: Seq<char>| has_acct(r.positions@, a) <==> account_named(portfolio, a),
        forall|n: Seq<char>| has_cash(r.cash@, n) <==> account_named(portfolio, n),
        forall|k: int|
            0 <= k < portfolio.target@.len() && #[trigger] delta_of_target(portfolio, k) < 0
                ==> price_or0(portfolio.market@, portfolio.target@[k].symbol@) * (acc_units(
                portfolio.accounts@,
                portfolio.target@[k].symbol@,
            ) - total_units(r.positions@, portfolio.target@[k].symbol@)) <= -delta_of_target(
                portfolio,
                k,
            ),
        r.total_cash as int == sum_cash(r.cash@),
        ({
            let tc = sum_cash(r.cash@);
            let pv = positions_value(r.positions@, portfolio.market@);
            let total = tc + pv;
            &&& total <= 0 ==> r.allocations@.len() == 0
            &&& total > 0 ==> {
                &&& forall|k: int|
                    0 <= k < r.allocations@.len() ==> (if (#[trigger] r.allocations@[k]).symbol@
                        == "cash"@ {
                        r.allocations@[k].ppm as int == super::results::ppm_frac(tc, total)
                    } else {
                        r.allocations@[k].ppm as int == (super::results::total_units(
                            r.positions@,
                            r.allocations@[k].symbol@,
                        ) * price_or0(portfolio.market@, r.allocations@[k].symbol@)
                            * PPM_SCALE) / total
                    })
                &&& super::results::has_alloc(r.allocations@, "cash"@)
                &&& forall|s: Seq<char>|
                    s != "cash"@ ==> (super::results::has_alloc(r.allocations@, s)
                        <==> ledger_holds(r.positions@, s))
                &&& (tc >= 0 && !ledger_holds(r.positions@, "cash"@)) ==> PPM_SCALE as int
                    - r.allocations@.len() < super::results::sum_allocations(r.allocations@)
                    <= PPM_SCALE as int
            }
        }),
{
    let p = &portfolio;
    let total_value = p.total_value();
    let deltas = compute_deltas(p, total_value);
    let order = order_sheltered_first(&p.accounts);
    let mut results = Results::from_positions(&p.accounts);
    let ghost accs = p.accounts@;
    let ghost m = p.market@;
    proof {
        lemma_seed_sums(results.cash@, results.positions@, accs, m);
        assert(results.wf());
        assert(ledger_gross(results, m) <= MAX_MONEY as int);
        assert forall|s: Seq<char>| ledger_holds(results.positions@, s) implies market_has(
            m,
            s,
        ) by {
            let w = choose|w: int|
                0 <= w < results.positions@.len() && has_position(
                    results.positions@[w].positions@,
                    s,
                );
            assert(has_position(accs[w].positions@, s));
            let j = choose|j: int| 0 <= j < accs[w].positions@.len() && accs[w].positions@[j].symbol@ == s;
            assert(market_has(m, p.accounts@[w].positions@[j].symbol@));
        }
        assert(ledger_ok(results, *p));
        // The seed mirrors the accounts entry by entry.
        assert forall|i: int, s: Seq<char>| 0 <= i < accs.len() implies #[trigger] units_of(
            results.positions@,
            accs[i].name@,
            s,
        ) == units_in(accs[i].positions@, s) by {
            super::results::lemma_units_of_at(results.positions@, i, accs[i].name@, s);
        }
        assert forall|i: int| 0 <= i < accs.len() implies cash_of(
            results.cash@,
            (#[trigger] accs[i]).name@,
        ) == accs[i].cash by {
            super::results::lemma_cash_of_at(results.cash@, i, accs[i].name@);
        }
        assert forall|a: Seq<char>|
            has_acct(results.positions@, a) <==> account_named(*p, a) by {
            if has_acct(results.positions@, a) {
                let w = choose|w: int|
                    0 <= w < results.positions@.len() && results.positions@[w].name@ == a;
                assert(accs[w].name@ == a);
            }
            if account_named(*p, a) {
                let w = choose|w: int| 0 <= w < accs.len() && accs[w].name@ == a;
                assert(results.positions@[w].name@ == a);
            }
        }
        assert forall|n: Seq<char>|
            has_cash(results.cash@, n) <==> account_named(*p, n) by {
            if has_cash(results.cash@, n) {
                let w = choose|w: int|
                    0 <= w < results.cash@.len() && results.cash@[w].name@ == n;
                assert(accs[w].name@ == n);
            }
            if account_named(*p, n) {
                let w = choose|w: int| 0 <= w < accs.len() && accs[w].name@ == n;
                assert(results.cash@[w].name@ == n);
            }
        }
        if cash_nonneg(*p) {
            assert forall|n: Seq<char>| cash_of(results.cash@, n) >= 0 by {
                if super::results::has_cash(results.cash@, n) {
                    let w = choose|w: int|
                        0 <= w < results.cash@.len() && results.cash@[w].name@ == n;
                    super::results::lemma_cash_of_at(results.cash@, w, n);
                    assert(accs[w].cash >= 0);
                } else {
                    super::results::lemma_cash_of_absent(results.cash@, n);
                }
            }
        }
        // An exactly balanced, cashless portfolio has zero deltas.
        if at_target(*p) && zero_cash(*p) {
            lemma_sum_accounts_cash_zero(accs);
            lemma_accounts_hold_value_nonneg(accs, m);
            assert(portfolio_value(*p) >= 0);
            assert forall|k: int| 0 <= k < deltas@.len() implies (#[trigger] deltas@[k]).cash_delta
                as int == 0 by {
                let v = portfolio_value(*p);
                let w = p.target@[k].weight as int;
                let held = acc_units(accs, p.target@[k].symbol@) * price_or0(
                    m,
                    p.target@[k].symbol@,
                );
                assert(w * v == held * PPM_SCALE as int);
                assert(alloc_of_target(*p, k) == (w * v) / PPM_SCALE as int);
                vstd::arithmetic::div_mod::lemma_div_multiples_vanish(held, PPM_SCALE as int);
                assert(held * PPM_SCALE as int == PPM_SCALE as int * held) by (nonlinear_arith);
                assert((w * v) / PPM_SCALE as int == held);
            }
        }
    }
    let ghost seed = results;
    sell_phase(&mut results, p, &order, &deltas);
    let ghost after_sell = results;
    buy_phase(&mut results, p, &order, &deltas, total_value);
    let ghost after_buy = results;
    proof {
        if at_target(*p) && zero_cash(*p) {
            assert forall|k: int| 0 <= k < deltas@.len() implies (#[trigger] deltas@[k]).cash_delta
                as int >= -price_or0(m, deltas@[k].symbol@) by {
                lemma_price_or0_nonneg(m, deltas@[k].symbol@);
            }
            assert forall|i: int|
                0 <= i < accs.len() implies cash_of(
                    after_buy.cash@,
                    (#[trigger] accs[i]).name@,
                ) <= 0 by {
                assert(cash_of(seed.cash@, accs[i].name@) == accs[i].cash);
            }
        }
    }
    fill_phase(&mut results, p);
    proof {
        super::results::lemma_sum_cash_le_abs(results.cash@);
        super::results::lemma_positions_value_nonneg(results.positions@, m);
    }
    let ghost before_report = results;
    results.calculate_percentages(&p.market);
    proof {
        // No symbol was sold below its target: each overweight symbol's
        // liquidation is bounded by its own excess, and the later phases
        // only add shares.
        assert forall|k: int|
            0 <= k < p.target@.len() && #[trigger] delta_of_target(*p, k) < 0 implies price_or0(
            m,
            p.target@[k].symbol@,
        ) * (acc_units(accs, p.target@[k].symbol@) - total_units(
            results.positions@,
            p.target@[k].symbol@,
        )) <= -delta_of_target(*p, k) by {
            let s = p.target@[k].symbol@;
            let pr = price_or0(m, s);
            lemma_seed_units(seed.positions@, accs, s);
            lemma_price_or0_nonneg(m, s);
            assert((deltas@[k].cash_delta as int) < 0);
            assert(pr * (total_units(seed.positions@, s) - total_units(
                after_sell.positions@,
                s,
            )) <= -(deltas@[k].cash_delta as int));
            assert(total_units(results.positions@, s) >= total_units(after_sell.positions@, s));
            assert(pr * (acc_units(accs, s) - total_units(results.positions@, s)) <= pr
                * (acc_units(accs, s) - total_units(after_sell.positions@, s)))
                by (nonlinear_arith)
                requires
                    pr >= 0,
                    total_units(results.positions@, s) >= total_units(after_sell.positions@, s),
            ;
        }
        // P2: with no negative starting cash, every final balance is
        // non-negative.
        if cash_nonneg(*p) {
            assert forall|k: int| 0 <= k < results.cash@.len() implies (#[trigger] results.cash@[k]).cash
                >= 0 by {
                super::results::lemma_cash_of_at(results.cash@, k, results.cash@[k].name@);
                assert(cash_of(before_report.cash@, results.cash@[k].name@) >= 0);
            }
        }
    }
    results
}

/// `w` ppm of `v` cents, rounded toward zero.
fn scale_weight_exec(w: u64, v: i64) -> (r: i64)
    requires
        w as int <= super::MAX_PPM as int,
        abs_of(v as int) <= MAX_MONEY as int,
    ensures
        r as int == scale_weight(w as int, v as int),
        abs_of(r as int) <= 2 * MAX_MONEY as int,
{
    proof {
        let ppm = PPM_SCALE as int;
        let mag = if v >= 0 { v as int } else { -(v as int) };
        let prod = w as int * mag;
        assert(prod >= 0) by (nonlinear_arith)
            requires
                prod == w as int * mag,
                w as int >= 0,
                mag >= 0,
        ;
        assert(prod <= ppm * (2 * mag)) by (nonlinear_arith)
            requires
                prod == w as int * mag,
                w as int <= 2 * ppm,
                mag >= 0,
                ppm > 0,
        ;
        vstd::arithmetic::div_mod::lemma_div_is_ordered(prod, ppm * (2 * mag), ppm);
        vstd::arithmetic::div_mod::lemma_div_multiples_vanish(2 * mag, ppm);
        vstd::arithmetic::div_mod::lemma_div_pos_is_pos(prod, ppm);
    }
    if v >= 0 {
        let num: u128 = (w as u128) * (v as u128);
        (num / (PPM_SCALE as u128)) as i64
    } else {
        let neg: u128 = (w as u128) * ((-v) as u128);
        -((neg / (PPM_SCALE as u128)) as i64)
    }
}

} // verus!
