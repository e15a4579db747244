use vstd::prelude::*;
use vstd::pervasive::VecAdditionalExecFns;

use super::Account;
use super::Investment;
use super::Position;
use super::MAX_MONEY;
use super::abs_of;
use super::clamp0;
use super::distinct_account_names;
use super::distinct_positions;
use super::find_inv_idx;
use super::find_pos_idx;
use super::has_position;
use super::holding_value;
use super::lemma_units_in_nonneg;
use super::price_or0;
use super::str_eq;
use super::units_in;

verus! {

/// The cash balance of one account in the results ledger.
pub struct CashBalance {
    pub name: String,
    pub cash: i64,
}

/// The share positions of one account in the results ledger.
pub struct AccountPositions {
    pub name: String,
    pub positions: Vec<Position>,
}

/// One entry of the final allocation report: the fraction of the total
/// portfolio value held in this symbol, in ppm.
pub struct Allocation {
    pub symbol: String,
    pub ppm: i64,
}

/// The transaction ledger and final output of a rebalancing run:
/// per-account positions and cash, and the derived allocation report.
pub struct Results {
    pub positions: Vec<AccountPositions>,
    pub allocations: Vec<Allocation>,
    pub cash: Vec<CashBalance>,
    pub total_cash: i64,
}

/// The sum of all cash balances of the ledger.
pub open spec fn sum_cash(cs: Seq<CashBalance>) -> int
    decreases cs.len(),
{
    if cs.len() == 0 {
        0
    } else {
        sum_cash(cs.drop_last()) + cs.last().cash as int
    }
}

/// The cash balance booked under `name`, summed over all entries with that
/// name (a well-formed ledger has at most one); absent accounts hold zero.
pub open spec fn cash_of(cs: Seq<CashBalance>, name: Seq<char>) -> int
    decreases cs.len(),
{
    if cs.len() == 0 {
        0
    } else {
        cash_of(cs.drop_last(), name) + if cs.last().name@ == name {
            cs.last().cash as int
        } else {
            0
        }
    }
}

/// Whether the ledger has a cash entry for `name`.
pub open spec fn has_cash(cs: Seq<CashBalance>, name: Seq<char>) -> bool {
    exists|i: int| 0 <= i < cs.len() && cs[i].name@ == name
}

/// The market value of all positions of the ledger.
pub open spec fn positions_value(aps: Seq<AccountPositions>, m: Seq<Investment>) -> int
    decreases aps.len(),
{
    if aps.len() == 0 {
        0
    } else {
        positions_value(aps.drop_last(), m) + holding_value(aps.last().positions@, m)
    }
}

/// The shares of `sym` booked under account `name` in the ledger.
pub open spec fn units_of(aps: Seq<AccountPositions>, name: Seq<char>, sym: Seq<char>) -> int
    decreases aps.len(),
{
    if aps.len() == 0 {
        0
    } else {
        units_of(aps.drop_last(), name, sym) + if aps.last().name@ == name {
            units_in(aps.last().positions@, sym)
        } else {
            0
        }
    }
}

/// Whether the ledger has a positions entry for account `name`.
pub open spec fn has_acct(aps: Seq<AccountPositions>, name: Seq<char>) -> bool {
    exists|i: int| 0 <= i < aps.len() && aps[i].name@ == name
}

/// Whether any account of the ledger has a position entry for `sym`
/// (possibly of zero shares).
pub open spec fn ledger_holds(aps: Seq<AccountPositions>, sym: Seq<char>) -> bool {
    exists|i: int| 0 <= i < aps.len() && super::has_position(aps[i].positions@, sym)
}

/// No two account entries share a name.
pub open spec fn distinct_cash(cs: Seq<CashBalance>) -> bool {
    forall|i: int, j: int| 0 <= i < j < cs.len() ==> cs[i].name@ != cs[j].name@
}

/// No two position lists share an account name.
pub open spec fn distinct_acct_positions(aps: Seq<AccountPositions>) -> bool {
    forall|i: int, j: int| 0 <= i < j < aps.len() ==> aps[i].name@ != aps[j].name@
}

/// No two allocation entries share a symbol.
pub open spec fn distinct_allocations(allocs: Seq<Allocation>) -> bool {
    forall|i: int, j: int| 0 <= i < j < allocs.len() ==> allocs[i].symbol@ != allocs[j].symbol@
}

/// The sum of all reported allocation fractions.
pub open spec fn sum_allocations(allocs: Seq<Allocation>) -> int
    decreases allocs.len(),
{
    if allocs.len() == 0 {
        0
    } else {
        sum_allocations(allocs.drop_last()) + allocs.last().ppm as int
    }
}

/// The allocation fraction reported for `sym` (zero if absent).
pub open spec fn alloc_of(allocs: Seq<Allocation>, sym: Seq<char>) -> int
    decreases allocs.len(),
{
    if allocs.len() == 0 {
        0
    } else {
        alloc_of(allocs.drop_last(), sym) + if allocs.last().symbol@ == sym {
            allocs.last().ppm as int
        } else {
            0
        }
    }
}

/// Whether the allocation report names `sym`.
pub open spec fn has_alloc(allocs: Seq<Allocation>, sym: Seq<char>) -> bool {
    exists|i: int| 0 <= i < allocs.len() && allocs[i].symbol@ == sym
}

/// The total value of the ledger at market prices `m`: all cash plus the
/// market value of all positions. The rebalancing phases conserve it.
pub open spec fn results_value(r: Results, m: Seq<Investment>) -> int {
    sum_cash(r.cash@) + positions_value(r.positions@, m)
}

impl Results {
    /// Well-formedness of the ledger: account names and symbols are unique
    /// in each of its maps.
    pub open spec fn wf(self) -> bool {
        &&& distinct_cash(self.cash@)
        &&& distinct_acct_positions(self.positions@)
        &&& forall|i: int|
            0 <= i < self.positions.len() ==> distinct_positions(
                #[trigger] self.positions[i].positions@,
            )
        &&& distinct_allocations(self.allocations@)
    }
}

// ---------------------------------------------------------------------------
// Sum lemmas: how each ledger sum reacts to updating or extending a map.
// ---------------------------------------------------------------------------

pub proof fn lemma_sum_cash_update(cs: Seq<CashBalance>, i: int, v: CashBalance)
    requires
        0 <= i < cs.len(),
    ensures
        sum_cash(cs.update(i, v)) == sum_cash(cs) - cs[i].cash + v.cash,
    decreases cs.len(),
{
    let u = cs.update(i, v);
    if i == cs.len() - 1 {
        assert(u.drop_last() =~= cs.drop_last());
    } else {
        assert(u.drop_last() =~= cs.drop_last().update(i, v));
        lemma_sum_cash_update(cs.drop_last(), i, v);
    }
}

pub proof fn lemma_sum_cash_push(cs: Seq<CashBalance>, v: CashBalance)
    ensures
        sum_cash(cs.push(v)) == sum_cash(cs) + v.cash,
{
    assert(cs.push(v).drop_last() =~= cs);
}

pub proof fn lemma_cash_of_update(cs: Seq<CashBalance>, i: int, v: CashBalance, name: Seq<char>)
    requires
        0 <= i < cs.len(),
    ensures
        cash_of(cs.update(i, v), name) == cash_of(cs, name) - (if cs[i].name@ == name {
            cs[i].cash as int
        } else {
            0
        }) + (if v.name@ == name {
            v.cash as int
        } else {
            0
        }),
    decreases cs.len(),
{
    let u = cs.update(i, v);
    if i == cs.len() - 1 {
        assert(u.drop_last() =~= cs.drop_last());
    } else {
        assert(u.drop_last() =~= cs.drop_last().update(i, v));
        lemma_cash_of_update(cs.drop_last(), i, v, name);
    }
}

pub proof fn lemma_cash_of_push(cs: Seq<CashBalance>, v: CashBalance, name: Seq<char>)
    ensures
        cash_of(cs.push(v), name) == cash_of(cs, name) + (if v.name@ == name {
            v.cash as int
        } else {
            0
        }),
{
    assert(cs.push(v).drop_last() =~= cs);
}

pub proof fn lemma_cash_of_at(cs: Seq<CashBalance>, i: int, name: Seq<char>)
    requires
        0 <= i < cs.len(),
        cs[i].name@ == name,
        forall|k: int| 0 <= k < cs.len() && k != i ==> cs[k].name@ != name,
    ensures
        cash_of(cs, name) == cs[i].cash,
    decreases cs.len(),
{
    if i == cs.len() - 1 {
        lemma_cash_of_absent(cs.drop_last(), name);
    } else {
        lemma_cash_of_at(cs.drop_last(), i, name);
    }
}

pub proof fn lemma_cash_of_absent(cs: Seq<CashBalance>, name: Seq<char>)
    requires
        forall|k: int| 0 <= k < cs.len() ==> cs[k].name@ != name,
    ensures
        cash_of(cs, name) == 0,
    decreases cs.len(),
{
    if cs.len() > 0 {
        lemma_cash_of_absent(cs.drop_last(), name);
    }
}

pub proof fn lemma_units_in_update(ps: Seq<Position>, j: int, v: Position, sym: Seq<char>)
    requires
        0 <= j < ps.len(),
    ensures
        units_in(ps.update(j, v), sym) == units_in(ps, sym) - (if ps[j].symbol@ == sym {
            ps[j].shares as int
        } else {
            0
        }) + (if v.symbol@ == sym {
            v.shares as int
        } else {
            0
        }),
    decreases ps.len(),
{
    let u = ps.update(j, v);
    if j == ps.len() - 1 {
        assert(u.drop_last() =~= ps.drop_last());
    } else {
        assert(u.drop_last() =~= ps.drop_last().update(j, v));
        lemma_units_in_update(ps.drop_last(), j, v, sym);
    }
}

pub proof fn lemma_units_in_push(ps: Seq<Position>, v: Position, sym: Seq<char>)
    ensures
        units_in(ps.push(v), sym) == units_in(ps, sym) + (if v.symbol@ == sym {
            v.shares as int
        } else {
            0
        }),
{
    assert(ps.push(v).drop_last() =~= ps);
}

pub proof fn lemma_units_in_at(ps: Seq<Position>, j: int, sym: Seq<char>)
    requires
        0 <= j < ps.len(),
        ps[j].symbol@ == sym,
        forall|k: int| 0 <= k < ps.len() && k != j ==> ps[k].symbol@ != sym,
    ensures
        units_in(ps, sym) == ps[j].shares,
    decreases ps.len(),
{
    if j == ps.len() - 1 {
        lemma_units_in_absent(ps.drop_last(), sym);
    } else {
        lemma_units_in_at(ps.drop_last(), j, sym);
    }
}

pub proof fn lemma_units_in_absent(ps: Seq<Position>, sym: Seq<char>)
    requires
        forall|k: int| 0 <= k < ps.len() ==> ps[k].symbol@ != sym,
    ensures
        units_in(ps, sym) == 0,
    decreases ps.len(),
{
    if ps.len() > 0 {
        lemma_units_in_absent(ps.drop_last(), sym);
    }
}

pub proof fn lemma_holding_value_update(ps: Seq<Position>, j: int, v: Position, m: Seq<Investment>)
    requires
        0 <= j < ps.len(),
    ensures
        holding_value(ps.update(j, v), m) == holding_value(ps, m) - ps[j].shares * price_or0(
            m,
            ps[j].symbol@,
        ) + v.shares * price_or0(m, v.symbol@),
    decreases ps.len(),
{
    let u = ps.update(j, v);
    if j == ps.len() - 1 {
        assert(u.drop_last() =~= ps.drop_last());
    } else {
        assert(u.drop_last() =~= ps.drop_last().update(j, v));
        lemma_holding_value_update(ps.drop_last(), j, v, m);
    }
}

pub proof fn lemma_holding_value_push(ps: Seq<Position>, v: Position, m: Seq<Investment>)
    ensures
        holding_value(ps.push(v), m) == holding_value(ps, m) + v.shares * price_or0(m, v.symbol@),
{
    assert(ps.push(v).drop_last() =~= ps);
}

pub proof fn lemma_positions_value_update(
    aps: Seq<AccountPositions>,
    i: int,
    v: AccountPositions,
    m: Seq<Investment>,
)
    requires
        0 <= i < aps.len(),
    ensures
        positions_value(aps.update(i, v), m) == positions_value(aps, m) - holding_value(
            aps[i].positions@,
            m,
        ) + holding_value(v.positions@, m),
    decreases aps.len(),
{
    let u = aps.update(i, v);
    if i == aps.len() - 1 {
        assert(u.drop_last() =~= aps.drop_last());
    } else {
        assert(u.drop_last() =~= aps.drop_last().update(i, v));
        lemma_positions_value_update(aps.drop_last(), i, v, m);
    }
}

pub proof fn lemma_positions_value_push(
    aps: Seq<AccountPositions>,
    v: AccountPositions,
    m: Seq<Investment>,
)
    ensures
        positions_value(aps.push(v), m) == positions_value(aps, m) + holding_value(v.positions@, m),
{
    assert(aps.push(v).drop_last() =~= aps);
}

pub proof fn lemma_units_of_update(
    aps: Seq<AccountPositions>,
    i: int,
    v: AccountPositions,
    name: Seq<char>,
    sym: Seq<char>,
)
    requires
        0 <= i < aps.len(),
    ensures
        units_of(aps.update(i, v), name, sym) == units_of(aps, name, sym) - (if aps[i].name@
            == name {
            units_in(aps[i].positions@, sym)
        } else {
            0
        }) + (if v.name@ == name {
            units_in(v.positions@, sym)
        } else {
            0
        }),
    decreases aps.len(),
{
    let u = aps.update(i, v);
    if i == aps.len() - 1 {
        assert(u.drop_last() =~= aps.drop_last());
    } else {
        assert(u.drop_last() =~= aps.drop_last().update(i, v));
        lemma_units_of_update(aps.drop_last(), i, v, name, sym);
    }
}

pub proof fn lemma_units_of_push(
    aps: Seq<AccountPositions>,
    v: AccountPositions,
    name: Seq<char>,
    sym: Seq<char>,
)
    ensures
        units_of(aps.push(v), name, sym) == units_of(aps, name, sym) + (if v.name@ == name {
            units_in(v.positions@, sym)
        } else {
            0
        }),
{
    assert(aps.push(v).drop_last() =~= aps);
}

pub proof fn lemma_units_of_at(aps: Seq<AccountPositions>, i: int, name: Seq<char>, sym: Seq<char>)
    requires
        0 <= i < aps.len(),
        aps[i].name@ == name,
        forall|k: int| 0 <= k < aps.len() && k != i ==> aps[k].name@ != name,
    ensures
        units_of(aps, name, sym) == units_in(aps[i].positions@, sym),
    decreases aps.len(),
{
    if i == aps.len() - 1 {
        lemma_units_of_absent(aps.drop_last(), name, sym);
    } else {
        lemma_units_of_at(aps.drop_last(), i, name, sym);
    }
}

pub proof fn lemma_units_of_absent(aps: Seq<AccountPositions>, name: Seq<char>, sym: Seq<char>)
    requires
        forall|k: int| 0 <= k < aps.len() ==> aps[k].name@ != name,
    ensures
        units_of(aps, name, sym) == 0,
    decreases aps.len(),
{
    if aps.len() > 0 {
        lemma_units_of_absent(aps.drop_last(), name, sym);
    }
}

pub proof fn lemma_units_of_nonneg(aps: Seq<AccountPositions>, name: Seq<char>, sym: Seq<char>)
    ensures
        0 <= units_of(aps, name, sym),
    decreases aps.len(),
{
    if aps.len() > 0 {
        lemma_units_of_nonneg(aps.drop_last(), name, sym);
        lemma_units_in_nonneg(aps.last().positions@, sym);
    }
}

// ---------------------------------------------------------------------------
// Index lookups into the ledger's maps.
// ---------------------------------------------------------------------------

fn find_cash_idx(cs: &Vec<CashBalance>, name: &str) -> (r: Option<usize>)
    ensures
        match r {
            Option::Some(i) => i < cs@.len() && cs@[i as int].name@ == name@ && forall|k: int|
                0 <= k < i ==> cs@[k].name@ != name@,
            Option::None => forall|k: int| 0 <= k < cs@.len() ==> cs@[k].name@ != name@,
        },
{
    let mut i: usize = 0;
    while i < cs.len()
        invariant
            i <= cs@.len(),
            forall|k: int| 0 <= k < i ==> cs@[k].name@ != name@,
        decreases cs@.len() - i,
    {
        if str_eq(cs[i].name.as_str(), name) {
            return Option::Some(i);
        }
        i = i + 1;
    }
    Option::None
}

fn find_acct_idx(aps: &Vec<AccountPositions>, name: &str) -> (r: Option<usize>)
    ensures
        match r {
            Option::Some(i) => i < aps@.len() && aps@[i as int].name@ == name@ && forall|k: int|
                0 <= k < i ==> aps@[k].name@ != name@,
            Option::None => forall|k: int| 0 <= k < aps@.len() ==> aps@[k].name@ != name@,
        },
{
    let mut i: usize = 0;
    while i < aps.len()
        invariant
            i <= aps@.len(),
            forall|k: int| 0 <= k < i ==> aps@[k].name@ != name@,
        decreases aps@.len() - i,
    {
        if str_eq(aps[i].name.as_str(), name) {
            return Option::Some(i);
        }
        i = i + 1;
    }
    Option::None
}

impl Results {
    /// An empty ledger: no accounts, no cash, no report.
    pub fn new() -> (r: Results)
        ensures
            r.positions@.len() == 0,
            r.allocations@.len() == 0,
            r.cash@.len() == 0,
            r.total_cash == 0,
            r.wf(),
    {
        Results { total_cash: 0, positions: Vec::new(), allocations: Vec::new(), cash: Vec::new() }
    }

    /// Seeds a ledger with the given accounts' starting positions and cash.
    /// The accounts themselves are read, never changed.
    pub fn from_positions(accounts: &Vec<Account>) -> (r: Results)
        ensures
            r.positions@.len() == accounts@.len(),
            r.cash@.len() == accounts@.len(),
            forall|i: int|
                0 <= i < accounts@.len() ==> (#[trigger] r.positions@[i]).name@
                    == accounts@[i].name@ && r.positions@[i].positions@
                    == accounts@[i].positions@,
            forall|i: int|
                0 <= i < accounts@.len() ==> (#[trigger] r.cash@[i]).name@ == accounts@[i].name@
                    && r.cash@[i].cash == accounts@[i].cash,
            r.allocations@.len() == 0,
            r.total_cash == 0,
            (distinct_account_names(accounts@) && (forall|i: int|
                0 <= i < accounts@.len() ==> distinct_positions(
                    #[trigger] accounts@[i].positions@,
                ))) ==> r.wf(),
    {
        let mut r = Results::new();
        let mut i: usize = 0;
        while i < accounts.len()
            invariant
                i <= accounts@.len(),
                r.positions@.len() == i,
                r.cash@.len() == i,
                forall|k: int|
                    0 <= k < i ==> (#[trigger] r.positions@[k]).name@ == accounts@[k].name@
                        && r.positions@[k].positions@ == accounts@[k].positions@,
                forall|k: int|
                    0 <= k < i ==> (#[trigger] r.cash@[k]).name@ == accounts@[k].name@
                        && r.cash@[k].cash == accounts@[k].cash,
                r.allocations@.len() == 0,
                r.total_cash == 0,
            decreases accounts@.len() - i,
        {
            let a = &accounts[i];
            let mut ps: Vec<Position> = Vec::new();
            let mut j: usize = 0;
            while j < a.positions.len()
                invariant
                    j <= a.positions@.len(),
                    ps@.len() == j,
                    forall|k: int| 0 <= k < j ==> ps@[k] == a.positions@[k],
                decreases a.positions@.len() - j,
            {
                let p = &a.positions[j];
                ps.push(Position { symbol: p.symbol.clone(), shares: p.shares });
                j = j + 1;
            }
            assert(ps@ =~= a.positions@);
            r.positions.push(AccountPositions { name: a.name.clone(), positions: ps });
            r.cash.push(CashBalance { name: a.name.clone(), cash: a.cash });
            i = i + 1;
        }
        r
    }

    /// Adds `change` to the cash booked under `account`, creating the entry
    /// (at zero) if the account has none yet, and returns the new balance.
    fn adjust_cash(&mut self, account: &str, change: i64) -> (r: i64)
        requires
            old(self).wf(),
            abs_of(change as int) <= MAX_MONEY as int,
            abs_of(cash_of(old(self).cash@, account@)) + abs_of(change as int) <= i64::MAX as int,
        ensures
            final(self).wf(),
            r as int == cash_of(old(self).cash@, account@) + change,
            cash_of(final(self).cash@, account@) == cash_of(old(self).cash@, account@) + change,
            forall|n: Seq<char>|
                n != account@ ==> cash_of(final(self).cash@, n) == cash_of(old(self).cash@, n),
            sum_cash(final(self).cash@) == sum_cash(old(self).cash@) + change,
            sum_abs_cash(final(self).cash@) == sum_abs_cash(old(self).cash@) - abs_of(
                cash_of(old(self).cash@, account@),
            ) + abs_of(cash_of(old(self).cash@, account@) + change),
            forall|n: Seq<char>|
                has_cash(final(self).cash@, n) <==> has_cash(old(self).cash@, n) || n == account@,
            final(self).positions@ == old(self).positions@,
            final(self).allocations@ == old(self).allocations@,
            final(self).total_cash == old(self).total_cash,
    {
        let ghost cs0 = self.cash@;
        match find_cash_idx(&self.cash, account) {
            Option::Some(i) => {
                proof {
                    lemma_cash_of_at(cs0, i as int, account@);
                }
                let nm = self.cash[i].name.clone();
                let cur = self.cash[i].cash;
                let newv = cur + change;
                let v = CashBalance { name: nm, cash: newv };
                self.cash.set(i, v);
                proof {
                    lemma_sum_cash_update(cs0, i as int, v);
                    lemma_sum_abs_cash_update(cs0, i as int, v);
                    assert forall|n: Seq<char>| n != account@ implies cash_of(self.cash@, n)
                        == cash_of(cs0, n) by {
                        lemma_cash_of_update(cs0, i as int, v, n);
                    }
                    lemma_cash_of_update(cs0, i as int, v, account@);
                    lemma_cash_of_at(self.cash@, i as int, account@);
                    assert forall|n: Seq<char>| has_cash(self.cash@, n) <==> has_cash(cs0, n)
                        || n == account@ by {
                        if has_cash(self.cash@, n) {
                            let w = choose|w: int|
                                0 <= w < self.cash@.len() && self.cash@[w].name@ == n;
                            assert(cs0[w].name@ == n);
                        }
                        if has_cash(cs0, n) {
                            let w = choose|w: int| 0 <= w < cs0.len() && cs0[w].name@ == n;
                            assert(self.cash@[w].name@ == n);
                        }
                    }
                }
                newv
            }
            Option::None => {
                proof {
                    lemma_cash_of_absent(cs0, account@);
                }
                let v = CashBalance { name: account.to_owned(), cash: change };
                self.cash.push(v);
                proof {
                    lemma_sum_cash_push(cs0, v);
                    lemma_sum_abs_cash_push(cs0, v);
                    assert forall|n: Seq<char>| n != account@ implies cash_of(self.cash@, n)
                        == cash_of(cs0, n) by {
                        lemma_cash_of_push(cs0, v, n);
                    }
                    lemma_cash_of_push(cs0, v, account@);
                    assert(has_cash(self.cash@, account@)) by {
                        assert(self.cash@[cs0.len() as int].name@ == account@);
                    }
                    assert forall|n: Seq<char>| has_cash(self.cash@, n) <==> has_cash(cs0, n)
                        || n == account@ by {
                        if has_cash(self.cash@, n) && n != account@ {
                            let w = choose|w: int|
                                0 <= w < self.cash@.len() && self.cash@[w].name@ == n;
                            assert(0 <= w < cs0.len() && cs0[w].name@ == n);
                        }
                        if has_cash(cs0, n) {
                            let w = choose|w: int| 0 <= w < cs0.len() && cs0[w].name@ == n;
                            assert(self.cash@[w].name@ == n);
                        }
                    }
                }
                change
            }
        }
    }

    /// Applies a signed share change to `account`'s position in `symbol`,
    /// clamped at zero, creating entries as needed. Returns the resulting
    /// share count. Cash is not touched: affordability is the caller's
    /// concern (see `buy_maybe`).
    #[verifier::rlimit(50)]
    pub fn transact(&mut self, account: &str, symbol: &str, shares: i64) -> (r: u64)
        requires
            old(self).wf(),
            abs_of(shares as int) <= MAX_MONEY as int,
            units_of(old(self).positions@, account@, symbol@) <= MAX_MONEY as int,
        ensures
            final(self).wf(),
            ({
                let old_u = units_of(old(self).positions@, account@, symbol@);
                let new_u = clamp0(old_u + shares);
                &&& r as int == new_u
                &&& units_of(final(self).positions@, account@, symbol@) == new_u
                &&& forall|s: Seq<char>|
                    s != symbol@ ==> units_of(final(self).positions@, account@, s) == units_of(
                        old(self).positions@,
                        account@,
                        s,
                    )
                &&& forall|a: Seq<char>, s: Seq<char>|
                    a != account@ ==> units_of(final(self).positions@, a, s) == units_of(
                        old(self).positions@,
                        a,
                        s,
                    )
                &&& forall|m: Seq<Investment>|
                    positions_value(final(self).positions@, m) == positions_value(
                        old(self).positions@,
                        m,
                    ) + price_or0(m, symbol@) * (new_u - old_u)
            }),
            final(self).cash@ == old(self).cash@,
            final(self).allocations@ == old(self).allocations@,
            final(self).total_cash == old(self).total_cash,
            forall|s: Seq<char>|
                ledger_holds(final(self).positions@, s) <==> ledger_holds(old(self).positions@, s)
                    || s == symbol@,
            forall|a: Seq<char>|
                has_acct(final(self).positions@, a) <==> has_acct(old(self).positions@, a) || a
                    == account@,
            total_units(final(self).positions@, symbol@) == total_units(
                old(self).positions@,
                symbol@,
            ) + clamp0(units_of(old(self).positions@, account@, symbol@) + shares) - units_of(
                old(self).positions@,
                account@,
                symbol@,
            ),
            forall|s: Seq<char>|
                s != symbol@ ==> total_units(final(self).positions@, s) == total_units(
                    old(self).positions@,
                    s,
                ),
    {
        proof {
            lemma_units_of_nonneg(old(self).positions@, account@, symbol@);
        }
        let ghost s0 = self.positions@;
        let acct_i: usize;
        match find_acct_idx(&self.positions, account) {
            Option::Some(i) => {
                acct_i = i;
            }
            Option::None => {
                acct_i = self.positions.len();
                let entry = AccountPositions { name: account.to_owned(), positions: Vec::new() };
                self.positions.push(entry);
            }
        }
        let ghost s1 = self.positions@;
        // The entry for `account` sits at `acct_i`, no other entry matches,
        // and every sum over s1 equals the sum over s0.
        proof {
            assert(acct_i < s1.len() && s1[acct_i as int].name@ == account@);
            if s1.len() == s0.len() + 1 {
                let v = s1.last();
                assert forall|a: Seq<char>, s: Seq<char>| #[trigger] units_of(s1, a, s)
                    == units_of(s0, a, s) by {
                    lemma_units_of_push(s0, v, a, s);
                }
                assert forall|m: Seq<Investment>| #[trigger] positions_value(s1, m)
                    == positions_value(s0, m) by {
                    lemma_positions_value_push(s0, v, m);
                }
                assert forall|s: Seq<char>| #[trigger] total_units(s1, s) == total_units(
                    s0,
                    s,
                ) by {
                    lemma_total_units_push(s0, v, s);
                }
            }
        }
        let mut ap = self.positions.remove(acct_i);
        let ghost ps0 = ap.positions@;
        proof {
            lemma_units_of_at(s1, acct_i as int, account@, symbol@);
        }
        proof {
            if acct_i < s0.len() {
                assert(s1[acct_i as int] == s0[acct_i as int]);
                assert(distinct_positions(old(self).positions@[acct_i as int].positions@));
            } else {
                assert(ap.positions@.len() == 0);
            }
        }
        let new_shares: u64 = upsert_position(&mut ap.positions, symbol, shares);
        let ghost apn = ap;
        proof {
            assert forall|s: Seq<char>|
                has_position(apn.positions@, s) <==> has_position(ps0, s) || s == symbol@ by {
                assert(apn.positions@ == ap.positions@);
            }
            assert(has_position(apn.positions@, symbol@));
        }
        self.positions.insert(acct_i, ap);
        proof {
            assert(self.positions@ =~= s1.update(acct_i as int, apn));
            let fs = self.positions@;
            lemma_units_of_update(s1, acct_i as int, apn, account@, symbol@);
            assert forall|s: Seq<char>| s != symbol@ implies units_of(fs, account@, s) == units_of(
                s0,
                account@,
                s,
            ) by {
                lemma_units_of_update(s1, acct_i as int, apn, account@, s);
            }
            assert forall|a: Seq<char>, s: Seq<char>| a != account@ implies units_of(fs, a, s)
                == units_of(s0, a, s) by {
                lemma_units_of_update(s1, acct_i as int, apn, a, s);
            }
            assert forall|m: Seq<Investment>| positions_value(fs, m) == positions_value(s0, m)
                + price_or0(m, symbol@) * (clamp0(units_of(s0, account@, symbol@) + shares)
                - units_of(s0, account@, symbol@)) by {
                lemma_positions_value_update(s1, acct_i as int, apn, m);
            }
            lemma_total_units_update(s1, acct_i as int, apn, symbol@);
            assert forall|s: Seq<char>| s != symbol@ implies total_units(fs, s) == total_units(
                s0,
                s,
            ) by {
                lemma_total_units_update(s1, acct_i as int, apn, s);
            }
            assert forall|s: Seq<char>|
                ledger_holds(fs, s) <==> ledger_holds(s0, s) || s == symbol@ by {
                if ledger_holds(fs, s) {
                    let w = choose|w: int|
                        0 <= w < fs.len() && has_position(fs[w].positions@, s);
                    if w == acct_i as int {
                        if s != symbol@ {
                            assert(has_position(ps0, s));
                            if s1.len() == s0.len() {
                                assert(has_position(s0[w].positions@, s));
                            } else {
                                assert(ps0.len() == 0);
                                assert(false);
                            }
                        }
                    } else {
                        if w < s0.len() {
                            assert(has_position(s0[w].positions@, s));
                        } else {
                            assert(s1[w].positions@.len() == 0);
                            assert(false);
                        }
                    }
                }
                if ledger_holds(s0, s) {
                    let w = choose|w: int|
                        0 <= w < s0.len() && has_position(s0[w].positions@, s);
                    if w == acct_i as int {
                        assert(has_position(apn.positions@, s));
                        assert(has_position(fs[w].positions@, s));
                    } else {
                        assert(fs[w].positions@ == s0[w].positions@);
                        assert(has_position(fs[w].positions@, s));
                    }
                }
                if s == symbol@ {
                    assert(has_position(apn.positions@, s));
                    assert(has_position(fs[acct_i as int].positions@, s));
                }
            }
            assert forall|a: Seq<char>|
                has_acct(fs, a) <==> has_acct(s0, a) || a == account@ by {
                if has_acct(fs, a) {
                    let w = choose|w: int| 0 <= w < fs.len() && fs[w].name@ == a;
                    if w != acct_i as int && w < s0.len() {
                        assert(s0[w].name@ == a);
                    } else if w != acct_i as int {
                        assert(s1[w].name@ == a);
                        assert(false);
                    }
                }
                if has_acct(s0, a) {
                    let w = choose|w: int| 0 <= w < s0.len() && s0[w].name@ == a;
                    if w == acct_i as int {
                        assert(fs[w].name@ == account@);
                        assert(s1[w].name@ == a);
                    } else {
                        assert(fs[w].name@ == a);
                    }
                }
                if a == account@ {
                    assert(fs[acct_i as int].name@ == a);
                }
            }
        }
        new_shares
    }
}

impl Results {
    /// Tries to execute a signed trade: positive `shares` buys, negative
    /// sells. Succeeds exactly when the account's cash covers the gross
    /// amount `price * shares` (so a sale into deeply negative cash is
    /// refused); on success the account pays the gross and its position
    /// changes by `shares`, clamped at zero, with no partial fills.
    pub fn buy_maybe(&mut self, account: &str, symbol: &str, price: u64, shares: i64) -> (r: Option<
        (),
    >)
        requires
            old(self).wf(),
            price as int <= MAX_MONEY as int,
            abs_of(shares as int) <= MAX_MONEY as int,
            abs_of(price as int * shares as int) <= MAX_MONEY as int,
            abs_of(cash_of(old(self).cash@, account@)) <= MAX_MONEY as int,
            units_of(old(self).positions@, account@, symbol@) <= MAX_MONEY as int,
        ensures
            final(self).wf(),
            r is Some <==> price as int * shares as int <= cash_of(old(self).cash@, account@),
            final(self).allocations@ == old(self).allocations@,
            final(self).total_cash == old(self).total_cash,
            forall|n: Seq<char>|
                has_cash(final(self).cash@, n) <==> has_cash(old(self).cash@, n) || n == account@,
            forall|s: Seq<char>|
                ledger_holds(final(self).positions@, s) <==> ledger_holds(old(self).positions@, s)
                    || (r is Some && s == symbol@),
            forall|a: Seq<char>|
                has_acct(final(self).positions@, a) <==> has_acct(old(self).positions@, a) || (
                r is Some && a == account@),
            total_units(final(self).positions@, symbol@) == total_units(
                old(self).positions@,
                symbol@,
            ) + (if r is Some {
                clamp0(units_of(old(self).positions@, account@, symbol@) + shares) - units_of(
                    old(self).positions@,
                    account@,
                    symbol@,
                )
            } else {
                0
            }),
            forall|s: Seq<char>|
                s != symbol@ ==> total_units(final(self).positions@, s) == total_units(
                    old(self).positions@,
                    s,
                ),
            sum_abs_cash(final(self).cash@) == sum_abs_cash(old(self).cash@) - abs_of(
                cash_of(old(self).cash@, account@),
            ) + abs_of(
                cash_of(old(self).cash@, account@) - (if r is Some {
                    price as int * shares as int
                } else {
                    0
                }),
            ),
            r is None ==> final(self).positions@ == old(self).positions@ && sum_cash(
                final(self).cash@,
            ) == sum_cash(old(self).cash@) && forall|n: Seq<char>|
                cash_of(final(self).cash@, n) == cash_of(old(self).cash@, n),
            r is Some ==> ({
                let old_u = units_of(old(self).positions@, account@, symbol@);
                let new_u = clamp0(old_u + shares);
                let gross = price as int * shares as int;
                &&& cash_of(final(self).cash@, account@) == cash_of(old(self).cash@, account@)
                    - gross
                &&& forall|n: Seq<char>|
                    n != account@ ==> cash_of(final(self).cash@, n) == cash_of(old(self).cash@, n)
                &&& sum_cash(final(self).cash@) == sum_cash(old(self).cash@) - gross
                &&& units_of(final(self).positions@, account@, symbol@) == new_u
                &&& forall|s: Seq<char>|
                    s != symbol@ ==> units_of(final(self).positions@, account@, s) == units_of(
                        old(self).positions@,
                        account@,
                        s,
                    )
                &&& forall|a: Seq<char>, s: Seq<char>|
                    a != account@ ==> units_of(final(self).positions@, a, s) == units_of(
                        old(self).positions@,
                        a,
                        s,
                    )
                &&& forall|m: Seq<Investment>|
                    positions_value(final(self).positions@, m) == positions_value(
                        old(self).positions@,
                        m,
                    ) + price_or0(m, symbol@) * (new_u - old_u)
            }),
    {
        let cur = self.adjust_cash(account, 0);
        let gross128: i128 = (price as i128) * (shares as i128);
        if gross128 > (cur as i128) {
            return Option::None;
        }
        let gross: i64 = gross128 as i64;
        self.adjust_cash(account, -gross);
        self.transact(account, symbol, shares);
        Option::Some(())
    }
}

/// The shares of `sym` held across all accounts of the ledger.
pub open spec fn total_units(aps: Seq<AccountPositions>, sym: Seq<char>) -> int
    decreases aps.len(),
{
    if aps.len() == 0 {
        0
    } else {
        total_units(aps.drop_last(), sym) + units_in(aps.last().positions@, sym)
    }
}

/// The sum of the magnitudes of all cash balances: a bound on every
/// partial cash sum, conserved or shrunk by every trade.
pub open spec fn sum_abs_cash(cs: Seq<CashBalance>) -> int
    decreases cs.len(),
{
    if cs.len() == 0 {
        0
    } else {
        sum_abs_cash(cs.drop_last()) + abs_of(cs.last().cash as int)
    }
}

/// The gross magnitude of the whole ledger, used to bound arithmetic.
pub open spec fn ledger_gross(r: Results, m: Seq<Investment>) -> int {
    sum_abs_cash(r.cash@) + positions_value(r.positions@, m)
}

/// The fraction `x / total` in ppm, rounded toward zero.
pub open spec fn ppm_frac(x: int, total: int) -> int {
    if x >= 0 {
        (x * super::PPM_SCALE) / total
    } else {
        -((-x * super::PPM_SCALE) / total)
    }
}

pub proof fn lemma_total_units_prefix(aps: Seq<AccountPositions>, sym: Seq<char>, i: int)
    requires
        0 <= i < aps.len(),
    ensures
        total_units(aps.subrange(0, i + 1), sym) == total_units(aps.subrange(0, i), sym) + units_in(
            aps[i].positions@,
            sym,
        ),
{
    assert(aps.subrange(0, i + 1).drop_last() =~= aps.subrange(0, i));
}

pub proof fn lemma_total_units_prefix_le(aps: Seq<AccountPositions>, sym: Seq<char>, i: int)
    requires
        0 <= i <= aps.len(),
    ensures
        total_units(aps.subrange(0, i), sym) <= total_units(aps, sym),
    decreases aps.len() - i,
{
    if i == aps.len() {
        assert(aps.subrange(0, i) =~= aps);
    } else {
        lemma_total_units_prefix(aps, sym, i);
        lemma_total_units_prefix_le(aps, sym, i + 1);
        lemma_units_in_nonneg(aps[i].positions@, sym);
    }
}

pub proof fn lemma_total_units_nonneg(aps: Seq<AccountPositions>, sym: Seq<char>)
    ensures
        0 <= total_units(aps, sym),
    decreases aps.len(),
{
    if aps.len() > 0 {
        lemma_total_units_nonneg(aps.drop_last(), sym);
        lemma_units_in_nonneg(aps.last().positions@, sym);
    }
}

/// One symbol's aggregated shares, valued at its own price, never exceed
/// the market value of all ledger positions.
pub proof fn lemma_total_units_price_le(
    aps: Seq<AccountPositions>,
    m: Seq<Investment>,
    sym: Seq<char>,
)
    ensures
        total_units(aps, sym) * price_or0(m, sym) <= positions_value(aps, m),
    decreases aps.len(),
{
    super::lemma_price_or0_nonneg(m, sym);
    if aps.len() > 0 {
        lemma_total_units_price_le(aps.drop_last(), m, sym);
        super::lemma_units_price_le_hv(aps.last().positions@, m, sym);
        assert((total_units(aps.drop_last(), sym) + units_in(aps.last().positions@, sym))
            * price_or0(m, sym) == total_units(aps.drop_last(), sym) * price_or0(m, sym)
            + units_in(aps.last().positions@, sym) * price_or0(m, sym)) by (nonlinear_arith);
    }
}

/// With every held symbol priced at one cent or more, its aggregated
/// shares fit in machine range.
pub proof fn lemma_total_units_bound(aps: Seq<AccountPositions>, m: Seq<Investment>, sym: Seq<char>)
    requires
        super::market_has(m, sym),
        forall|k: int| 0 <= k < m.len() ==> 1 <= (#[trigger] m[k].price as int),
        positions_value(aps, m) <= MAX_MONEY as int,
    ensures
        0 <= total_units(aps, sym) <= MAX_MONEY as int,
{
    super::lemma_price_or0_pos(m, sym);
    lemma_total_units_price_le(aps, m, sym);
    lemma_total_units_nonneg(aps, sym);
    assert(total_units(aps, sym) <= total_units(aps, sym) * price_or0(m, sym))
        by (nonlinear_arith)
        requires
            total_units(aps, sym) >= 0,
            price_or0(m, sym) >= 1,
    ;
}

pub proof fn lemma_total_units_update(
    aps: Seq<AccountPositions>,
    i: int,
    v: AccountPositions,
    sym: Seq<char>,
)
    requires
        0 <= i < aps.len(),
    ensures
        total_units(aps.update(i, v), sym) == total_units(aps, sym) - units_in(
            aps[i].positions@,
            sym,
        ) + units_in(v.positions@, sym),
    decreases aps.len(),
{
    let u = aps.update(i, v);
    if i == aps.len() - 1 {
        assert(u.drop_last() =~= aps.drop_last());
    } else {
        assert(u.drop_last() =~= aps.drop_last().update(i, v));
        lemma_total_units_update(aps.drop_last(), i, v, sym);
    }
}

pub proof fn lemma_total_units_push(aps: Seq<AccountPositions>, v: AccountPositions, sym: Seq<char>)
    ensures
        total_units(aps.push(v), sym) == total_units(aps, sym) + units_in(v.positions@, sym),
{
    assert(aps.push(v).drop_last() =~= aps);
}

pub proof fn lemma_positions_value_prefix(aps: Seq<AccountPositions>, m: Seq<Investment>, i: int)
    requires
        0 <= i < aps.len(),
    ensures
        positions_value(aps.subrange(0, i + 1), m) == positions_value(aps.subrange(0, i), m)
            + holding_value(aps[i].positions@, m),
{
    assert(aps.subrange(0, i + 1).drop_last() =~= aps.subrange(0, i));
}

pub proof fn lemma_positions_value_nonneg(aps: Seq<AccountPositions>, m: Seq<Investment>)
    ensures
        0 <= positions_value(aps, m),
    decreases aps.len(),
{
    if aps.len() > 0 {
        lemma_positions_value_nonneg(aps.drop_last(), m);
        super::lemma_holding_value_nonneg(aps.last().positions@, m);
    }
}

pub proof fn lemma_sum_cash_prefix(cs: Seq<CashBalance>, i: int)
    requires
        0 <= i < cs.len(),
    ensures
        sum_cash(cs.subrange(0, i + 1)) == sum_cash(cs.subrange(0, i)) + cs[i].cash,
        sum_abs_cash(cs.subrange(0, i + 1)) == sum_abs_cash(cs.subrange(0, i)) + abs_of(
            cs[i].cash as int,
        ),
{
    assert(cs.subrange(0, i + 1).drop_last() =~= cs.subrange(0, i));
}

pub proof fn lemma_sum_abs_cash_prefix_le(cs: Seq<CashBalance>, i: int)
    requires
        0 <= i <= cs.len(),
    ensures
        sum_abs_cash(cs.subrange(0, i)) <= sum_abs_cash(cs),
    decreases cs.len() - i,
{
    if i == cs.len() {
        assert(cs.subrange(0, i) =~= cs);
    } else {
        lemma_sum_cash_prefix(cs, i);
        lemma_sum_abs_cash_prefix_le(cs, i + 1);
    }
}

pub proof fn lemma_sum_cash_le_abs(cs: Seq<CashBalance>)
    ensures
        abs_of(sum_cash(cs)) <= sum_abs_cash(cs),
        0 <= sum_abs_cash(cs),
    decreases cs.len(),
{
    if cs.len() > 0 {
        lemma_sum_cash_le_abs(cs.drop_last());
    }
}

pub proof fn lemma_sum_abs_cash_update(cs: Seq<CashBalance>, i: int, v: CashBalance)
    requires
        0 <= i < cs.len(),
    ensures
        sum_abs_cash(cs.update(i, v)) == sum_abs_cash(cs) - abs_of(cs[i].cash as int) + abs_of(
            v.cash as int,
        ),
    decreases cs.len(),
{
    let u = cs.update(i, v);
    if i == cs.len() - 1 {
        assert(u.drop_last() =~= cs.drop_last());
    } else {
        assert(u.drop_last() =~= cs.drop_last().update(i, v));
        lemma_sum_abs_cash_update(cs.drop_last(), i, v);
    }
}

pub proof fn lemma_sum_abs_cash_push(cs: Seq<CashBalance>, v: CashBalance)
    ensures
        sum_abs_cash(cs.push(v)) == sum_abs_cash(cs) + abs_of(v.cash as int),
{
    assert(cs.push(v).drop_last() =~= cs);
}

/// One account's cash, in magnitude, is at most the ledger-wide sum of
/// cash magnitudes.
pub proof fn lemma_cash_of_le_abs(cs: Seq<CashBalance>, name: Seq<char>)
    ensures
        abs_of(cash_of(cs, name)) <= sum_abs_cash(cs),
    decreases cs.len(),
{
    if cs.len() > 0 {
        lemma_cash_of_le_abs(cs.drop_last(), name);
    }
}

/// One account's position in a symbol is at most the ledger-wide total.
pub proof fn lemma_units_of_le_total(aps: Seq<AccountPositions>, name: Seq<char>, sym: Seq<char>)
    ensures
        units_of(aps, name, sym) <= total_units(aps, sym),
    decreases aps.len(),
{
    if aps.len() > 0 {
        lemma_units_of_le_total(aps.drop_last(), name, sym);
        lemma_units_in_nonneg(aps.last().positions@, sym);
    }
}

pub proof fn lemma_sum_allocations_push(allocs: Seq<Allocation>, v: Allocation)
    ensures
        sum_allocations(allocs.push(v)) == sum_allocations(allocs) + v.ppm,
{
    assert(allocs.push(v).drop_last() =~= allocs);
}

/// The index of the first allocation entry for `sym`, if any.
fn find_alloc_idx(allocs: &Vec<Allocation>, sym: &str) -> (r: Option<usize>)
    ensures
        match r {
            Option::Some(j) => j < allocs@.len() && allocs@[j as int].symbol@ == sym@ && forall|
                k: int,
            | 0 <= k < j ==> allocs@[k].symbol@ != sym@,
            Option::None => forall|k: int| 0 <= k < allocs@.len() ==> allocs@[k].symbol@ != sym@,
        },
{
    let mut j: usize = 0;
    while j < allocs.len()
        invariant
            j <= allocs@.len(),
            forall|k: int| 0 <= k < j ==> allocs@[k].symbol@ != sym@,
        decreases allocs@.len() - j,
    {
        if str_eq(allocs[j].symbol.as_str(), sym) {
            return Option::Some(j);
        }
        j = j + 1;
    }
    Option::None
}

impl Results {
    /// The final reporting pass: sums all cash into `total_cash` and
    /// derives `allocations`, the fraction of total portfolio value (in
    /// ppm, rounded toward zero) held in each symbol, plus a synthetic
    /// `cash` entry. With a total of zero or less the report stays empty.
    /// Whenever the total cash is not negative, the reported fractions
    /// sum to 1.0, short by less than one ppm per entry.
    pub fn calculate_percentages(&mut self, market: &Vec<Investment>)
        requires
            old(self).wf(),
            forall|s: Seq<char>|
                ledger_holds(old(self).positions@, s) ==> super::market_has(market@, s),
            forall|k: int| 0 <= k < market@.len() ==> 1 <= (#[trigger] market@[k].price as int),
            sum_abs_cash(old(self).cash@) <= MAX_MONEY as int,
            positions_value(old(self).positions@, market@) <= MAX_MONEY as int,
        ensures
            final(self).wf(),
            final(self).positions@ == old(self).positions@,
            final(self).cash@ == old(self).cash@,
            final(self).total_cash as int == sum_cash(old(self).cash@),
            ({
                let tc = sum_cash(old(self).cash@);
                let pv = positions_value(old(self).positions@, market@);
                let total = tc + pv;
                let aps = old(self).positions@;
                let fa = final(self).allocations@;
                &&& total <= 0 ==> fa.len() == 0
                &&& total > 0 ==> {
                    &&& forall|k: int|
                        0 <= k < fa.len() ==> (if (#[trigger] fa[k]).symbol@ == "cash"@ {
                            fa[k].ppm as int == ppm_frac(tc, total)
                        } else {
                            fa[k].ppm as int == (total_units(aps, fa[k].symbol@) * price_or0(
                                market@,
                                fa[k].symbol@,
                            ) * super::PPM_SCALE) / total
                        })
                    &&& has_alloc(fa, "cash"@)
                    &&& forall|s: Seq<char>|
                        s != "cash"@ ==> (has_alloc(fa, s) <==> ledger_holds(aps, s))
                    &&& (tc >= 0 && !ledger_holds(aps, "cash"@)) ==> super::PPM_SCALE as int
                        - fa.len() < sum_allocations(fa) <= super::PPM_SCALE as int
                }
            }),
    {
        let ghost aps = self.positions@;
        let ghost m = market@;
        let ghost cs = self.cash@;
        let ghost tc0 = sum_cash(cs);
        let ghost pv = positions_value(aps, m);
        proof {
            lemma_sum_cash_le_abs(cs);
            lemma_positions_value_nonneg(aps, m);
        }
        // Sum all cash.
        let mut tc: i64 = 0;
        let mut ci: usize = 0;
        while ci < self.cash.len()
            invariant
                ci <= cs.len(),
                cs == self.cash@,
                sum_abs_cash(cs) <= MAX_MONEY as int,
                tc as int == sum_cash(cs.subrange(0, ci as int)),
                abs_of(tc as int) <= sum_abs_cash(cs.subrange(0, ci as int)),
                sum_abs_cash(cs.subrange(0, ci as int)) >= 0,
            decreases cs.len() - ci,
        {
            proof {
                lemma_sum_cash_prefix(cs, ci as int);
                lemma_sum_abs_cash_prefix_le(cs, ci as int + 1);
            }
            tc = tc + self.cash[ci].cash;
            ci = ci + 1;
        }
        proof {
            assert(cs.subrange(0, cs.len() as int) =~= cs);
        }
        self.total_cash = tc;
        // Aggregate each symbol's shares across all accounts.
        let mut agg: Vec<Position> = Vec::new();
        let mut i: usize = 0;
        while i < self.positions.len()
            invariant
                i <= aps.len(),
                aps == self.positions@,
                forall|x: int|
                    0 <= x < aps.len() ==> distinct_positions(#[trigger] aps[x].positions@),
                forall|s: Seq<char>| ledger_holds(aps, s) ==> super::market_has(m, s),
                forall|k: int| 0 <= k < m.len() ==> 1 <= (#[trigger] m[k].price as int),
                positions_value(aps, m) <= MAX_MONEY as int,
                forall|s: Seq<char>|
                    units_in(agg@, s) == total_units(aps.subrange(0, i as int), s),
                forall|s: Seq<char>|
                    has_position(agg@, s) <==> ledger_holds(aps.subrange(0, i as int), s),
                distinct_positions(agg@),
                holding_value(agg@, m) == positions_value(aps.subrange(0, i as int), m),
            decreases aps.len() - i,
        {
            let ps = &self.positions[i].positions;
            let mut j: usize = 0;
            while j < ps.len()
                invariant
                    j <= ps@.len(),
                    i < aps.len(),
                    aps == self.positions@,
                    ps@ == aps[i as int].positions@,
                    forall|x: int|
                        0 <= x < aps.len() ==> distinct_positions(#[trigger] aps[x].positions@),
                    forall|s: Seq<char>| ledger_holds(aps, s) ==> super::market_has(m, s),
                    forall|k: int| 0 <= k < m.len() ==> 1 <= (#[trigger] m[k].price as int),
                    positions_value(aps, m) <= MAX_MONEY as int,
                    forall|s: Seq<char>|
                        units_in(agg@, s) == total_units(aps.subrange(0, i as int), s) + units_in(
                            ps@.subrange(0, j as int),
                            s,
                        ),
                    forall|s: Seq<char>|
                        has_position(agg@, s) <==> ledger_holds(aps.subrange(0, i as int), s)
                            || has_position(ps@.subrange(0, j as int), s),
                    distinct_positions(agg@),
                    holding_value(agg@, m) == positions_value(aps.subrange(0, i as int), m)
                        + holding_value(ps@.subrange(0, j as int), m),
                decreases ps@.len() - j,
            {
                let p = &ps[j];
                let ghost sym = p.symbol@;
                proof {
                    assert(aps[i as int].positions@[j as int].symbol@ == sym);
                    assert(has_position(aps[i as int].positions@, sym));
                    assert(ledger_holds(aps, sym));
                    assert(super::market_has(m, sym));
                    super::lemma_units_in_prefix(ps@, sym, j as int);
                    super::lemma_units_in_prefix_le(ps@, sym, j as int + 1);
                    lemma_total_units_prefix(aps, sym, i as int);
                    lemma_total_units_prefix_le(aps, sym, i as int + 1);
                    lemma_total_units_bound(aps, m, sym);
                    lemma_units_in_nonneg(ps@.subrange(0, j as int), sym);
                    lemma_total_units_nonneg(aps.subrange(0, i as int), sym);
                    super::lemma_holding_value_prefix(ps@, m, j as int);
                    assert forall|s: Seq<char>| s != sym implies units_in(
                        ps@.subrange(0, j as int + 1),
                        s,
                    ) == units_in(ps@.subrange(0, j as int), s) by {
                        super::lemma_units_in_prefix(ps@, s, j as int);
                    }
                }
                let ghost agg0 = agg@;
                match find_pos_idx(&agg, p.symbol.as_str()) {
                    Option::Some(k) => {
                        proof {
                            lemma_units_in_at(agg0, k as int, sym);
                        }
                        let sym2 = agg[k].symbol.clone();
                        let q = Position { symbol: sym2, shares: agg[k].shares + p.shares };
                        agg.set(k, q);
                        proof {
                            lemma_units_in_update(agg0, k as int, q, sym);
                            assert forall|s: Seq<char>| s != sym implies units_in(agg@, s)
                                == units_in(agg0, s) by {
                                lemma_units_in_update(agg0, k as int, q, s);
                            }
                            lemma_holding_value_update(agg0, k as int, q, m);
                            assert(q.shares * price_or0(m, sym) == agg0[k as int].shares
                                * price_or0(m, sym) + p.shares * price_or0(m, sym))
                                by (nonlinear_arith)
                                requires
                                    q.shares == agg0[k as int].shares + p.shares,
                            ;
                            assert forall|s: Seq<char>|
                                has_position(agg@, s) <==> has_position(agg0, s) by {
                                if has_position(agg@, s) {
                                    let w = choose|w: int|
                                        0 <= w < agg@.len() && agg@[w].symbol@ == s;
                                    if w != k {
                                        assert(agg0[w].symbol@ == s);
                                    }
                                }
                                if has_position(agg0, s) {
                                    let w = choose|w: int|
                                        0 <= w < agg0.len() && agg0[w].symbol@ == s;
                                    if w != k {
                                        assert(agg@[w].symbol@ == s);
                                    } else {
                                        assert(agg@[w].symbol@ == sym);
                                    }
                                }
                            }
                        }
                    }
                    Option::None => {
                        proof {
                            lemma_units_in_absent(agg0, sym);
                        }
                        let q = Position { symbol: p.symbol.clone(), shares: p.shares };
                        agg.push(q);
                        proof {
                            lemma_units_in_push(agg0, q, sym);
                            assert forall|s: Seq<char>| s != sym implies units_in(agg@, s)
                                == units_in(agg0, s) by {
                                lemma_units_in_push(agg0, q, s);
                            }
                            lemma_holding_value_push(agg0, q, m);
                            assert forall|s: Seq<char>|
                                has_position(agg@, s) <==> has_position(agg0, s) || s == sym by {
                                assert(agg@[agg0.len() as int].symbol@ == sym);
                                if has_position(agg@, s) && s != sym {
                                    let w = choose|w: int|
                                        0 <= w < agg@.len() && agg@[w].symbol@ == s;
                                    assert(0 <= w < agg0.len() && agg0[w].symbol@ == s);
                                }
                                if has_position(agg0, s) {
                                    let w = choose|w: int|
                                        0 <= w < agg0.len() && agg0[w].symbol@ == s;
                                    assert(agg@[w].symbol@ == s);
                                }
                            }
                        }
                    }
                }
                proof {
                    assert(units_in(agg@, sym) == total_units(aps.subrange(0, i as int), sym)
                        + units_in(ps@.subrange(0, j as int + 1), sym));
                    assert forall|s: Seq<char>| units_in(agg@, s) == total_units(
                        aps.subrange(0, i as int),
                        s,
                    ) + units_in(ps@.subrange(0, j as int + 1), s) by {
                        if s != sym {
                            assert(units_in(agg@, s) == units_in(agg0, s));
                            assert(units_in(agg0, s) == total_units(aps.subrange(0, i as int), s)
                                + units_in(ps@.subrange(0, j as int), s));
                            assert(units_in(ps@.subrange(0, j as int + 1), s) == units_in(
                                ps@.subrange(0, j as int),
                                s,
                            ));
                        }
                    }
                    assert(ps@.subrange(0, j as int + 1)[j as int].symbol@ == sym);
                    assert forall|s: Seq<char>|
                        has_position(agg@, s) <==> ledger_holds(aps.subrange(0, i as int), s)
                            || has_position(ps@.subrange(0, j as int + 1), s) by {
                        if has_position(ps@.subrange(0, j as int + 1), s) && s != sym {
                            let w = choose|w: int|
                                0 <= w < j as int + 1 && (#[trigger] ps@.subrange(
                                    0,
                                    j as int + 1,
                                )[w]).symbol@ == s;
                            if w < j as int {
                                assert(ps@.subrange(0, j as int)[w].symbol@ == s);
                            }
                        }
                        if has_position(ps@.subrange(0, j as int), s) {
                            let w = choose|w: int|
                                0 <= w < j as int && (#[trigger] ps@.subrange(
                                    0,
                                    j as int,
                                )[w]).symbol@ == s;
                            assert(ps@.subrange(0, j as int + 1)[w].symbol@ == s);
                        }
                        assert(has_position(agg@, s) <==> has_position(agg0, s) || s == sym);
                    }
                }
                j = j + 1;
            }
            proof {
                assert(ps@.subrange(0, ps@.len() as int) =~= ps@);
                lemma_positions_value_prefix(aps, m, i as int);
                assert forall|s: Seq<char>| units_in(agg@, s) == total_units(
                    aps.subrange(0, i as int + 1),
                    s,
                ) by {
                    lemma_total_units_prefix(aps, s, i as int);
                }
                assert forall|s: Seq<char>|
                    has_position(agg@, s) <==> ledger_holds(aps.subrange(0, i as int + 1), s) by {
                    let pre = aps.subrange(0, i as int);
                    let pre1 = aps.subrange(0, i as int + 1);
                    if ledger_holds(pre, s) {
                        let w = choose|w: int|
                            0 <= w < pre.len() && super::has_position(pre[w].positions@, s);
                        assert(super::has_position(pre1[w].positions@, s));
                    }
                    if super::has_position(aps[i as int].positions@, s) {
                        assert(super::has_position(pre1[i as int].positions@, s));
                    }
                    if ledger_holds(pre1, s) {
                        let w = choose|w: int|
                            0 <= w < pre1.len() && super::has_position(pre1[w].positions@, s);
                        if w < i as int {
                            assert(super::has_position(pre[w].positions@, s));
                        } else {
                            assert(super::has_position(aps[i as int].positions@, s));
                        }
                    }
                }
            }
            i = i + 1;
        }
        proof {
            assert(aps.subrange(0, aps.len() as int) =~= aps);
        }
        // The total portfolio value.
        let mut held: i64 = 0;
        let mut hk: usize = 0;
        while hk < agg.len()
            invariant
                hk <= agg@.len(),
                holding_value(agg@, m) == pv,
                pv <= MAX_MONEY as int,
                held as int == holding_value(agg@.subrange(0, hk as int), m),
                0 <= held as int <= pv,
                forall|k: int| 0 <= k < m.len() ==> 1 <= (#[trigger] m[k].price as int),
                m == market@,
            decreases agg@.len() - hk,
        {
            let p = &agg[hk];
            proof {
                super::lemma_holding_value_prefix(agg@, m, hk as int);
                super::lemma_holding_value_prefix_le(agg@, m, hk as int + 1);
            }
            match find_inv_idx(market, p.symbol.as_str()) {
                Option::Some(x) => {
                    proof {
                        super::lemma_price_or0_first(m, x as int, p.symbol@);
                    }
                    let term: u128 = (p.shares as u128) * (market[x].price as u128);
                    held = held + (term as i64);
                }
                Option::None => {
                    proof {
                        super::lemma_price_or0_absent(m, p.symbol@);
                    }
                }
            }
            hk = hk + 1;
        }
        proof {
            assert(agg@.subrange(0, agg@.len() as int) =~= agg@);
        }
        let total: i64 = tc + held;
        if total <= 0 {
            self.allocations = Vec::new();
            return;
        }
        // Divide every symbol's gross value by the total.
        let mut out: Vec<Allocation> = Vec::new();
        let ghost mut rsum: int = 0;
        let mut k: usize = 0;
        while k < agg.len()
            invariant
                k <= agg@.len(),
                aps == self.positions@,
                forall|s: Seq<char>| ledger_holds(aps, s) ==> super::market_has(m, s),
                forall|kk: int| 0 <= kk < m.len() ==> 1 <= (#[trigger] m[kk].price as int),
                m == market@,
                positions_value(aps, m) <= MAX_MONEY as int,
                forall|s: Seq<char>| units_in(agg@, s) == total_units(aps, s),
                forall|s: Seq<char>| has_position(agg@, s) <==> ledger_holds(aps, s),
                distinct_positions(agg@),
                holding_value(agg@, m) == pv,
                pv == positions_value(aps, m),
                0 < total as int <= 2 * MAX_MONEY as int,
                total as int == tc0 + pv,
                tc as int == tc0,
                abs_of(tc0) <= MAX_MONEY as int,
                out@.len() == k,
                forall|k2: int|
                    0 <= k2 < k ==> (#[trigger] out@[k2]).symbol@ == agg@[k2].symbol@
                        && out@[k2].ppm >= 0 && out@[k2].ppm as int == (agg@[k2].shares as int
                        * price_or0(m, agg@[k2].symbol@) * super::PPM_SCALE) / (total as int),
                total as int * sum_allocations(out@) + rsum == holding_value(
                    agg@.subrange(0, k as int),
                    m,
                ) * super::PPM_SCALE,
                0 <= rsum <= k as int * (total as int - 1),
            decreases agg@.len() - k,
        {
            let e = &agg[k];
            let ghost sym = e.symbol@;
            proof {
                assert(has_position(agg@, sym));
                assert(ledger_holds(aps, sym));
                assert(super::market_has(m, sym));
                lemma_units_in_at(agg@, k as int, sym);
                lemma_total_units_price_le(aps, m, sym);
                super::lemma_holding_value_prefix(agg@, m, k as int);
                super::lemma_holding_value_prefix_le(agg@, m, k as int + 1);
                super::lemma_holding_value_nonneg(agg@.subrange(0, k as int), m);
            }
            let price: u64 = match find_inv_idx(market, e.symbol.as_str()) {
                Option::Some(x) => {
                    proof {
                        super::lemma_price_or0_first(m, x as int, sym);
                    }
                    market[x].price
                }
                Option::None => {
                    proof {
                        super::lemma_price_or0_absent(m, sym);
                        assert(false);
                    }
                    0
                }
            };
            let gross128: u128 = (e.shares as u128) * (price as u128);
            let num: u128 = gross128 * (super::PPM_SCALE as u128);
            let q128: u128 = num / (total as u128);
            let ppm_v: i64 = q128 as i64;
            let ghost out0 = out@;
            out.push(Allocation { symbol: e.symbol.clone(), ppm: ppm_v });
            proof {
                let t = total as int;
                let n = num as int;
                lemma_sum_allocations_push(out0, Allocation { symbol: e.symbol, ppm: ppm_v });
                vstd::arithmetic::div_mod::lemma_fundamental_div_mod(n, t);
                vstd::arithmetic::div_mod::lemma_mod_bound(n, t);
                let r_k = n % t;
                assert(n == e.shares as int * price_or0(m, sym) * super::PPM_SCALE);
                assert(t * (sum_allocations(out0) + ppm_v) == t * sum_allocations(out0) + t
                    * ppm_v) by (nonlinear_arith);
                rsum = rsum + r_k;
                assert((k as int + 1) * (t - 1) == k as int * (t - 1) + (t - 1))
                    by (nonlinear_arith);
            }
            k = k + 1;
        }
        proof {
            assert(agg@.subrange(0, agg@.len() as int) =~= agg@);
        }
        // The synthetic cash entry.
        let cash_ppm: i64 = if tc >= 0 {
            let numc: u128 = (tc as u128) * (super::PPM_SCALE as u128);
            (numc / (total as u128)) as i64
        } else {
            let numc: u128 = ((-tc) as u128) * (super::PPM_SCALE as u128);
            -((numc / (total as u128)) as i64)
        };
        let ghost out1 = out@;
        match find_alloc_idx(&out, "cash") {
            Option::Some(x) => {
                let sym2 = out[x].symbol.clone();
                out.set(x, Allocation { symbol: sym2, ppm: cash_ppm });
            }
            Option::None => {
                let entry = Allocation { symbol: "cash".to_owned(), ppm: cash_ppm };
                let ghost ge = entry;
                out.push(entry);
                proof {
                    lemma_sum_allocations_push(out1, ge);
                }
            }
        }
        let ghost outf = out@;
        proof {
            // Every reported fraction matches its defining formula.
            assert forall|k2: int| 0 <= k2 < outf.len() implies (if (#[trigger] outf[k2]).symbol@
                == "cash"@ {
                outf[k2].ppm as int == ppm_frac(tc0, total as int)
            } else {
                outf[k2].ppm as int == (total_units(aps, outf[k2].symbol@) * price_or0(
                    m,
                    outf[k2].symbol@,
                ) * super::PPM_SCALE) / (total as int)
            }) by {
                if k2 < out1.len() && outf[k2].symbol@ != "cash"@ {
                    lemma_units_in_at(agg@, k2, agg@[k2].symbol@);
                }
            }
            // The report names exactly the held symbols plus `cash`.
            assert(has_alloc(outf, "cash"@)) by {
                if out1.len() == outf.len() {
                    let x = choose|x: int| 0 <= x < out1.len() && out1[x].symbol@ == "cash"@;
                    assert(outf[x].symbol@ == "cash"@);
                } else {
                    assert(outf[out1.len() as int].symbol@ == "cash"@);
                }
            }
            assert forall|s: Seq<char>| s != "cash"@ implies (has_alloc(outf, s) <==> ledger_holds(
                aps,
                s,
            )) by {
                if has_alloc(outf, s) {
                    let w = choose|w: int| 0 <= w < outf.len() && outf[w].symbol@ == s;
                    assert(w < agg@.len() && agg@[w].symbol@ == s);
                    assert(has_position(agg@, s));
                }
                if ledger_holds(aps, s) {
                    let w = choose|w: int| 0 <= w < agg@.len() && agg@[w].symbol@ == s;
                    assert(outf[w].symbol@ == s);
                }
            }
            // Well-formedness: distinct symbols in the report.
            assert forall|x: int, y: int| 0 <= x < y < outf.len() implies outf[x].symbol@
                != outf[y].symbol@ by {}
        }
        self.allocations = out;
        proof {
            // The allocation fractions sum to one, short by less than one
            // ppm per entry, whenever total cash is not negative.
            if tc0 >= 0 && !ledger_holds(aps, "cash"@) {
                let t = total as int;
                let ppm = super::PPM_SCALE as int;
                assert(out1.len() == outf.len() - 1) by {
                    if out1.len() == outf.len() {
                        let x = choose|x: int| 0 <= x < out1.len() && out1[x].symbol@ == "cash"@;
                        assert(has_position(agg@, "cash"@));
                    }
                }
                let numc = tc0 * ppm;
                vstd::arithmetic::div_mod::lemma_fundamental_div_mod(numc, t);
                vstd::arithmetic::div_mod::lemma_mod_bound(numc, t);
                let rc = numc % t;
                assert(t * (sum_allocations(out1) + cash_ppm) == t * sum_allocations(out1) + t
                    * cash_ppm) by (nonlinear_arith);
                assert(t * sum_allocations(outf) + rsum + rc == (pv + tc0) * ppm)
                    by (nonlinear_arith)
                    requires
                        t * sum_allocations(out1) + rsum == pv * ppm,
                        t * (sum_allocations(out1) + cash_ppm) == t * sum_allocations(out1) + t
                            * cash_ppm,
                        sum_allocations(outf) == sum_allocations(out1) + cash_ppm,
                        numc == t * cash_ppm + rc,
                        numc == tc0 * ppm,
                ;
                assert((pv + tc0) * ppm == t * ppm) by (nonlinear_arith)
                    requires
                        t == tc0 + pv,
                ;
                assert(t * (ppm - sum_allocations(outf)) == rsum + rc) by (nonlinear_arith)
                    requires
                        t * sum_allocations(outf) + rsum + rc == t * ppm,
                ;
                assert(rsum + rc < outf.len() * t) by (nonlinear_arith)
                    requires
                        rsum <= (outf.len() - 1) * (t - 1),
                        rc < t,
                        rc >= 0,
                        rsum >= 0,
                        t >= 1,
                        outf.len() >= 1,
                ;
                assert(ppm - sum_allocations(outf) >= 0) by (nonlinear_arith)
                    requires
                        t * (ppm - sum_allocations(outf)) >= 0,
                        t > 0,
                ;
                assert(ppm - sum_allocations(outf) < outf.len()) by (nonlinear_arith)
                    requires
                        t * (ppm - sum_allocations(outf)) < outf.len() * t,
                        t > 0,
                ;
            }
        }
    }
}

/// The new share count after a signed change, clamped at zero.
fn apply_change(cur: u64, delta: i64) -> (r: u64)
    requires
        cur as int <= MAX_MONEY as int,
        abs_of(delta as int) <= MAX_MONEY as int,
    ensures
        r as int == clamp0(cur as int + delta as int),
{
    if delta >= 0 {
        cur + (delta as u64)
    } else {
        let d: u64 = (-delta) as u64;
        if d >= cur {
            0
        } else {
            cur - d
        }
    }
}

/// Applies a signed share change to one position list, clamped at zero,
/// creating the entry if the symbol has none yet. Returns the resulting
/// share count.
fn upsert_position(ps: &mut Vec<Position>, symbol: &str, shares: i64) -> (r: u64)
    requires
        distinct_positions(old(ps)@),
        abs_of(shares as int) <= MAX_MONEY as int,
        units_in(old(ps)@, symbol@) <= MAX_MONEY as int,
    ensures
        distinct_positions(final(ps)@),
        r as int == clamp0(units_in(old(ps)@, symbol@) + shares),
        units_in(final(ps)@, symbol@) == clamp0(units_in(old(ps)@, symbol@) + shares),
        forall|s: Seq<char>|
            s != symbol@ ==> units_in(final(ps)@, s) == units_in(old(ps)@, s),
        forall|m: Seq<Investment>|
            #[trigger] holding_value(final(ps)@, m) == holding_value(old(ps)@, m) + price_or0(
                m,
                symbol@,
            ) * (clamp0(units_in(old(ps)@, symbol@) + shares) - units_in(old(ps)@, symbol@)),
        forall|s: Seq<char>|
            has_position(final(ps)@, s) <==> has_position(old(ps)@, s) || s == symbol@,
{
    proof {
        lemma_units_in_nonneg(old(ps)@, symbol@);
    }
    let ghost ps0 = old(ps)@;
    let found = find_pos_idx(ps, symbol);
    let old_shares: u64 = match found {
        Option::Some(j) => ps[j].shares,
        Option::None => 0,
    };
    proof {
        match found {
            Option::Some(j) => lemma_units_in_at(ps0, j as int, symbol@),
            Option::None => lemma_units_in_absent(ps0, symbol@),
        }
    }
    let new_shares: u64 = apply_change(old_shares, shares);
    match found {
        Option::Some(j) => {
            let sym2 = ps[j].symbol.clone();
            let p = Position { symbol: sym2, shares: new_shares };
            ps.set(j, p);
            proof {
                lemma_units_in_update(ps0, j as int, p, symbol@);
                assert forall|s: Seq<char>| s != symbol@ implies units_in(ps@, s) == units_in(
                    ps0,
                    s,
                ) by {
                    lemma_units_in_update(ps0, j as int, p, s);
                }
                assert forall|m: Seq<Investment>| #[trigger] holding_value(ps@, m)
                    == holding_value(ps0, m) + price_or0(m, symbol@) * (new_shares as int
                    - old_shares as int) by {
                    lemma_holding_value_update(ps0, j as int, p, m);
                    assert(price_or0(m, symbol@) * (new_shares as int - old_shares as int)
                        == new_shares as int * price_or0(m, symbol@) - old_shares as int
                        * price_or0(m, symbol@)) by (nonlinear_arith);
                }
                assert forall|s: Seq<char>|
                    has_position(ps@, s) <==> has_position(ps0, s) || s == symbol@ by {
                    if has_position(ps@, s) {
                        let w = choose|w: int| 0 <= w < ps@.len() && ps@[w].symbol@ == s;
                        if w != j {
                            assert(ps0[w].symbol@ == s);
                        }
                    }
                    if has_position(ps0, s) {
                        let w = choose|w: int| 0 <= w < ps0.len() && ps0[w].symbol@ == s;
                        if w != j {
                            assert(ps@[w].symbol@ == s);
                        } else {
                            assert(ps@[w].symbol@ == symbol@);
                        }
                    }
                    if s == symbol@ {
                        assert(ps@[j as int].symbol@ == symbol@);
                    }
                }
            }
        }
        Option::None => {
            let p = Position { symbol: symbol.to_owned(), shares: new_shares };
            ps.push(p);
            proof {
                lemma_units_in_push(ps0, p, symbol@);
                assert forall|s: Seq<char>| s != symbol@ implies units_in(ps@, s) == units_in(
                    ps0,
                    s,
                ) by {
                    lemma_units_in_push(ps0, p, s);
                }
                assert forall|m: Seq<Investment>| #[trigger] holding_value(ps@, m)
                    == holding_value(ps0, m) + price_or0(m, symbol@) * (new_shares as int
                    - old_shares as int) by {
                    lemma_holding_value_push(ps0, p, m);
                    assert(price_or0(m, symbol@) * (new_shares as int - old_shares as int)
                        == new_shares as int * price_or0(m, symbol@) - old_shares as int
                        * price_or0(m, symbol@)) by (nonlinear_arith);
                }
                assert forall|s: Seq<char>|
                    has_position(ps@, s) <==> has_position(ps0, s) || s == symbol@ by {
                    assert(ps@[ps0.len() as int].symbol@ == symbol@);
                    if has_position(ps@, s) && s != symbol@ {
                        let w = choose|w: int| 0 <= w < ps@.len() && ps@[w].symbol@ == s;
                        assert(0 <= w < ps0.len() && ps0[w].symbol@ == s);
                    }
                    if has_position(ps0, s) {
                        let w = choose|w: int| 0 <= w < ps0.len() && ps0[w].symbol@ == s;
                        assert(ps@[w].symbol@ == s);
                    }
                }
            }
        }
    }
    new_shares
}

} // verus!
