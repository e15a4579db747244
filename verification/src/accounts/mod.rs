pub mod balancer;
pub mod results;

pub use results::Results;
pub use results::CashBalance;
pub use results::AccountPositions;
pub use results::Allocation;

use vstd::prelude::*;

verus! {

/// All money amounts are integer cents; share counts are whole numbers.
/// Target weights and dividend yields are expressed in parts per million
/// (ppm), so a weight of one million stands for 100% of the portfolio.
pub const PPM_SCALE: u64 = 1_000_000;

/// Tolerance for the validation of target weights: they must sum to
/// 1.0 within one percent, i.e. to `PPM_SCALE` within `PPM_TOLERANCE`.
pub const PPM_TOLERANCE: u64 = 10_000;

/// Upper bound on any single money amount (in cents) and on the gross value
/// of a whole portfolio that the planner accepts: one trillion cents.
pub const MAX_MONEY: u64 = 1_000_000_000_000;

/// Upper bound on a single target weight or dividend yield in ppm.
pub const MAX_PPM: u64 = 2_000_000;

/// Upper bound on the number of target entries that `validate` accepts.
pub const MAX_TARGETS: usize = 100_000;

/// One tradable instrument of the market snapshot: a symbol, its price in
/// cents, and an optional dividend yield in ppm.
pub struct Investment {
    pub symbol: String,
    pub price: u64,
    pub div_yield: Option<u64>,
}

/// A number of whole shares of one symbol.
pub struct Position {
    pub symbol: String,
    pub shares: u64,
}

/// One entry of the target allocation: this symbol should make up
/// `weight` ppm of the total portfolio value.
pub struct TargetWeight {
    pub symbol: String,
    pub weight: u64,
}

/// One account of the portfolio. `cash` may be negative (margin deficit).
pub struct Account {
    pub name: String,
    pub tax_sheltered: bool,
    pub cash: i64,
    pub positions: Vec<Position>,
}

/// The full rebalancing request: target weights, the accounts, the market
/// snapshot and the sale policy flags.
pub struct Portfolio {
    pub target: Vec<TargetWeight>,
    pub accounts: Vec<Account>,
    pub market: Vec<Investment>,
    pub no_taxed_sales: Option<bool>,
    pub no_sale_accounts: Vec<String>,
}

/// A dividend yield, with a missing yield read as zero.
pub open spec fn yield_or0(o: Option<u64>) -> int {
    match o {
        Option::Some(y) => y as int,
        Option::None => 0,
    }
}

/// Whether the market snapshot carries a price for `sym`.
pub open spec fn market_has(m: Seq<Investment>, sym: Seq<char>) -> bool {
    exists|i: int| 0 <= i < m.len() && m[i].symbol@ == sym
}

/// The price of `sym` in the market snapshot: the first entry with that
/// symbol decides; a symbol without an entry is priced at zero.
pub open spec fn price_or0(m: Seq<Investment>, sym: Seq<char>) -> int
    decreases m.len(),
{
    if m.len() == 0 {
        0
    } else if m[0].symbol@ == sym {
        m[0].price as int
    } else {
        price_or0(m.drop_first(), sym)
    }
}

/// The shares of `sym` held in a position list, summed over all entries
/// with that symbol (a well-formed list has at most one).
pub open spec fn units_in(ps: Seq<Position>, sym: Seq<char>) -> int
    decreases ps.len(),
{
    if ps.len() == 0 {
        0
    } else {
        units_in(ps.drop_last(), sym) + if ps.last().symbol@ == sym {
            ps.last().shares as int
        } else {
            0
        }
    }
}

/// Whether a position list has an entry for `sym` (possibly of zero shares).
pub open spec fn has_position(ps: Seq<Position>, sym: Seq<char>) -> bool {
    exists|i: int| 0 <= i < ps.len() && ps[i].symbol@ == sym
}

/// The market value of a position list: the sum of shares times price
/// over its entries, with unpriced symbols contributing nothing.
pub open spec fn holding_value(ps: Seq<Position>, m: Seq<Investment>) -> int
    decreases ps.len(),
{
    if ps.len() == 0 {
        0
    } else {
        holding_value(ps.drop_last(), m) + ps.last().shares * price_or0(m, ps.last().symbol@)
    }
}

/// The sum of the cash balances of a list of accounts.
pub open spec fn sum_accounts_cash(accs: Seq<Account>) -> int
    decreases accs.len(),
{
    if accs.len() == 0 {
        0
    } else {
        sum_accounts_cash(accs.drop_last()) + accs.last().cash as int
    }
}

/// The market value of the holdings of a list of accounts.
pub open spec fn accounts_hold_value(accs: Seq<Account>, m: Seq<Investment>) -> int
    decreases accs.len(),
{
    if accs.len() == 0 {
        0
    } else {
        accounts_hold_value(accs.drop_last(), m) + holding_value(
            accs.last().positions@,
            m,
        )
    }
}

/// The shares of `sym` held across a list of accounts.
pub open spec fn acc_units(accs: Seq<Account>, sym: Seq<char>) -> int
    decreases accs.len(),
{
    if accs.len() == 0 {
        0
    } else {
        acc_units(accs.drop_last(), sym) + units_in(accs.last().positions@, sym)
    }
}

/// The target weight of `sym`, summed over all entries with that symbol
/// (a well-formed target has at most one); absent symbols weigh zero.
pub open spec fn weight_of(ts: Seq<TargetWeight>, sym: Seq<char>) -> int
    decreases ts.len(),
{
    if ts.len() == 0 {
        0
    } else {
        weight_of(ts.drop_last(), sym) + if ts.last().symbol@ == sym {
            ts.last().weight as int
        } else {
            0
        }
    }
}

/// Whether the target allocation names `sym`.
pub open spec fn has_target(ts: Seq<TargetWeight>, sym: Seq<char>) -> bool {
    exists|i: int| 0 <= i < ts.len() && ts[i].symbol@ == sym
}

/// The sum of all target weights.
pub open spec fn sum_weights(ts: Seq<TargetWeight>) -> int
    decreases ts.len(),
{
    if ts.len() == 0 {
        0
    } else {
        sum_weights(ts.drop_last()) + ts.last().weight as int
    }
}

/// Whether a list of names contains `name`.
pub open spec fn name_listed(names: Seq<String>, name: Seq<char>) -> bool {
    exists|i: int| 0 <= i < names.len() && names[i]@ == name
}

/// The total value of one account: its cash plus the market value of its
/// positions.
pub open spec fn account_value(a: Account, m: Seq<Investment>) -> int {
    a.cash + holding_value(a.positions@, m)
}

/// The total value of a portfolio: cash plus holdings over all accounts.
pub open spec fn portfolio_value(p: Portfolio) -> int {
    sum_accounts_cash(p.accounts@) + accounts_hold_value(p.accounts@, p.market@)
}

/// The gross size of one account: the magnitude of its cash plus the
/// market value of its positions. Used only to bound machine arithmetic.
pub open spec fn account_gross(a: Account, m: Seq<Investment>) -> int {
    abs_of(a.cash as int) + holding_value(a.positions@, m)
}

/// The gross size of a portfolio, summed over its accounts.
pub open spec fn portfolio_gross(accs: Seq<Account>, m: Seq<Investment>) -> int
    decreases accs.len(),
{
    if accs.len() == 0 {
        0
    } else {
        portfolio_gross(accs.drop_last(), m) + account_gross(accs.last(), m)
    }
}

/// The magnitude of an integer.
pub open spec fn abs_of(x: int) -> int {
    if x >= 0 {
        x
    } else {
        -x
    }
}

/// No two entries of a position list share a symbol.
pub open spec fn distinct_positions(ps: Seq<Position>) -> bool {
    forall|i: int, j: int| 0 <= i < j < ps.len() ==> ps[i].symbol@ != ps[j].symbol@
}

/// No two market entries share a symbol.
pub open spec fn distinct_market(m: Seq<Investment>) -> bool {
    forall|i: int, j: int| 0 <= i < j < m.len() ==> m[i].symbol@ != m[j].symbol@
}

/// No two target entries share a symbol.
pub open spec fn distinct_targets(ts: Seq<TargetWeight>) -> bool {
    forall|i: int, j: int| 0 <= i < j < ts.len() ==> ts[i].symbol@ != ts[j].symbol@
}

/// No two accounts share a name.
pub open spec fn distinct_account_names(accs: Seq<Account>) -> bool {
    forall|i: int, j: int| 0 <= i < j < accs.len() ==> accs[i].name@ != accs[j].name@
}

impl Portfolio {
    /// The well-formedness that the planner relies on: validated input
    /// (all held and targeted symbols priced, positive prices) plus the
    /// bounds that keep every intermediate amount within machine range.
    pub open spec fn ok(self) -> bool {
        &&& distinct_market(self.market@)
        &&& distinct_targets(self.target@)
        &&& distinct_account_names(self.accounts@)
        &&& forall|i: int|
            0 <= i < self.accounts.len() ==> distinct_positions(
                #[trigger] self.accounts[i].positions@,
            )
        &&& forall|i: int|
            0 <= i < self.market.len() ==> 1 <= (#[trigger] self.market[i].price as int)
                <= MAX_MONEY as int
        &&& forall|i: int|
            0 <= i < self.market.len() ==> yield_or0(#[trigger] self.market[i].div_yield)
                <= MAX_PPM as int
        &&& forall|i: int|
            0 <= i < self.target.len() ==> (#[trigger] self.target[i].weight as int)
                <= MAX_PPM as int
        &&& forall|i: int|
            0 <= i < self.target.len() ==> market_has(self.market@, #[trigger] self.target[i].symbol@)
        &&& forall|i: int, j: int|
            0 <= i < self.accounts.len() && 0 <= j < self.accounts[i].positions.len()
                ==> market_has(self.market@, #[trigger] self.accounts[i].positions[j].symbol@)
        &&& portfolio_gross(self.accounts@, self.market@) <= MAX_MONEY as int
    }
}

/// A difference clamped at zero: positions never go negative.
pub open spec fn clamp0(x: int) -> int {
    if x >= 0 {
        x
    } else {
        0
    }
}

/// Relies on str's PartialEq: two string slices are equal exactly when
/// their characters are.
#[verifier::external_body]
pub(crate) fn str_eq(a: &str, b: &str) -> (r: bool)
    ensures
        r == (a@ == b@),
{
    a == b
}

pub proof fn lemma_price_or0_first(m: Seq<Investment>, i: int, sym: Seq<char>)
    requires
        0 <= i < m.len(),
        m[i].symbol@ == sym,
        forall|k: int| 0 <= k < i ==> m[k].symbol@ != sym,
    ensures
        price_or0(m, sym) == m[i].price,
        market_has(m, sym),
    decreases i,
{
    if i > 0 {
        lemma_price_or0_first(m.drop_first(), i - 1, sym);
    }
}

pub proof fn lemma_price_or0_absent(m: Seq<Investment>, sym: Seq<char>)
    requires
        forall|k: int| 0 <= k < m.len() ==> m[k].symbol@ != sym,
    ensures
        price_or0(m, sym) == 0,
        !market_has(m, sym),
    decreases m.len(),
{
    if m.len() > 0 {
        lemma_price_or0_absent(m.drop_first(), sym);
    }
}

pub proof fn lemma_price_or0_nonneg(m: Seq<Investment>, sym: Seq<char>)
    ensures
        0 <= price_or0(m, sym),
    decreases m.len(),
{
    if m.len() > 0 && m[0].symbol@ != sym {
        lemma_price_or0_nonneg(m.drop_first(), sym);
    }
}

pub proof fn lemma_units_in_nonneg(ps: Seq<Position>, sym: Seq<char>)
    ensures
        0 <= units_in(ps, sym),
    decreases ps.len(),
{
    if ps.len() > 0 {
        lemma_units_in_nonneg(ps.drop_last(), sym);
    }
}

pub proof fn lemma_holding_value_nonneg(ps: Seq<Position>, m: Seq<Investment>)
    ensures
        0 <= holding_value(ps, m),
    decreases ps.len(),
{
    if ps.len() > 0 {
        lemma_holding_value_nonneg(ps.drop_last(), m);
        lemma_price_or0_nonneg(m, ps.last().symbol@);
    }
}

impl Investment {
    pub fn new(symbol: &str, price: u64) -> (r: Investment)
        ensures
            r.symbol@ == symbol@,
            r.price == price,
            r.div_yield is None,
    {
        Investment { symbol: symbol.to_owned(), price, div_yield: None }
    }
}

/// The index of the first position entry for `sym`, if any.
pub(crate) fn find_pos_idx(ps: &Vec<Position>, sym: &str) -> (r: Option<usize>)
    ensures
        match r {
            Option::Some(j) => j < ps@.len() && ps@[j as int].symbol@ == sym@ && forall|k: int|
                0 <= k < j ==> ps@[k].symbol@ != sym@,
            Option::None => forall|k: int| 0 <= k < ps@.len() ==> ps@[k].symbol@ != sym@,
        },
{
    let mut j: usize = 0;
    while j < ps.len()
        invariant
            j <= ps@.len(),
            forall|k: int| 0 <= k < j ==> ps@[k].symbol@ != sym@,
        decreases ps@.len() - j,
    {
        if str_eq(ps[j].symbol.as_str(), sym) {
            return Option::Some(j);
        }
        j = j + 1;
    }
    Option::None
}

/// The index of the first market entry for `sym`, if any.
pub(crate) fn find_inv_idx(m: &Vec<Investment>, sym: &str) -> (r: Option<usize>)
    ensures
        match r {
            Option::Some(j) => j < m@.len() && m@[j as int].symbol@ == sym@ && forall|k: int|
                0 <= k < j ==> m@[k].symbol@ != sym@,
            Option::None => forall|k: int| 0 <= k < m@.len() ==> m@[k].symbol@ != sym@,
        },
{
    let mut j: usize = 0;
    while j < m.len()
        invariant
            j <= m@.len(),
            forall|k: int| 0 <= k < j ==> m@[k].symbol@ != sym@,
        decreases m@.len() - j,
    {
        if str_eq(m[j].symbol.as_str(), sym) {
            return Option::Some(j);
        }
        j = j + 1;
    }
    Option::None
}

/// The index of the first target entry for `sym`, if any.
pub(crate) fn find_target_idx(ts: &Vec<TargetWeight>, sym: &str) -> (r: Option<usize>)
    ensures
        match r {
            Option::Some(j) => j < ts@.len() && ts@[j as int].symbol@ == sym@ && forall|k: int|
                0 <= k < j ==> ts@[k].symbol@ != sym@,
            Option::None => forall|k: int| 0 <= k < ts@.len() ==> ts@[k].symbol@ != sym@,
        },
{
    let mut j: usize = 0;
    while j < ts.len()
        invariant
            j <= ts@.len(),
            forall|k: int| 0 <= k < j ==> ts@[k].symbol@ != sym@,
        decreases ts@.len() - j,
    {
        if str_eq(ts[j].symbol.as_str(), sym) {
            return Option::Some(j);
        }
        j = j + 1;
    }
    Option::None
}

/// Whether a list of account names contains `name`.
pub(crate) fn names_contain(names: &Vec<String>, name: &str) -> (r: bool)
    ensures
        r == name_listed(names@, name@),
{
    let mut j: usize = 0;
    while j < names.len()
        invariant
            j <= names@.len(),
            forall|k: int| 0 <= k < j ==> names@[k]@ != name@,
        decreases names@.len() - j,
    {
        if str_eq(names[j].as_str(), name) {
            assert(name_listed(names@, name@));
            return true;
        }
        j = j + 1;
    }
    false
}

// ---------------------------------------------------------------------------
// Prefix and bound lemmas for the account-side sums.
// ---------------------------------------------------------------------------

pub proof fn lemma_units_in_prefix(ps: Seq<Position>, sym: Seq<char>, j: int)
    requires
        0 <= j < ps.len(),
    ensures
        units_in(ps.subrange(0, j + 1), sym) == units_in(ps.subrange(0, j), sym) + (if ps[j].symbol@
            == sym {
            ps[j].shares as int
        } else {
            0
        }),
{
    assert(ps.subrange(0, j + 1).drop_last() =~= ps.subrange(0, j));
}

pub proof fn lemma_holding_value_prefix(ps: Seq<Position>, m: Seq<Investment>, j: int)
    requires
        0 <= j < ps.len(),
    ensures
        holding_value(ps.subrange(0, j + 1), m) == holding_value(ps.subrange(0, j), m) + ps[j].shares
            * price_or0(m, ps[j].symbol@),
{
    assert(ps.subrange(0, j + 1).drop_last() =~= ps.subrange(0, j));
}

pub proof fn lemma_holding_value_prefix_le(ps: Seq<Position>, m: Seq<Investment>, j: int)
    requires
        0 <= j <= ps.len(),
    ensures
        holding_value(ps.subrange(0, j), m) <= holding_value(ps, m),
    decreases ps.len() - j,
{
    if j == ps.len() {
        assert(ps.subrange(0, j) =~= ps);
    } else {
        lemma_holding_value_prefix(ps, m, j);
        lemma_holding_value_prefix_le(ps, m, j + 1);
        lemma_price_or0_nonneg(m, ps[j].symbol@);
        assert(ps[j].shares * price_or0(m, ps[j].symbol@) >= 0) by (nonlinear_arith)
            requires
                ps[j].shares as int >= 0,
                price_or0(m, ps[j].symbol@) >= 0,
        ;
    }
}

pub proof fn lemma_account_gross_nonneg(a: Account, m: Seq<Investment>)
    ensures
        account_gross(a, m) >= 0,
        abs_of(account_value(a, m)) <= account_gross(a, m),
{
    lemma_holding_value_nonneg(a.positions@, m);
}

pub proof fn lemma_portfolio_gross_prefix(accs: Seq<Account>, m: Seq<Investment>, i: int)
    requires
        0 <= i < accs.len(),
    ensures
        portfolio_gross(accs.subrange(0, i + 1), m) == portfolio_gross(accs.subrange(0, i), m)
            + account_gross(accs[i], m),
{
    assert(accs.subrange(0, i + 1).drop_last() =~= accs.subrange(0, i));
}

pub proof fn lemma_portfolio_gross_prefix_le(accs: Seq<Account>, m: Seq<Investment>, i: int)
    requires
        0 <= i <= accs.len(),
    ensures
        portfolio_gross(accs.subrange(0, i), m) <= portfolio_gross(accs, m),
    decreases accs.len() - i,
{
    if i == accs.len() {
        assert(accs.subrange(0, i) =~= accs);
    } else {
        lemma_portfolio_gross_prefix(accs, m, i);
        lemma_portfolio_gross_prefix_le(accs, m, i + 1);
        lemma_account_gross_nonneg(accs[i], m);
    }
}

pub proof fn lemma_sum_accounts_cash_prefix(accs: Seq<Account>, i: int)
    requires
        0 <= i < accs.len(),
    ensures
        sum_accounts_cash(accs.subrange(0, i + 1)) == sum_accounts_cash(accs.subrange(0, i))
            + accs[i].cash,
{
    assert(accs.subrange(0, i + 1).drop_last() =~= accs.subrange(0, i));
}

pub proof fn lemma_accounts_hold_value_prefix(accs: Seq<Account>, m: Seq<Investment>, i: int)
    requires
        0 <= i < accs.len(),
    ensures
        accounts_hold_value(accs.subrange(0, i + 1), m) == accounts_hold_value(
            accs.subrange(0, i),
            m,
        ) + holding_value(accs[i].positions@, m),
{
    assert(accs.subrange(0, i + 1).drop_last() =~= accs.subrange(0, i));
}

pub proof fn lemma_acc_units_prefix(accs: Seq<Account>, sym: Seq<char>, i: int)
    requires
        0 <= i < accs.len(),
    ensures
        acc_units(accs.subrange(0, i + 1), sym) == acc_units(accs.subrange(0, i), sym) + units_in(
            accs[i].positions@,
            sym,
        ),
{
    assert(accs.subrange(0, i + 1).drop_last() =~= accs.subrange(0, i));
}

/// The value of one account splits as cash plus holdings, summed over a
/// whole prefix of the account list.
pub proof fn lemma_value_decomposition(accs: Seq<Account>, m: Seq<Investment>, i: int)
    requires
        0 <= i < accs.len(),
    ensures
        sum_accounts_cash(accs.subrange(0, i + 1)) + accounts_hold_value(accs.subrange(0, i + 1), m)
            == sum_accounts_cash(accs.subrange(0, i)) + accounts_hold_value(accs.subrange(0, i), m)
            + account_value(accs[i], m),
{
    lemma_sum_accounts_cash_prefix(accs, i);
    lemma_accounts_hold_value_prefix(accs, m, i);
}

impl Account {
    /// A new, empty, taxable account with the given name.
    pub fn new(name: &str) -> (r: Account)
        ensures
            r.name@ == name@,
            r.tax_sheltered == false,
            r.cash == 0,
            r.positions@.len() == 0,
    {
        Account { name: name.to_owned(), tax_sheltered: false, cash: 0, positions: Vec::new() }
    }

    /// Sets (or creates) this account's position in `symbol` to exactly
    /// `shares`, as a map insertion would.
    pub fn set_position(&mut self, symbol: &str, shares: u64)
        ensures
            final(self).name@ == old(self).name@,
            final(self).name == old(self).name,
            final(self).tax_sheltered == old(self).tax_sheltered,
            final(self).cash == old(self).cash,
            distinct_positions(old(self).positions@) ==> distinct_positions(
                final(self).positions@,
            ),
            distinct_positions(old(self).positions@) ==> units_in(final(self).positions@, symbol@)
                == shares,
            forall|s: Seq<char>|
                s != symbol@ ==> units_in(final(self).positions@, s) == units_in(
                    old(self).positions@,
                    s,
                ),
            forall|s: Seq<char>|
                has_position(final(self).positions@, s) <==> has_position(old(self).positions@, s)
                    || s == symbol@,
    {
        let ghost ps0 = self.positions@;
        match find_pos_idx(&self.positions, symbol) {
            Option::Some(j) => {
                let sym2 = self.positions[j].symbol.clone();
                let p = Position { symbol: sym2, shares };
                self.positions.set(j, p);
                proof {
                    if distinct_positions(ps0) {
                        results::lemma_units_in_at(
                            self.positions@,
                            j as int,
                            symbol@,
                        );
                    }
                    assert forall|s: Seq<char>| s != symbol@ implies units_in(self.positions@, s)
                        == units_in(ps0, s) by {
                        results::lemma_units_in_update(ps0, j as int, p, s);
                    }
                    assert forall|s: Seq<char>|
                        has_position(self.positions@, s) <==> has_position(ps0, s) || s
                            == symbol@ by {
                        if has_position(self.positions@, s) {
                            let w = choose|w: int|
                                0 <= w < self.positions@.len() && self.positions@[w].symbol@ == s;
                            if w != j {
                                assert(ps0[w].symbol@ == s);
                            }
                        }
                        if has_position(ps0, s) {
                            let w = choose|w: int| 0 <= w < ps0.len() && ps0[w].symbol@ == s;
                            if w != j {
                                assert(self.positions@[w].symbol@ == s);
                            } else {
                                assert(self.positions@[w].symbol@ == symbol@);
                            }
                        }
                    }
                }
            }
            Option::None => {
                let p = Position { symbol: symbol.to_owned(), shares };
                self.positions.push(p);
                proof {
                    if distinct_positions(ps0) {
                        results::lemma_units_in_push(ps0, p, symbol@);
                        results::lemma_units_in_absent(ps0, symbol@);
                    }
                    assert forall|s: Seq<char>| s != symbol@ implies units_in(self.positions@, s)
                        == units_in(ps0, s) by {
                        results::lemma_units_in_push(ps0, p, s);
                    }
                    assert forall|s: Seq<char>|
                        has_position(self.positions@, s) <==> has_position(ps0, s) || s
                            == symbol@ by {
                        assert(self.positions@[ps0.len() as int].symbol@ == symbol@);
                        if has_position(self.positions@, s) && s != symbol@ {
                            let w = choose|w: int|
                                0 <= w < self.positions@.len() && self.positions@[w].symbol@ == s;
                            assert(0 <= w < ps0.len() && ps0[w].symbol@ == s);
                        }
                        if has_position(ps0, s) {
                            let w = choose|w: int| 0 <= w < ps0.len() && ps0[w].symbol@ == s;
                            assert(self.positions@[w].symbol@ == s);
                        }
                    }
                }
            }
        }
    }

    /// The total value of this account at the given market prices: cash
    /// plus shares times price, with unpriced symbols contributing nothing.
    pub fn value(&self, market: &Vec<Investment>) -> (r: i64)
        requires
            account_gross(*self, market@) <= MAX_MONEY as int,
        ensures
            r as int == account_value(*self, market@),
    {
        proof {
            lemma_holding_value_nonneg(self.positions@, market@);
        }
        let mut held: i64 = 0;
        let mut j: usize = 0;
        while j < self.positions.len()
            invariant
                j <= self.positions@.len(),
                held as int == holding_value(self.positions@.subrange(0, j as int), market@),
                0 <= held as int <= holding_value(self.positions@, market@),
                holding_value(self.positions@, market@) + abs_of(self.cash as int) <= MAX_MONEY
                    as int,
            decreases self.positions@.len() - j,
        {
            let p = &self.positions[j];
            proof {
                lemma_holding_value_prefix(self.positions@, market@, j as int);
                lemma_holding_value_prefix_le(self.positions@, market@, j as int + 1);
            }
            match find_inv_idx(market, p.symbol.as_str()) {
                Option::Some(k) => {
                    proof {
                        lemma_price_or0_first(market@, k as int, p.symbol@);
                    }
                    let term: u128 = (p.shares as u128) * (market[k].price as u128);
                    held = held + (term as i64);
                }
                Option::None => {
                    proof {
                        lemma_price_or0_absent(market@, p.symbol@);
                    }
                }
            }
            j = j + 1;
        }
        proof {
            assert(self.positions@.subrange(0, self.positions@.len() as int) =~= self.positions@);
        }
        self.cash + held
    }
}

impl Portfolio {
    /// An empty portfolio with no targets, accounts or market data.
    pub fn new() -> (r: Portfolio)
        ensures
            r.target@.len() == 0,
            r.accounts@.len() == 0,
            r.market@.len() == 0,
            r.no_taxed_sales is None,
            r.no_sale_accounts@.len() == 0,
    {
        Portfolio {
            target: Vec::new(),
            accounts: Vec::new(),
            market: Vec::new(),
            no_taxed_sales: None,
            no_sale_accounts: Vec::new(),
        }
    }

    /// Whether taxable accounts may sell: the `no_taxed_sales` flag
    /// defaults to allowing sales.
    pub open spec fn spec_can_sell_taxed(self) -> bool {
        self.no_taxed_sales != Option::<bool>::Some(true)
    }

    pub fn can_sell_taxed(&self) -> (r: bool)
        ensures
            r == self.spec_can_sell_taxed(),
    {
        match self.no_taxed_sales {
            Option::Some(no_sales) => !no_sales,
            Option::None => true,
        }
    }

    /// Sets (or creates) the target weight for `symbol`, in ppm, as a map
    /// insertion would.
    pub fn set_target(&mut self, symbol: &str, weight: u64)
        ensures
            final(self).accounts@ == old(self).accounts@,
            final(self).market@ == old(self).market@,
            final(self).no_taxed_sales == old(self).no_taxed_sales,
            final(self).no_sale_accounts@ == old(self).no_sale_accounts@,
            distinct_targets(old(self).target@) ==> distinct_targets(final(self).target@)
                && weight_of(final(self).target@, symbol@) == weight,
            forall|s: Seq<char>|
                s != symbol@ ==> weight_of(final(self).target@, s) == weight_of(
                    old(self).target@,
                    s,
                ),
            forall|s: Seq<char>|
                has_target(final(self).target@, s) <==> has_target(old(self).target@, s) || s
                    == symbol@,
    {
        let ghost ts0 = self.target@;
        match find_target_idx(&self.target, symbol) {
            Option::Some(j) => {
                let sym2 = self.target[j].symbol.clone();
                let t = TargetWeight { symbol: sym2, weight };
                self.target.set(j, t);
                proof {
                    lemma_weight_of_update(ts0, j as int, t, symbol@);
                    if distinct_targets(ts0) {
                        lemma_weight_of_at(self.target@, j as int, symbol@);
                    }
                    assert forall|s: Seq<char>| s != symbol@ implies weight_of(self.target@, s)
                        == weight_of(ts0, s) by {
                        lemma_weight_of_update(ts0, j as int, t, s);
                    }
                    assert forall|s: Seq<char>|
                        has_target(self.target@, s) <==> has_target(ts0, s) || s == symbol@ by {
                        if has_target(self.target@, s) {
                            let w = choose|w: int|
                                0 <= w < self.target@.len() && self.target@[w].symbol@ == s;
                            if w != j {
                                assert(ts0[w].symbol@ == s);
                            }
                        }
                        if has_target(ts0, s) {
                            let w = choose|w: int| 0 <= w < ts0.len() && ts0[w].symbol@ == s;
                            if w != j {
                                assert(self.target@[w].symbol@ == s);
                            } else {
                                assert(self.target@[w].symbol@ == symbol@);
                            }
                        }
                    }
                }
            }
            Option::None => {
                let t = TargetWeight { symbol: symbol.to_owned(), weight };
                self.target.push(t);
                proof {
                    lemma_weight_of_push(ts0, t, symbol@);
                    if distinct_targets(ts0) {
                        lemma_weight_of_absent(ts0, symbol@);
                    }
                    assert forall|s: Seq<char>| s != symbol@ implies weight_of(self.target@, s)
                        == weight_of(ts0, s) by {
                        lemma_weight_of_push(ts0, t, s);
                    }
                    assert forall|s: Seq<char>|
                        has_target(self.target@, s) <==> has_target(ts0, s) || s == symbol@ by {
                        assert(self.target@[ts0.len() as int].symbol@ == symbol@);
                        if has_target(self.target@, s) && s != symbol@ {
                            let w = choose|w: int|
                                0 <= w < self.target@.len() && self.target@[w].symbol@ == s;
                            assert(0 <= w < ts0.len() && ts0[w].symbol@ == s);
                        }
                        if has_target(ts0, s) {
                            let w = choose|w: int| 0 <= w < ts0.len() && ts0[w].symbol@ == s;
                            assert(self.target@[w].symbol@ == s);
                        }
                    }
                }
            }
        }
    }
}

pub proof fn lemma_portfolio_gross_nonneg(accs: Seq<Account>, m: Seq<Investment>)
    ensures
        portfolio_gross(accs, m) >= 0,
    decreases accs.len(),
{
    if accs.len() > 0 {
        lemma_portfolio_gross_nonneg(accs.drop_last(), m);
        lemma_account_gross_nonneg(accs.last(), m);
    }
}

pub proof fn lemma_units_in_prefix_le(ps: Seq<Position>, sym: Seq<char>, j: int)
    requires
        0 <= j <= ps.len(),
    ensures
        units_in(ps.subrange(0, j), sym) <= units_in(ps, sym),
    decreases ps.len() - j,
{
    if j == ps.len() {
        assert(ps.subrange(0, j) =~= ps);
    } else {
        lemma_units_in_prefix(ps, sym, j);
        lemma_units_in_prefix_le(ps, sym, j + 1);
    }
}

pub proof fn lemma_acc_units_prefix_le(accs: Seq<Account>, sym: Seq<char>, i: int)
    requires
        0 <= i <= accs.len(),
    ensures
        acc_units(accs.subrange(0, i), sym) <= acc_units(accs, sym),
    decreases accs.len() - i,
{
    if i == accs.len() {
        assert(accs.subrange(0, i) =~= accs);
    } else {
        lemma_acc_units_prefix(accs, sym, i);
        lemma_acc_units_prefix_le(accs, sym, i + 1);
        lemma_units_in_nonneg(accs[i].positions@, sym);
    }
}

/// A symbol's aggregated shares, valued at its own price, never exceed the
/// market value of the whole position list.
pub proof fn lemma_units_price_le_hv(ps: Seq<Position>, m: Seq<Investment>, sym: Seq<char>)
    ensures
        units_in(ps, sym) * price_or0(m, sym) <= holding_value(ps, m),
    decreases ps.len(),
{
    lemma_price_or0_nonneg(m, sym);
    if ps.len() > 0 {
        lemma_units_price_le_hv(ps.drop_last(), m, sym);
        let last = ps.last();
        if last.symbol@ == sym {
            assert((units_in(ps.drop_last(), sym) + last.shares) * price_or0(m, sym) == units_in(
                ps.drop_last(),
                sym,
            ) * price_or0(m, sym) + last.shares * price_or0(m, sym)) by (nonlinear_arith);
        } else {
            lemma_price_or0_nonneg(m, last.symbol@);
            assert(last.shares * price_or0(m, last.symbol@) >= 0) by (nonlinear_arith)
                requires
                    last.shares as int >= 0,
                    price_or0(m, last.symbol@) >= 0,
            ;
        }
    }
}

/// The same bound lifted over a whole account list.
pub proof fn lemma_acc_units_price_le(accs: Seq<Account>, m: Seq<Investment>, sym: Seq<char>)
    ensures
        acc_units(accs, sym) * price_or0(m, sym) <= accounts_hold_value(accs, m),
    decreases accs.len(),
{
    lemma_price_or0_nonneg(m, sym);
    if accs.len() > 0 {
        lemma_acc_units_price_le(accs.drop_last(), m, sym);
        lemma_units_price_le_hv(accs.last().positions@, m, sym);
        assert((acc_units(accs.drop_last(), sym) + units_in(accs.last().positions@, sym))
            * price_or0(m, sym) == acc_units(accs.drop_last(), sym) * price_or0(m, sym) + units_in(
            accs.last().positions@,
            sym,
        ) * price_or0(m, sym)) by (nonlinear_arith);
    }
}

pub proof fn lemma_ahv_le_gross(accs: Seq<Account>, m: Seq<Investment>)
    ensures
        accounts_hold_value(accs, m) <= portfolio_gross(accs, m),
    decreases accs.len(),
{
    if accs.len() > 0 {
        lemma_ahv_le_gross(accs.drop_last(), m);
    }
}

pub proof fn lemma_price_or0_pos(m: Seq<Investment>, sym: Seq<char>)
    requires
        market_has(m, sym),
        forall|k: int| 0 <= k < m.len() ==> 1 <= (#[trigger] m[k].price as int),
    ensures
        price_or0(m, sym) >= 1,
    decreases m.len(),
{
    if m.len() > 0 && m[0].symbol@ != sym {
        assert(market_has(m.drop_first(), sym)) by {
            let w = choose|w: int| 0 <= w < m.len() && m[w].symbol@ == sym;
            assert(m.drop_first()[w - 1].symbol@ == sym);
        }
        lemma_price_or0_pos(m.drop_first(), sym);
    }
}

/// With validated input, the shares of one symbol held across all
/// accounts fit comfortably in machine range.
pub proof fn lemma_acc_units_bound(accs: Seq<Account>, m: Seq<Investment>, sym: Seq<char>)
    requires
        market_has(m, sym),
        forall|k: int| 0 <= k < m.len() ==> 1 <= (#[trigger] m[k].price as int),
        portfolio_gross(accs, m) <= MAX_MONEY as int,
    ensures
        0 <= acc_units(accs, sym) <= MAX_MONEY as int,
    decreases accs.len(),
{
    lemma_price_or0_pos(m, sym);
    lemma_acc_units_price_le(accs, m, sym);
    lemma_ahv_le_gross(accs, m);
    if accs.len() > 0 {
        lemma_acc_units_prefix_le(accs, sym, 0);
        assert(accs.subrange(0, 0) =~= Seq::<Account>::empty());
    }
    assert(acc_units(accs, sym) >= 0) by {
        if accs.len() == 0 {
        } else {
            lemma_acc_units_bound_nonneg(accs, sym);
        }
    }
    assert(acc_units(accs, sym) <= acc_units(accs, sym) * price_or0(m, sym)) by (nonlinear_arith)
        requires
            acc_units(accs, sym) >= 0,
            price_or0(m, sym) >= 1,
    ;
}

pub proof fn lemma_acc_units_bound_nonneg(accs: Seq<Account>, sym: Seq<char>)
    ensures
        acc_units(accs, sym) >= 0,
    decreases accs.len(),
{
    if accs.len() > 0 {
        lemma_acc_units_bound_nonneg(accs.drop_last(), sym);
        lemma_units_in_nonneg(accs.last().positions@, sym);
    }
}

impl Portfolio {
    /// The total market value of the portfolio: cash plus holdings over
    /// all accounts.
    pub fn total_value(&self) -> (r: i64)
        requires
            portfolio_gross(self.accounts@, self.market@) <= MAX_MONEY as int,
        ensures
            r as int == portfolio_value(*self),
            abs_of(r as int) <= portfolio_gross(self.accounts@, self.market@),
    {
        let accs = &self.accounts;
        let m = &self.market;
        let mut sum: i64 = 0;
        let mut i: usize = 0;
        while i < accs.len()
            invariant
                i <= accs@.len(),
                portfolio_gross(accs@, m@) <= MAX_MONEY as int,
                sum as int == sum_accounts_cash(accs@.subrange(0, i as int))
                    + accounts_hold_value(accs@.subrange(0, i as int), m@),
                abs_of(sum as int) <= portfolio_gross(accs@.subrange(0, i as int), m@),
                portfolio_gross(accs@.subrange(0, i as int), m@) >= 0,
            decreases accs@.len() - i,
        {
            proof {
                lemma_portfolio_gross_prefix(accs@, m@, i as int);
                lemma_portfolio_gross_prefix_le(accs@, m@, i as int + 1);
                lemma_account_gross_nonneg(accs@[i as int], m@);
                lemma_value_decomposition(accs@, m@, i as int);
            }
            let v = accs[i].value(m);
            sum = sum + v;
            i = i + 1;
        }
        proof {
            assert(accs@.subrange(0, accs@.len() as int) =~= accs@);
        }
        sum
    }

    /// The shares of every symbol summed over all accounts, as a list with
    /// one entry per held symbol.
    pub fn total_shares(&self) -> (r: Vec<Position>)
        requires
            self.ok(),
        ensures
            forall|s: Seq<char>| units_in(r@, s) == acc_units(self.accounts@, s),
            distinct_positions(r@),
    {
        let accs = &self.accounts;
        let mut out: Vec<Position> = Vec::new();
        let mut i: usize = 0;
        while i < accs.len()
            invariant
                i <= accs@.len(),
                self.ok(),
                accs@ == self.accounts@,
                forall|s: Seq<char>|
                    units_in(out@, s) == acc_units(accs@.subrange(0, i as int), s),
                distinct_positions(out@),
            decreases accs@.len() - i,
        {
            let ps = &accs[i].positions;
            let mut j: usize = 0;
            while j < ps.len()
                invariant
                    j <= ps@.len(),
                    i < accs@.len(),
                    self.ok(),
                    accs@ == self.accounts@,
                    ps@ == accs@[i as int].positions@,
                    forall|s: Seq<char>|
                        units_in(out@, s) == acc_units(accs@.subrange(0, i as int), s) + units_in(
                            ps@.subrange(0, j as int),
                            s,
                        ),
                    distinct_positions(out@),
                decreases ps@.len() - j,
            {
                let p = &ps[j];
                let ghost sym = p.symbol@;
                proof {
                    assert(self.accounts@[i as int].positions@[j as int].symbol@ == sym);
                    assert(market_has(self.market@, sym));
                    lemma_units_in_prefix(ps@, sym, j as int);
                    lemma_units_in_prefix_le(ps@, sym, j as int + 1);
                    lemma_acc_units_prefix(accs@, sym, i as int);
                    lemma_acc_units_prefix_le(accs@, sym, i as int + 1);
                    lemma_acc_units_bound(accs@, self.market@, sym);
                    lemma_units_in_nonneg(ps@.subrange(0, j as int), sym);
                    lemma_acc_units_bound_nonneg(accs@.subrange(0, i as int), sym);
                    assert forall|s: Seq<char>| s != sym implies units_in(
                        ps@.subrange(0, j as int + 1),
                        s,
                    ) == units_in(ps@.subrange(0, j as int), s) by {
                        lemma_units_in_prefix(ps@, s, j as int);
                    }
                }
                let ghost out0 = out@;
                match find_pos_idx(&out, p.symbol.as_str()) {
                    Option::Some(k) => {
                        proof {
                            results::lemma_units_in_at(out0, k as int, sym);
                        }
                        let sym2 = out[k].symbol.clone();
                        let q = Position { symbol: sym2, shares: out[k].shares + p.shares };
                        out.set(k, q);
                        proof {
                            results::lemma_units_in_update(out0, k as int, q, sym);
                            assert forall|s: Seq<char>| s != sym implies units_in(out@, s)
                                == units_in(out0, s) by {
                                results::lemma_units_in_update(out0, k as int, q, s);
                            }
                        }
                    }
                    Option::None => {
                        proof {
                            results::lemma_units_in_absent(out0, sym);
                        }
                        let q = Position { symbol: p.symbol.clone(), shares: p.shares };
                        out.push(q);
                        proof {
                            results::lemma_units_in_push(out0, q, sym);
                            assert forall|s: Seq<char>| s != sym implies units_in(out@, s)
                                == units_in(out0, s) by {
                                results::lemma_units_in_push(out0, q, s);
                            }
                        }
                    }
                }
                proof {
                    assert(units_in(out@, sym) == units_in(out0, sym) + p.shares);
                    assert forall|s: Seq<char>| units_in(out@, s) == acc_units(
                        accs@.subrange(0, i as int),
                        s,
                    ) + units_in(ps@.subrange(0, j as int + 1), s) by {
                        if s != sym {
                            assert(units_in(out@, s) == units_in(out0, s));
                            assert(units_in(ps@.subrange(0, j as int + 1), s) == units_in(
                                ps@.subrange(0, j as int),
                                s,
                            ));
                        }
                    }
                }
                j = j + 1;
            }
            proof {
                assert(ps@.subrange(0, ps@.len() as int) =~= ps@);
                assert forall|s: Seq<char>| units_in(out@, s) == acc_units(
                    accs@.subrange(0, i as int + 1),
                    s,
                ) by {
                    lemma_acc_units_prefix(accs@, s, i as int);
                }
            }
            i = i + 1;
        }
        proof {
            assert(accs@.subrange(0, accs@.len() as int) =~= accs@);
        }
        out
    }

    /// Checks the two pre-flight conditions: target weights must sum to
    /// 1.0 within tolerance, and every targeted or held symbol must carry
    /// a market price. The planner itself assumes both.
    pub fn validate(&self) -> (r: Option<&'static str>)
        requires
            self.target@.len() <= MAX_TARGETS as int,
            forall|i: int|
                0 <= i < self.target@.len() ==> (#[trigger] self.target@[i].weight as int)
                    <= MAX_PPM as int,
        ensures
            ({
                let sum = sum_weights(self.target@);
                let alloc_bad = sum < PPM_SCALE - PPM_TOLERANCE || sum > PPM_SCALE + PPM_TOLERANCE;
                let missing = (exists|i: int|
                    0 <= i < self.target@.len() && !market_has(
                        self.market@,
                        #[trigger] self.target@[i].symbol@,
                    )) || (exists|i: int, j: int|
                    0 <= i < self.accounts@.len() && 0 <= j
                        < self.accounts@[i].positions@.len() && !market_has(
                        self.market@,
                        self.accounts@[i].positions@[j].symbol@,
                    ));
                &&& alloc_bad ==> (r matches Option::Some(msg) && msg@
                    == "Allocations must add up to 1.0"@)
                &&& !alloc_bad && missing ==> (r matches Option::Some(msg) && msg@
                    == "Missing prices for some investments"@)
                &&& !alloc_bad && !missing ==> r is None
            }),
    {
        let ts = &self.target;
        let mut sum: u64 = 0;
        let mut i: usize = 0;
        while i < ts.len()
            invariant
                i <= ts@.len(),
                ts@.len() <= MAX_TARGETS as int,
                forall|k: int|
                    0 <= k < ts@.len() ==> (#[trigger] ts@[k].weight as int) <= MAX_PPM as int,
                sum as int == sum_weights(ts@.subrange(0, i as int)),
                sum as int <= i as int * MAX_PPM as int,
            decreases ts@.len() - i,
        {
            proof {
                assert(ts@.subrange(0, i as int + 1).drop_last() =~= ts@.subrange(0, i as int));
            }
            sum = sum + ts[i].weight;
            i = i + 1;
        }
        proof {
            assert(ts@.subrange(0, ts@.len() as int) =~= ts@);
        }
        if sum < PPM_SCALE - PPM_TOLERANCE || sum > PPM_SCALE + PPM_TOLERANCE {
            return Option::Some("Allocations must add up to 1.0");
        }
        let mut j: usize = 0;
        while j < ts.len()
            invariant
                j <= ts@.len(),
                ts@ == self.target@,
                PPM_SCALE - PPM_TOLERANCE <= sum_weights(self.target@) <= PPM_SCALE
                    + PPM_TOLERANCE,
                forall|k: int|
                    0 <= k < j ==> market_has(self.market@, #[trigger] ts@[k].symbol@),
            decreases ts@.len() - j,
        {
            match find_inv_idx(&self.market, ts[j].symbol.as_str()) {
                Option::Some(_) => {},
                Option::None => {
                    proof {
                        lemma_price_or0_absent(self.market@, ts@[j as int].symbol@);
                        assert(exists|i2: int|
                            0 <= i2 < self.target@.len() && !market_has(
                                self.market@,
                                #[trigger] self.target@[i2].symbol@,
                            )) by {
                            assert(!market_has(self.market@, self.target@[j as int].symbol@));
                        }
                    }
                    return Option::Some("Missing prices for some investments");
                }
            }
            j = j + 1;
        }
        let accs = &self.accounts;
        let mut a: usize = 0;
        while a < accs.len()
            invariant
                a <= accs@.len(),
                accs@ == self.accounts@,
                PPM_SCALE - PPM_TOLERANCE <= sum_weights(self.target@) <= PPM_SCALE
                    + PPM_TOLERANCE,
                forall|k: int, l: int|
                    0 <= k < a && 0 <= l < accs@[k].positions@.len() ==> market_has(
                        self.market@,
                        accs@[k].positions@[l].symbol@,
                    ),
            decreases accs@.len() - a,
        {
            let ps = &accs[a].positions;
            let mut l: usize = 0;
            while l < ps.len()
                invariant
                    l <= ps@.len(),
                    a < accs@.len(),
                    accs@ == self.accounts@,
                    PPM_SCALE - PPM_TOLERANCE <= sum_weights(self.target@) <= PPM_SCALE
                        + PPM_TOLERANCE,
                    ps@ == accs@[a as int].positions@,
                    forall|k2: int, l2: int|
                        0 <= k2 < a && 0 <= l2 < accs@[k2].positions@.len() ==> market_has(
                            self.market@,
                            accs@[k2].positions@[l2].symbol@,
                        ),
                    forall|l2: int|
                        0 <= l2 < l ==> market_has(self.market@, ps@[l2].symbol@),
                decreases ps@.len() - l,
            {
                match find_inv_idx(&self.market, ps[l].symbol.as_str()) {
                    Option::Some(_) => {},
                    Option::None => {
                        proof {
                            lemma_price_or0_absent(self.market@, ps@[l as int].symbol@);
                            assert(exists|i2: int, j2: int|
                                0 <= i2 < self.accounts@.len() && 0 <= j2
                                    < self.accounts@[i2].positions@.len() && !market_has(
                                    self.market@,
                                    self.accounts@[i2].positions@[j2].symbol@,
                                )) by {
                                assert((a as int) < self.accounts@.len() && (l as int)
                                    < self.accounts@[a as int].positions@.len() && !market_has(
                                    self.market@,
                                    self.accounts@[a as int].positions@[l as int].symbol@,
                                ));
                            }
                        }
                        return Option::Some("Missing prices for some investments");
                    }
                }
                l = l + 1;
            }
            a = a + 1;
        }
        Option::None
    }
}

pub proof fn lemma_weight_of_update(ts: Seq<TargetWeight>, i: int, v: TargetWeight, sym: Seq<char>)
    requires
        0 <= i < ts.len(),
    ensures
        weight_of(ts.update(i, v), sym) == weight_of(ts, sym) - (if ts[i].symbol@ == sym {
            ts[i].weight as int
        } else {
            0
        }) + (if v.symbol@ == sym {
            v.weight as int
        } else {
            0
        }),
    decreases ts.len(),
{
    let u = ts.update(i, v);
    if i == ts.len() - 1 {
        assert(u.drop_last() =~= ts.drop_last());
    } else {
        assert(u.drop_last() =~= ts.drop_last().update(i, v));
        lemma_weight_of_update(ts.drop_last(), i, v, sym);
    }
}

pub proof fn lemma_weight_of_push(ts: Seq<TargetWeight>, v: TargetWeight, sym: Seq<char>)
    ensures
        weight_of(ts.push(v), sym) == weight_of(ts, sym) + (if v.symbol@ == sym {
            v.weight as int
        } else {
            0
        }),
{
    assert(ts.push(v).drop_last() =~= ts);
}

pub proof fn lemma_weight_of_at(ts: Seq<TargetWeight>, i: int, sym: Seq<char>)
    requires
        0 <= i < ts.len(),
        ts[i].symbol@ == sym,
        forall|k: int| 0 <= k < ts.len() && k != i ==> ts[k].symbol@ != sym,
    ensures
        weight_of(ts, sym) == ts[i].weight,
    decreases ts.len(),
{
    if i == ts.len() - 1 {
        lemma_weight_of_absent(ts.drop_last(), sym);
    } else {
        lemma_weight_of_at(ts.drop_last(), i, sym);
    }
}

pub proof fn lemma_weight_of_absent(ts: Seq<TargetWeight>, sym: Seq<char>)
    requires
        forall|k: int| 0 <= k < ts.len() ==> ts[k].symbol@ != sym,
    ensures
        weight_of(ts, sym) == 0,
    decreases ts.len(),
{
    if ts.len() > 0 {
        lemma_weight_of_absent(ts.drop_last(), sym);
    }
}

} // verus!
