use etf_balancer::accounts::{Account, Investment, Portfolio, Results};
use etf_balancer::run_balancing;

fn shares_of(r: &Results, acct: &str, sym: &str) -> u64 {
    r.positions
        .iter()
        .find(|a| a.name == acct)
        .map(|a| {
            a.positions
                .iter()
                .find(|p| p.symbol == sym)
                .map(|p| p.shares)
                .unwrap_or(0)
        })
        .unwrap_or(0)
}

fn ledger_value(r: &Results, market: &[Investment]) -> i64 {
    let mut total: i64 = 0;
    for c in r.cash.iter() {
        total += c.cash;
    }
    for a in r.positions.iter() {
        for p in a.positions.iter() {
            if let Some(inv) = market.iter().find(|i| i.symbol == p.symbol) {
                total += (p.shares as i64) * (inv.price as i64);
            }
        }
    }
    total
}

fn sale_portfolio() -> Portfolio {
    let mut p = Portfolio::new();
    let mut acct = Account::new("taxed");
    acct.cash = 0;
    acct.set_position("B", 100);
    p.accounts.push(acct);
    p.set_target("A", 500_000);
    p.set_target("B", 500_000);
    p.market.push(Investment::new("A", 1_000));
    p.market.push(Investment::new("B", 10_000));
    p
}

#[test]
fn value_is_conserved_through_sales_and_buys() {
    let p = sale_portfolio();
    let before = p.total_value();
    let market: Vec<Investment> = vec![
        Investment::new("A", 1_000),
        Investment::new("B", 10_000),
    ];

    let r = run_balancing(p);

    assert_eq!(before, 1_000_000);
    assert_eq!(ledger_value(&r, &market), before);
}

#[test]
fn no_resulting_balance_is_negative() {
    let p = sale_portfolio();
    let r = run_balancing(p);
    for c in r.cash.iter() {
        assert!(c.cash >= 0);
    }
}

#[test]
fn balanced_portfolio_is_left_alone() {
    let mut p = Portfolio::new();
    let mut acct = Account::new("taxed");
    acct.cash = 0;
    acct.set_position("A", 500); // $5,000 at $10
    acct.set_position("B", 50); // $5,000 at $100
    p.accounts.push(acct);
    p.set_target("A", 500_000);
    p.set_target("B", 500_000);
    p.market.push(Investment::new("A", 1_000));
    p.market.push(Investment::new("B", 10_000));

    let r = run_balancing(p);

    assert_eq!(shares_of(&r, "taxed", "A"), 500);
    assert_eq!(shares_of(&r, "taxed", "B"), 50);
    assert_eq!(r.total_cash, 0);
    let cash = r.cash.iter().find(|c| c.name == "taxed").unwrap();
    assert_eq!(cash.cash, 0);
}

#[test]
fn allocations_sum_to_one() {
    let mut p = Portfolio::new();
    let mut acct = Account::new("taxed");
    acct.cash = 1_000_500; // rounding leaves a little idle cash
    p.accounts.push(acct);
    p.set_target("A", 500_000);
    p.set_target("B", 500_000);
    p.market.push(Investment::new("A", 1_000));
    p.market.push(Investment::new("B", 10_000));

    let r = run_balancing(p);

    let sum: i64 = r.allocations.iter().map(|a| a.ppm).sum();
    let n = r.allocations.len() as i64;
    assert!(sum <= 1_000_000);
    assert!(sum > 1_000_000 - n);
}

#[test]
fn allocation_fractions_are_exact() {
    let mut p = Portfolio::new();
    let mut acct = Account::new("taxed");
    acct.cash = 1_000_500;
    p.accounts.push(acct);
    p.set_target("A", 500_000);
    p.set_target("B", 500_000);
    p.market.push(Investment::new("A", 1_000));
    p.market.push(Investment::new("B", 10_000));

    let r = run_balancing(p);

    // 500 A at $10 out of $10,005 is exactly 499,750 ppm rounded down.
    let a = r.allocations.iter().find(|a| a.symbol == "A").unwrap();
    assert_eq!(a.ppm, 499_750);
    let cash = r.allocations.iter().find(|a| a.symbol == "cash").unwrap();
    assert_eq!(cash.ppm, 499); // $5 of $10,005
}

#[test]
fn validation_boundaries() {
    let mut p = Portfolio::new();
    p.set_target("A", 1_010_000); // exactly 1.01: still accepted
    p.market.push(Investment::new("A", 100));
    assert_eq!(p.validate(), None);

    p.set_target("A", 1_010_001); // just over the tolerance
    assert_eq!(p.validate(), Some("Allocations must add up to 1.0"));

    p.set_target("A", 990_000); // exactly 0.99: still accepted
    assert_eq!(p.validate(), None);

    p.set_target("A", 989_999);
    assert_eq!(p.validate(), Some("Allocations must add up to 1.0"));
}

#[test]
fn buys_are_whole_and_all_or_nothing() {
    let mut r = Results::new();
    r.transact("a", "X", 0);
    r.cash.push(etf_balancer::accounts::CashBalance {
        name: String::from("a"),
        cash: 1_000,
    });

    // Three shares at $3 cost $9: affordable, exact.
    assert!(r.buy_maybe("a", "X", 300, 3).is_some());
    assert_eq!(r.cash[0].cash, 100);
    let held = r.positions[0]
        .positions
        .iter()
        .find(|p| p.symbol == "X")
        .unwrap()
        .shares;
    assert_eq!(held, 3);

    // A fourth share would overdraw the account: nothing happens.
    assert!(r.buy_maybe("a", "X", 300, 1).is_none());
    assert_eq!(r.cash[0].cash, 100);
}

#[test]
fn sale_into_deep_deficit_is_refused() {
    let mut r = Results::new();
    r.transact("a", "X", 10);
    r.cash.push(etf_balancer::accounts::CashBalance {
        name: String::from("a"),
        cash: -10_000,
    });
    // Selling 10 shares at $5 brings in $50, less than the deficit:
    // the ledger refuses the trade outright.
    assert!(r.buy_maybe("a", "X", 500, -10).is_none());
    assert_eq!(r.cash[0].cash, -10_000);
}

#[test]
fn transact_clamps_at_zero() {
    let mut r = Results::new();
    assert_eq!(r.transact("a", "X", 7), 7);
    assert_eq!(r.transact("a", "X", -9), 0);
    assert_eq!(r.transact("a", "X", 2), 2);
}

#[test]
fn positions_are_kept_by_symbol() {
    let mut a = Account::new("a");
    a.set_position("AB", 1);
    a.set_position("CD", 2);
    assert_eq!(a.positions.len(), 2);
    // Setting an existing symbol replaces its count in place.
    a.set_position("AB", 9);
    assert_eq!(a.positions.len(), 2);
    let ab = a.positions.iter().find(|p| p.symbol == "AB").unwrap();
    assert_eq!(ab.shares, 9);
}

#[test]
fn empty_total_leaves_report_empty() {
    let market = vec![Investment::new("A", 100)];
    let mut r = Results::new();
    r.calculate_percentages(&market);
    assert_eq!(r.allocations.len(), 0);
    assert_eq!(r.total_cash, 0);
}

#[test]
fn high_yield_uses_middle_of_odd_yield_list() {
    let mut p = Portfolio::new();
    let mut taxed = Account::new("taxed");
    taxed.cash = 10_000; // $100
    p.accounts.push(taxed);
    let mut ira = Account::new("ira");
    ira.cash = 1_000; // $10
    ira.tax_sheltered = true;
    p.accounts.push(ira);
    p.set_target("A", 1_000_000);
    let mut a = Investment::new("A", 1_000);
    a.div_yield = Some(50_000); // 5%, above the median of 2%
    let mut b = Investment::new("B", 1_000);
    b.div_yield = Some(10_000);
    let mut c = Investment::new("C", 1_000);
    c.div_yield = Some(20_000);
    p.market.push(a);
    p.market.push(b);
    p.market.push(c);

    let r = run_balancing(p);

    // The high-yield symbol fills the sheltered account first.
    assert_eq!(shares_of(&r, "ira", "A"), 1);
    assert_eq!(shares_of(&r, "taxed", "A"), 10);
    assert_eq!(r.total_cash, 0);
}

#[test]
fn results_cover_exactly_the_accounts() {
    let mut p = Portfolio::new();
    let mut taxed = Account::new("taxed");
    taxed.cash = 1_000;
    p.accounts.push(taxed);
    let mut ira = Account::new("ira");
    ira.tax_sheltered = true;
    p.accounts.push(ira);
    p.set_target("A", 1_000_000);
    p.market.push(Investment::new("A", 100));

    let r = run_balancing(p);

    let mut pos_names: Vec<&str> = r.positions.iter().map(|a| a.name.as_str()).collect();
    let mut cash_names: Vec<&str> = r.cash.iter().map(|c| c.name.as_str()).collect();
    pos_names.sort_unstable();
    cash_names.sort_unstable();
    assert_eq!(pos_names, vec!["ira", "taxed"]);
    assert_eq!(cash_names, vec!["ira", "taxed"]);
}
