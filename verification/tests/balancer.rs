use etf_balancer::accounts::{Account, Investment, Portfolio, Results};
use etf_balancer::run_balancing;

// Money is in cents, weights and yields in parts per million (ppm).
// A weight of 500_000 ppm is 50%; a price of 1_000 is ten dollars.

pub fn shares_of(r: &Results, acct: &str, sym: &str) -> u64 {
    let account = r
        .positions
        .iter()
        .find(|a| a.name == acct)
        .expect("missing account");
    account
        .positions
        .iter()
        .find(|p| p.symbol == sym)
        .map(|p| p.shares)
        .unwrap_or(0)
}

pub fn check_shares(r: &Results, acct: &str, sym: &str, expected: u64) {
    assert_eq!(shares_of(r, acct, sym), expected);
}

pub fn check_allocation(r: &Results, sym: &str, expected_ppm: i64) {
    let a = r
        .allocations
        .iter()
        .find(|a| a.symbol == sym)
        .expect("missing symbol");
    let diff = (a.ppm - expected_ppm).abs();
    assert!(
        diff <= 10_000,
        "allocation for {} was {} ppm, expected about {}",
        sym,
        a.ppm,
        expected_ppm
    );
}

#[test]
fn check_empty_case() {
    let r = run_balancing(Portfolio::new());
    let empty = Results::new();
    assert_eq!(r.positions.len(), empty.positions.len());
    assert_eq!(r.cash.len(), empty.cash.len());
    assert_eq!(r.allocations.len(), empty.allocations.len());
    assert_eq!(r.total_cash, empty.total_cash);
}

fn build_portfolio() -> Portfolio {
    let mut p = Portfolio::new();
    let mut acct = Account::new("taxed");
    acct.cash = 1_000_000; // $10,000
    p.accounts.push(acct);
    p.set_target("A", 500_000);
    p.set_target("B", 500_000);
    p.market.push(Investment::new("A", 1_000)); // $10
    p.market.push(Investment::new("B", 10_000)); // $100
    p
}

#[test]
fn simple_balance() {
    let p = build_portfolio();
    assert!(p.validate().is_none());
    assert!(p.total_shares().is_empty());

    let r = run_balancing(p);

    assert_eq!(r.total_cash, 0);
    check_shares(&r, "taxed", "A", 500);
    check_shares(&r, "taxed", "B", 50);
}

#[test]
fn simple_extra_cash() {
    let mut p = build_portfolio();
    p.accounts[0].cash += 500; // five extra dollars

    let r = run_balancing(p);

    assert_eq!(r.total_cash, 500);
    check_shares(&r, "taxed", "A", 500);
    check_shares(&r, "taxed", "B", 50);
    check_allocation(&r, "A", 499_000);
    check_allocation(&r, "B", 499_000);
    check_allocation(&r, "cash", 1_000);
}

#[test]
fn simple_cash_neeed() {
    let mut p = build_portfolio();
    p.accounts[0].cash = -500_000; // a $5,000 deficit
    p.accounts[0].set_position("A", 500);
    p.accounts[0].set_position("A", 500);
    p.accounts[0].set_position("B", 50);

    let r = run_balancing(p);

    // The deficit is deeper than either sale's proceeds, so the ledger
    // refuses both sales and the portfolio comes back unchanged.
    assert_eq!(r.total_cash, -500_000);
    check_shares(&r, "taxed", "A", 500);
    check_shares(&r, "taxed", "B", 50);
    check_allocation(&r, "A", 1_000_000);
    check_allocation(&r, "B", 1_000_000);
    check_allocation(&r, "cash", -1_000_000);
}

fn build_sale_needed_portfolio() -> Portfolio {
    let mut p = build_portfolio();
    // 100% B and no cash: half of it must be sold to buy A.
    p.accounts[0].cash = 0;
    p.accounts[0].set_position("B", 100);
    p
}

#[test]
fn test_with_sale() {
    let p = build_sale_needed_portfolio();

    let r = run_balancing(p);

    assert_eq!(r.total_cash, 0);
    check_shares(&r, "taxed", "A", 500);
    check_shares(&r, "taxed", "B", 50);
}

#[test]
fn no_fractional_sales() {
    let mut p = build_sale_needed_portfolio();
    p.set_target("A", 340_000);
    p.set_target("B", 660_000);

    let r = run_balancing(p);

    // 34% of $10,000 is exactly 34 whole shares of B to sell, funding
    // exactly 340 shares of A.
    assert_eq!(r.total_cash, 0);
    check_shares(&r, "taxed", "A", 340);
    check_shares(&r, "taxed", "B", 66);
}

#[test]
fn no_taxed_sales_allowed() {
    let mut p = build_sale_needed_portfolio();
    p.no_taxed_sales = Some(true);

    let r = run_balancing(p);

    assert_eq!(r.total_cash, 0);
    check_shares(&r, "taxed", "B", 100);
}

#[test]
fn no_sales_allowed() {
    let mut p = build_sale_needed_portfolio();
    p.no_sale_accounts.push(String::from("taxed"));

    let r = run_balancing(p);

    assert_eq!(r.total_cash, 0);
    check_shares(&r, "taxed", "B", 100);
}

#[test]
fn taxed_sales_allowed_in_sheltered_account() {
    let mut p = build_sale_needed_portfolio();
    p.no_taxed_sales = Some(true);
    p.accounts[0].name = String::from("ira");
    p.accounts[0].tax_sheltered = true;

    let r = run_balancing(p);

    assert_eq!(r.total_cash, 0);
    check_shares(&r, "ira", "A", 500);
    check_shares(&r, "ira", "B", 50);
    check_allocation(&r, "A", 500_000);
    check_allocation(&r, "B", 500_000);
    check_allocation(&r, "cash", 0);
}

#[test]
fn minimize_spare_cash() {
    let mut p = build_portfolio();
    p.accounts[0].cash = 50_700; // $507
    p.set_target("C", 0);
    p.market.push(Investment::new("C", 100)); // $1

    let r = run_balancing(p);

    // Overweight in B shares: one is bought that is not fully needed,
    // and the rest of the cash goes into the cheapest symbol.
    assert_eq!(r.total_cash, 0);
    check_shares(&r, "taxed", "A", 20);
    check_shares(&r, "taxed", "B", 3);
    check_shares(&r, "taxed", "C", 7);
    check_allocation(&r, "A", 394_000);
    check_allocation(&r, "B", 592_000);
    check_allocation(&r, "C", 14_000);
}

#[test]
fn buys_most_needed_first() {
    let mut p = Portfolio::new();
    let mut acct = Account::new("taxed");
    acct.cash = 2_000; // not enough cash to fully balance
    acct.set_position("A", 55);
    acct.set_position("B", 25);
    acct.set_position("C", 0);
    p.accounts.push(acct);
    p.no_sale_accounts.push(String::from("taxed"));
    p.set_target("A", 330_000);
    p.set_target("B", 330_000);
    p.set_target("C", 340_000);

    p.market.push(Investment::new("A", 100));
    p.market.push(Investment::new("B", 100));
    p.market.push(Investment::new("C", 100));

    assert_eq!(p.total_value(), 10_000); // $100

    let r = run_balancing(p);

    // An even balance would be about 33 shares each, but too much A is
    // held and sales are barred; no B may be bought because C is needed
    // more.
    assert_eq!(r.total_cash, 0);
    check_shares(&r, "taxed", "A", 55);
    check_shares(&r, "taxed", "B", 25);
    check_shares(&r, "taxed", "C", 20);
}

#[test]
fn buys_percentage_needed() {
    let mut p = Portfolio::new();
    let mut acct = Account::new("taxed");
    acct.cash = 300; // not enough cash to fully balance
    acct.set_position("A", 88);
    acct.set_position("B", 7);
    acct.set_position("C", 0);
    p.accounts.push(acct);
    p.no_sale_accounts.push(String::from("taxed"));
    p.set_target("A", 900_000);
    p.set_target("B", 80_000);
    p.set_target("C", 20_000);

    p.market.push(Investment::new("A", 100));
    p.market.push(Investment::new("B", 100));
    p.market.push(Investment::new("C", 100));

    let r = run_balancing(p);

    // About two more dollars of A, one of B and two of C are needed;
    // relative to their own targets C and B are far more underweight
    // than A, so A gets nothing.
    assert_eq!(r.total_cash, 0);
    check_shares(&r, "taxed", "A", 88);
    check_shares(&r, "taxed", "B", 8);
    check_shares(&r, "taxed", "C", 2);
}
