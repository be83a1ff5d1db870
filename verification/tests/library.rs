//! Tests of the library's functions on concrete values.

use toy_payments_engine::cli::{parse_record, Cli, CliError};
use toy_payments_engine::engine::{Engine, StatementItem};
use toy_payments_engine::requests::{
    Amount, AmountParseError, ClientId, Request, RequestType, TransactionId,
};
use toy_payments_engine::text::format_units;

fn amount(text: &str) -> Amount {
    Amount::parse(text).expect("valid amount")
}

fn request(client: u16, tx: u32, request_type: RequestType) -> Request {
    Request { client: ClientId(client), transaction: TransactionId(tx), request_type }
}

fn act(engine: &mut Engine, client: u16, tx: u32, request_type: RequestType) {
    let r = request(client, tx, request_type);
    assert!(engine.fits(&r));
    engine.action(r);
}

fn item(client: u16, available: i64, held: i64, locked: bool) -> StatementItem {
    StatementItem { client: ClientId(client), available, held, total: available + held, locked }
}

fn sorted_statement(engine: &Engine) -> Vec<StatementItem> {
    let mut statement = engine.generate_statement();
    statement.sort_by_key(|i| i.client.0);
    statement
}

#[test]
fn parses_whole_and_fractional_amounts() {
    assert_eq!(amount("1").units(), 10_000);
    assert_eq!(amount("1.5").units(), 15_000);
    assert_eq!(amount("0.0001").units(), 1);
    assert_eq!(amount(".5").units(), 5_000);
    assert_eq!(amount("5.").units(), 50_000);
    assert_eq!(amount("+2.25").units(), 22_500);
    assert_eq!(amount("  \t3.1234 \n").units(), 31_234);
    assert_eq!(amount("0012").units(), 120_000);
    assert_eq!(Amount::SCALE, 10_000);
}

#[test]
fn parses_the_largest_amount() {
    assert_eq!(amount("922337203685477.5807").units(), i64::MAX);
    assert_eq!(Amount::parse("922337203685477.5808"), Err(AmountParseError));
    assert_eq!(Amount::parse("922337203685478"), Err(AmountParseError));
    assert_eq!(Amount::parse("99999999999999999999999999"), Err(AmountParseError));
}

#[test]
fn rejects_malformed_amounts() {
    for bad in [
        "", "   ", "-1", "0", "0.0000", ".", "+", "++1", "1.2.3", "1.12345", "abc", "1e5", "NaN",
        "inf", "+inf", "-inf", "1,5", "1 5", "١",
    ] {
        assert_eq!(Amount::parse(bad), Err(AmountParseError), "{:?}", bad);
    }
    assert!("2.5".parse::<Amount>().is_ok());
    assert!("x".parse::<Amount>().is_err());
}

#[test]
fn formats_units() {
    assert_eq!(format_units(0), "0");
    assert_eq!(format_units(10_000), "1");
    assert_eq!(format_units(15_000), "1.5");
    assert_eq!(format_units(11_234), "1.1234");
    assert_eq!(format_units(10_010), "1.001");
    assert_eq!(format_units(1), "0.0001");
    assert_eq!(format_units(-60_000), "-6");
    assert_eq!(format_units(-5), "-0.0005");
    assert_eq!(format_units(i64::MAX), "922337203685477.5807");
    assert_eq!(format_units(i64::MIN), "-922337203685477.5808");
}

#[test]
fn formatted_amounts_parse_back() {
    for units in [1i64, 9, 10, 9_999, 10_000, 10_001, 123_456_789, i64::MAX] {
        assert_eq!(amount(&format_units(units)).units(), units);
    }
}

#[test]
fn parse_record_errors() {
    assert_eq!(parse_record("food", 1, 1, Some("1")).err(), Some(CliError::UnhandledTransactionType));
    assert_eq!(parse_record("Deposit", 1, 1, Some("1")).err(), Some(CliError::UnhandledTransactionType));
    assert_eq!(parse_record("deposit", 1, 1, None).err(), Some(CliError::MissingAmount));
    assert_eq!(parse_record("withdrawal", 1, 1, None).err(), Some(CliError::MissingAmount));
    assert_eq!(parse_record("deposit", 1, 1, Some("-3")).err(), Some(CliError::InvalidAmount));
    assert_eq!(parse_record("withdrawal", 1, 1, Some("1.00001")).err(), Some(CliError::InvalidAmount));
}

#[test]
fn parse_record_requests() {
    let r = parse_record("deposit", 7, 9, Some("2.5")).unwrap();
    assert_eq!(r.client, ClientId(7));
    assert_eq!(r.transaction, TransactionId(9));
    assert!(matches!(r.request_type, RequestType::Deposit { amount } if amount.units() == 25_000));
    let r = parse_record("withdrawal", 1, 2, Some("3")).unwrap();
    assert!(matches!(r.request_type, RequestType::Withdrawal { amount } if amount.units() == 30_000));
    // Disputes, resolutions and chargebacks ignore the amount field.
    assert!(matches!(parse_record("dispute", 1, 2, Some("junk")).unwrap().request_type, RequestType::Dispute));
    assert!(matches!(parse_record("resolve", 1, 2, None).unwrap().request_type, RequestType::Resolve));
    assert!(matches!(parse_record("chargeback", 1, 2, None).unwrap().request_type, RequestType::Chargeback));
}

#[test]
fn new_engine_has_no_accounts() {
    assert!(Engine::new().generate_statement().is_empty());
}

#[test]
fn repeated_requests_apply_once() {
    let requests = [
        request(1, 1, RequestType::Deposit { amount: amount("10") }),
        request(1, 2, RequestType::Withdrawal { amount: amount("3") }),
        request(1, 1, RequestType::Dispute),
        request(1, 1, RequestType::Resolve),
        request(1, 1, RequestType::Dispute),
        request(1, 1, RequestType::Chargeback),
    ];
    let mut once = Engine::new();
    let mut twice = Engine::new();
    for r in requests {
        assert!(once.fits(&r));
        once.action(r);
        assert!(twice.fits(&r));
        twice.action(r);
        assert!(twice.fits(&r));
        twice.action(r);
        assert_eq!(sorted_statement(&once), sorted_statement(&twice));
    }
    assert_eq!(sorted_statement(&once), vec![item(1, -30_000, 0, true)]);
}

#[test]
fn dispute_and_resolve_keep_totals() {
    let mut engine = Engine::new();
    act(&mut engine, 4, 1, RequestType::Deposit { amount: amount("6") });
    act(&mut engine, 4, 2, RequestType::Deposit { amount: amount("1.5") });
    act(&mut engine, 4, 1, RequestType::Dispute);
    assert_eq!(sorted_statement(&engine), vec![item(4, 15_000, 60_000, false)]);
    act(&mut engine, 4, 1, RequestType::Resolve);
    assert_eq!(sorted_statement(&engine), vec![item(4, 75_000, 0, false)]);
    act(&mut engine, 4, 2, RequestType::Dispute);
    act(&mut engine, 4, 2, RequestType::Chargeback);
    assert_eq!(sorted_statement(&engine), vec![item(4, 60_000, 0, true)]);
}

#[test]
fn locked_accounts_refuse_deposits_and_withdrawals() {
    let mut engine = Engine::new();
    act(&mut engine, 2, 1, RequestType::Deposit { amount: amount("5") });
    act(&mut engine, 2, 2, RequestType::Deposit { amount: amount("5") });
    act(&mut engine, 2, 1, RequestType::Dispute);
    act(&mut engine, 2, 1, RequestType::Chargeback);
    act(&mut engine, 2, 3, RequestType::Deposit { amount: amount("1") });
    act(&mut engine, 2, 4, RequestType::Withdrawal { amount: amount("1") });
    assert_eq!(sorted_statement(&engine), vec![item(2, 50_000, 0, true)]);
}

#[test]
fn overdrawing_withdrawal_is_dropped() {
    let mut engine = Engine::new();
    act(&mut engine, 1, 1, RequestType::Deposit { amount: amount("2") });
    act(&mut engine, 1, 2, RequestType::Withdrawal { amount: amount("2.0001") });
    // The dropped withdrawal did not take its transaction id.
    act(&mut engine, 1, 2, RequestType::Withdrawal { amount: amount("2") });
    assert_eq!(sorted_statement(&engine), vec![item(1, 0, 0, false)]);
    act(&mut engine, 9, 3, RequestType::Withdrawal { amount: amount("1") });
    assert_eq!(sorted_statement(&engine), vec![item(1, 0, 0, false)]);
}

#[test]
fn overflowing_requests_are_detected() {
    let mut engine = Engine::new();
    act(&mut engine, 1, 1, RequestType::Deposit { amount: amount("922337203685477.5807") });
    let r = request(1, 2, RequestType::Deposit { amount: amount("0.0001") });
    assert!(!engine.fits(&r));
    let mut cli = Cli::new(engine);
    assert!(!cli.fits("deposit", 1, 2, Some("0.0001")));
    assert!(cli.fits("deposit", 1, 2, Some("bad")));
    assert!(cli.fits("dispute", 1, 1, None));
    assert_eq!(cli.process("dispute", 1, 1, None), Ok(()));
    assert_eq!(
        cli.statement(),
        vec![StatementItem { client: ClientId(1), available: 0, held: i64::MAX, total: i64::MAX, locked: false }]
    );
}

#[test]
fn cli_statement_is_sorted_by_client() {
    let mut cli = Cli::new(Engine::new());
    for (client, tx) in [(30u16, 1u32), (4, 2), (65535, 3), (0, 4), (17, 5)] {
        assert!(cli.fits("deposit", client, tx, Some("1")));
        assert_eq!(cli.process("deposit", client, tx, Some("1")), Ok(()));
    }
    let clients: Vec<u16> = cli.statement().iter().map(|i| i.client.0).collect();
    assert_eq!(clients, vec![0, 4, 17, 30, 65535]);
}

#[test]
fn rejected_records_leave_the_engine_unchanged() {
    let mut cli = Cli::new(Engine::new());
    assert_eq!(cli.process("deposit", 1, 1, Some("nope")), Err(CliError::InvalidAmount));
    assert_eq!(cli.process("transfer", 1, 1, Some("1")), Err(CliError::UnhandledTransactionType));
    assert_eq!(cli.process("deposit", 1, 1, None), Err(CliError::MissingAmount));
    assert!(cli.statement().is_empty());
}

#[test]
fn cli_error_message() {
    for e in [CliError::UnhandledTransactionType, CliError::MissingAmount, CliError::InvalidAmount] {
        assert_eq!(e.message(), "failed to serve CSV data from the CLI");
    }
}

#[test]
fn only_fresh_deposits_open_accounts() {
    let mut engine = Engine::new();
    act(&mut engine, 1, 1, RequestType::Deposit { amount: amount("1") });
    act(&mut engine, 2, 1, RequestType::Deposit { amount: amount("1") });
    act(&mut engine, 3, 2, RequestType::Withdrawal { amount: amount("1") });
    act(&mut engine, 4, 1, RequestType::Dispute);
    act(&mut engine, 5, 1, RequestType::Resolve);
    act(&mut engine, 6, 1, RequestType::Chargeback);
    act(&mut engine, 7, 3, RequestType::Deposit { amount: amount("2") });
    assert_eq!(sorted_statement(&engine), vec![item(1, 10_000, 0, false), item(7, 20_000, 0, false)]);
}

#[test]
fn locked_exactly_after_a_chargeback() {
    let mut engine = Engine::new();
    act(&mut engine, 1, 1, RequestType::Deposit { amount: amount("4") });
    act(&mut engine, 1, 2, RequestType::Deposit { amount: amount("3") });
    act(&mut engine, 1, 1, RequestType::Dispute);
    act(&mut engine, 1, 1, RequestType::Resolve);
    assert_eq!(sorted_statement(&engine), vec![item(1, 70_000, 0, false)]);
    act(&mut engine, 1, 2, RequestType::Dispute);
    assert_eq!(sorted_statement(&engine), vec![item(1, 40_000, 30_000, false)]);
    act(&mut engine, 1, 2, RequestType::Chargeback);
    assert_eq!(sorted_statement(&engine), vec![item(1, 40_000, 0, true)]);
    act(&mut engine, 1, 1, RequestType::Dispute);
    act(&mut engine, 1, 1, RequestType::Resolve);
    assert_eq!(sorted_statement(&engine), vec![item(1, 40_000, 0, true)]);
}
