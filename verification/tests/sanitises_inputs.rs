//! Tests that check input validation and sanitisation.


use toy_payments_engine::cli::Cli;
use toy_payments_engine::engine::Engine;
use toy_payments_engine::text::format_units;

/// The expected outcome of feeding an input to the engine.
enum ExpectedOutput {
    /// The input was rejected.
    Failure,

    /// The input was accepted, and this statement is expected.
    Success(&'static str),
}

/// Feed CSV input through the engine as the command line interface does, and
/// compare the resulting statement. Input and expected output are trimmed to
/// allow the tests to use newlines liberally for readability.
fn run_sanitised(input: &str, output: ExpectedOutput) {
    let produced = process_sanitised_csv(input.trim());
    match output {
        ExpectedOutput::Failure => assert!(produced.is_none(), "input was accepted: {:?}", produced),
        ExpectedOutput::Success(expected) => {
            assert_eq!(Some(expected.trim().to_string()), produced.map(|out| out.trim().to_string()))
        }
    }
}

/// Read the records with surrounding whitespace trimmed, as the CSV reader of
/// the command line interface does, process them, and write the sorted
/// statement; `None` where the input is rejected.
fn process_sanitised_csv(input: &str) -> Option<String> {
    let mut reader = csv::ReaderBuilder::new()
        .trim(csv::Trim::All)
        .from_reader(input.as_bytes());
    let mut cli = Cli::new(Engine::new());
    for record in reader.records() {
        let record = record.ok()?;
        let kind = record.get(0)?;
        let client: u16 = record.get(1)?.parse().ok()?;
        let tx: u32 = record.get(2)?.parse().ok()?;
        let amount = record.get(3).filter(|a| !a.is_empty());
        assert!(cli.fits(kind, client, tx, amount), "balance overflow");
        cli.process(kind, client, tx, amount).ok()?;
    }
    let statement = cli.statement();
    if statement.is_empty() {
        return Some(String::new());
    }
    let mut out = String::from("client,available,held,total,locked\n");
    for item in statement {
        out.push_str(&format!(
            "{},{},{},{},{}\n",
            item.client.0,
            format_units(item.available),
            format_units(item.held),
            format_units(item.total),
            item.locked
        ));
    }
    Some(out)
}


#[test]
fn empty_input() {
    // Valid header with no data is valid CSV, but won't produce any meaningful
    // output.
    run_sanitised(
        "
type,client,tx,amount
    ",
        ExpectedOutput::Success(""),
    );
}

#[test]
fn missing_values() {
    // Missing values in the CSV lines is malformed input => failure
    run_sanitised(
        "
type,client,tx,amount
,,,
    ",
        ExpectedOutput::Failure,
    );
}

#[test]
fn extra_whitespace() {
    // Whitespace in and around the CSV lines is valid input.
    run_sanitised(
        "
type,client,tx,amount
           deposit,1         ,1,  1.0
    ",
        ExpectedOutput::Success(
            "
client,available,held,total,locked
1,1,0,1,false
    ",
        ),
    );
}

// Checks for invalid float values and treats them as an input contract
// violation.
#[test]
fn invalid_floats() {
    run_sanitised(
        "
type,client,tx,amount
deposit,1,1,NaN
    ",
        ExpectedOutput::Failure,
    );

    // As much as we'd all love infinite cash, it's sadly not possible :'(
    run_sanitised(
        "
type,client,tx,amount
deposit,1,1,inf
    ",
        ExpectedOutput::Failure,
    );
    run_sanitised(
        "
type,client,tx,amount
deposit,1,1,+inf
    ",
        ExpectedOutput::Failure,
    );
    run_sanitised(
        "
type,client,tx,amount
deposit,1,1,-inf
    ",
        ExpectedOutput::Failure,
    );
}

// Payment amounts must be positive.
#[test]
fn non_positive_amounts() {
    run_sanitised(
        "
type,client,tx,amount
deposit,1,1,-10
    ",
        ExpectedOutput::Failure,
    );
    run_sanitised(
        "
type,client,tx,amount
withdrawal,1,1,-10
    ",
        ExpectedOutput::Failure,
    );
    run_sanitised(
        "
type,client,tx,amount
deposit,1,1,0
    ",
        ExpectedOutput::Failure,
    );
    run_sanitised(
        "
type,client,tx,amount
withdrawal,1,1,0.0000
    ",
        ExpectedOutput::Failure,
    );
}

// Input precision is limited to ten-thousandths.
#[test]
fn too_many_decimal_places() {
    run_sanitised(
        "
type,client,tx,amount
deposit,1,1,1.12345
    ",
        ExpectedOutput::Failure,
    );
    run_sanitised(
        "
type,client,tx,amount
withdrawal,1,1,0.00001
    ",
        ExpectedOutput::Failure,
    );
}

// Integer values outside the bounds of the required size.
#[test]
fn out_of_bound_integers() {
    // Client is u16, so go above and below that.
    run_sanitised(
        "
type,client,tx,amount
deposit,100000,1,1
    ",
        ExpectedOutput::Failure,
    );
    run_sanitised(
        "
type,client,tx,amount
deposit,-5,1,1
    ",
        ExpectedOutput::Failure,
    );

    // tx is u32, so do the same
    run_sanitised(
        "
type,client,tx,amount
deposit,1,5000000000,1
    ",
        ExpectedOutput::Failure,
    );
    run_sanitised(
        "
type,client,tx,amount
deposit,1,-1,1
    ",
        ExpectedOutput::Failure,
    );
}

// Checks we handle invalid transaction type strings.
#[test]
fn invalid_transaction_types() {
    run_sanitised(
        "
type,client,tx,amount
food,1,1,1
    ",
        ExpectedOutput::Failure,
    );
    run_sanitised(
        "
type,client,tx,amount
(*%^&#$#%#,1,1,1
    ",
        ExpectedOutput::Failure,
    );
    run_sanitised(
        "
type,client,tx,amount
AAAAAAAAAAAAAAAAAAAAAAAAAAAAAAAAAAAAAAAAAAARG,1,1,1
    ",
        ExpectedOutput::Failure,
    );
    run_sanitised(
        "
type,client,tx,amount
1234,1,1,1
    ",
        ExpectedOutput::Failure,
    );
    run_sanitised(
        "
type,client,tx,amount
depositt,1,1,1
    ",
        ExpectedOutput::Failure,
    );
}
