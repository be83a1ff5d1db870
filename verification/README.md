# toy_payments_engine

A toy payments engine, verified with Verus. It applies deposits,
withdrawals, disputes, resolutions and chargebacks to client accounts and
reports the balances of every account.

- `src/requests.rs`: identifiers, fixed-point amounts and their parser,
  requests.
- `src/engine.rs`: the engine, the mathematical model of its state, and the
  rules by which each request changes it.
- `src/cli.rs`: turning input records into requests, and ordering the
  final statement.
- `src/text.rs`: white space, decimal digits, and the formatting of amounts.
- `src/laws.rs`: properties of the rules that hold for every state and
  request, among them the bookkeeping of held funds.
- `app/`: the command line program: reading the CSV input, writing the CSV
  statement, and the serde forms of the request types.
