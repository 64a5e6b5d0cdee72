# remitwise

Remittance planning for families: splitting a remittance into spending,
savings, bills and insurance; savings goals with locking, archiving, snapshots
and an audit trail; bills, one-off or recurring, paid by hand or by payment
schedules; and micro-insurance policies with monthly premiums.

## Layout

- `src/` is the library, verified with Verus. Each contract's state is a plain
  Rust value whose operations carry `requires`/`ensures` contracts over
  mathematical models (`Seq`, `int`), and the properties that span operations
  are stated and proved as public proof functions (`lemma_*`).
  - `table.rs`: records kept in increasing order of a numeric key, the model
    of every keyed map the contracts store.
  - `amount.rs`: saturating addition of amounts.
  - `remittance.rs`, `savings.rs`, `bills.rs`, `insurance.rs`: the four
    contracts.
- `tests/`: tests of the library on concrete values.
- `app/`: the Soroban contracts around the library. They authorize callers,
  read the ledger clock, load each contract's state from contract storage into
  the library's types, call the library, store the state back, publish events
  and extend storage lifetimes. Every decision is the library's.

## Why the stored maps are tables

On the ledger each contract keeps its records in `soroban_sdk::Map`s inside
contract storage. A `soroban_sdk::Map` is a handle (an `Env` and an object
number) into the host environment: it cannot be built without the host, and
each of its operations is a host call on storage. Reading and writing storage
is the contracts' input and output, so it stays in `app/`, which loads each
map into a `Table` (and stores it back) around every call. A `Table` holds the
same records as plain values, in the increasing key order in which a
`soroban_sdk::Map` is walked, so the library's contracts speak of exactly the
order the ledger contracts see.
