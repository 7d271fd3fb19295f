# paluwagan

A rotating savings group (paluwagan / ROSCA) kept in escrow on a ledger,
verified with Verus.

Each group has a fixed number of members (2 to 100) who each pay the same
amount every round. When every member has paid into the round, the member
whose turn it is claims the pot (amount × members); the turn then passes to
the next member in joining order. After the last member's turn the group is
completed: every member has received the pot exactly once.

Layout:

- `src/address.rs` – ledger addresses, identified by their strkey text.
- `src/types.rs` – groups, members, contribution records, round summaries,
  the deposits and payouts to carry out, and the refusals.
- `src/ledger.rs` – the contract's storage (`PaluwaganNiJuan`), its model,
  and the operations; each operation's contract is its step function over
  the model.
- `src/laws.rs` – the storage invariant, proofs that every operation keeps
  it, and the promises of the scheme (rotation, one payment per member per
  round, payout only after a full round, the escrow balance, totals equal
  to the sum of each member's contribution records).
- `app/lib.rs` – the Soroban contract: it loads ledger entries, calls the
  library, performs authorisations and token transfers, and stores entries.

Storage is held in std `Vec` and `HashMap` fields. A soroban_sdk `Vec` only
holds items whose types carry soroban_sdk's `#[contracttype]` conversions,
which the verified library cannot derive, and every operation on it goes
through a live host `Env`; the Soroban contract in `app/` keeps its own
`#[contracttype]` copies of the library's types and converts at the
storage boundary.
