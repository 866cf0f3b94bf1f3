# nabla

Incrementally maintained views for PostgreSQL that never block writers, with
real-time delta subscriptions.

Changes are captured through logical decoding (a replication slot consumed by a
background worker), applied to view tables in commit order, and published to
subscribers as delta rows from a bounded durable log.

## Layout

- `src/` is the library, verified with Verus: everything that is decided or
  computed between the server's answers. It takes plain values and hands back
  plain values; SQL leaves it as statements with bound parameters.
  - `query`, `definition`: which analyzed definitions are views, and what a view
    is made of.
  - `pgoutput`, `wire`, `lsn`: the decoded change stream.
  - `apply`, `json`: the deltas of a change, their execution and their netting.
  - `worker`, `round`, `poll`: which view absorbs which transaction, what happens
    when something fails, and where the slot goes.
  - `shadow`, `populate`, `api`, `command`: creating, building, refreshing, dropping
    and reading views.
  - `client`: the subscription protocol of a client.
  - `errors`, `guc`, `idle`, `quote`, `statement`, `text`: what these share.
- `app/` is the extension and the client around it: SPI, the background worker,
  the SQL functions, GUCs, the parser's trees and the client's connection.
- `tests/` are the library's tests.

A part that alternates decisions with work of the server (a round of
transactions, a poll of the slot, the population of a group, the execution of
planned rows, the creation, refresh or drop of a view, a subscription) is a state
machine: it says what to run next and is
handed what came back.

## What is proved

The contract of every verified function says what it returns for every input that
it accepts. Where a result comes from `serde_json` or the standard library and is
too long to state, the contract gives it a name and speaks of that name. What the
server does with a statement is not modelled, but for what a refresh sets in the
catalog and what the query for changes selects (`api`). Beyond that, laws over
several calls stand in the modules as public proof functions named `law_*`, among
them:

- a round over transactions that every view and shadow has absorbed changes
  nothing (`round`);
- the slot never passes a view that still has to absorb something (`round`,
  `poll`);
- within a round frontiers and delta numbers only grow; a view's deltas are
  numbered right behind its last number, without a gap, each with the end and xid
  of its transaction (`round`);
- the slot is asked for before anything is written (`command`);
- refreshing join views that share a shadow, directly or over other views, are
  rebuilt in one group, and the shadows of a group are asked for at its one
  consistent point (`populate`, `shadow`);
- no call for changes splits a source transaction, as the query is modelled
  (`api`);
- the netted deltas of a key lead to its final state and are silent exactly when
  nothing visible changed (`apply`);
- a subscriber that is told to resync gets a snapshot before any further
  transaction; from a snapshot on, all transactions carry its epoch and the
  numbers right behind its cursor (`client`);
- every message that fits the format is decoded as it was written, and a row that
  is cut off or carries another tag is refused (`wire`).
