# mcp_parts

A parts & spares platform — catalog, multi-location stock with reorder
policies, stock movements with oversell and negative-stock guards,
reservations, bill of materials with where-used and cycle prevention,
supersession chains, reorder suggestions and usage-based demand forecasting,
all over an audit trail, with its behaviour stated in contracts and proved.

## Layout

- `src/store.rs` — the store, its mathematical view (`StoreView`) and its
  well-formedness invariant; `src/store/` holds the operations by area
  (`catalog`, `stock`, `reservations`, `bom`, `supersession`, `analytics`),
  the refusal and audit texts (`messages`), the sample data a new store starts
  with (`seed`) and the laws proved of the store (`laws`).
- `src/demand.rs` — the reorder-point arithmetic, `ceil(d * (l + sqrt l))`,
  decided exactly on integers.
- `src/order.rs`, `src/text.rs` — stable orderings, decimal and identifier
  texts, ASCII case folding.
- `src/clock.rs` — the clock and the calendar, from `chrono`.
- `src/server.rs`, `src/types.rs` — the tool inputs with their defaults, and
  the records.
- `app/` — the MCP server (rmcp): serde/schemars copies of the records and
  inputs, JSON rendering, and the health check.

## Units

Quantities, reorder levels and costs are integers counted in thousandths of a
unit; times are microseconds since the Unix epoch; calendar dates are day
numbers counted from 0001-01-01 (day 1). The app converts to and from decimals,
date-times and ISO dates at the tool boundary.
