# az_memory

The rules of an agent-memory service, verified with Verus: sources are
captured and their credentials isolated behind `[[secret:ID]]` references,
spaces and roles decide who may read or write, a leased queue hands sources
to a model worker and applies its proposals, and retrieval assembles
searches, recalls, activations and Markdown contexts within fixed budgets.

## Layout

- `src/` — the verified library. Each module states its rules as contracts
  over spec functions and views:
  - `isolate`, `exposure`, `references`, `json` — credential isolation; the
    kept text never exposes an isolated value.
  - `classifier`, `routing` — how a chat message is answered.
  - `queue` — leases, retries, repeated submissions and review of proposals.
  - `retrieval`, `order` — search, recall ranking, activation and contexts.
  - `intake`, `source_edit`, `nodes`, `store`, `validation` — sources (and
    the clarifications that release held-back ones), nodes, edges and their
    checks.
  - `spaces`, `secrets`, `hosting`, `broker`, `development`, `access`,
    `context` — who may do what, and the exchanges with the host.
  - `model`, `text`, `patterns`, `workspace` — data types, text operations,
    regular expressions and the workbench's helpers.
- `tests/` — tests of the library on concrete values.
- `app/` — the HTTP server: routes, PostgreSQL queries, the broker socket and
  the JSON shapes, calling the library for every decision.
