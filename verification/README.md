# tron_vanity

A TRON vanity-address generator. `src/` is the verified library (Verus):

- `shape`: shape patterns ("aabb", "abcd") and digit straights, with their laws.
- `pattern`: rule ids (`shape:`, `straight:`, `custom:`) and checking a segment against a rule.
- `matching`: where rules are looked for in an address and what a match reports.
- `address`: secp256k1 key pairs and TRON addresses (Keccak-256, double SHA-256, Base58).
- `records`: stored wallets, JSON lists, batches pushed to the window, queries, export text.
- `search`: the decisions of a running search and one attempt of a worker.
- `text`: string helpers.

`app/` is the Tauri shell: commands, worker threads, SQLite and events.
