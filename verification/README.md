# replay

Replays each account's on-chain event stream through the contract and compares
the replayed total claim with the on-chain total claim, one row per account.

`src/` is the library, verified with Verus:

| module | what it does |
|--------|--------------|
| `timeline` | from the rows of one account to the timeline that is replayed |
| `order` | the replay order: block time, log index, rank |
| `engine` | what a timeline asks of the contract, the run, and its outcome |
| `contract` | the contract that a replay runs on |
| `snapshot`, `fallback` | where account states come from; the search for the state of an account that was created without an event |
| `reconcile` | one account: its row, its status, the delta |
| `run` | the worklist, shards, the summary and the progress lines |
| `bisect` | the first event after which a replay and the chain disagree |
| `account`, `json` | account states from JSON |
| `account_id`, `decimal`, `text` | account ids, numbers and text |

Functions named `law_*` are proofs of what holds of the library as a whole.

`app/` is ordinary Rust around it: the DuckDB database, the worker threads and
the command line. What depends on the contract crate itself (its payload format,
its encoding of accounts, the contract that runs in the process and the archival
node) comes in through the trait `Host`.
