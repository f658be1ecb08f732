# uring_fs

Filesystem access over io_uring, with the decisions of the reactor verified.

The library (`src/`) holds everything that decides something: which submission
entry an operation becomes, what a completion does to the table that owns its
buffers, how the blocking-work pool counts its workers, in which order a tree is
walked and where a walk resumes. Each function states what it does, and Verus
proves it. System calls, threads and the ring itself are in `app/`, which
performs what the library asks for and hands back what came of it.

## Modules

| module | what it holds |
|---|---|
| `table` | the operation table: payloads in flight, submission entries, routing of completions |
| `conn` | the facade a request handler submits through, on the loop |
| `walk` | chains of opens and directory-making walks, confined to their anchor |
| `blocking`, `copy`, `dirwalk` | calls that block: what is handed to a worker, and what its answer means |
| `offload`, `offload_pool` | jobs and their way back to the loop; the pool's counting of its workers |
| `handle`, `host`, `pending` | requests from other threads, the loop that takes them, the replies |
| `listing`, `enrich`, `xattrs` | listing a directory and reading what was asked for of each entry |
| `tree`, `tree_order`, `tree_run`, `cursor` | walking a tree in path order, resuming a walk, and what a whole walk gives |
| `order`, `sort` | the order of path keys, and sorting by it |
| `single_flight` | one mint per key |
| `policy`, `names`, `file`, `errno`, `sys`, `engine`, `bytes`, `text`, `tally` | the vocabulary of the rest |

Proof functions named `law_*` state what holds across functions: that a
completion is delivered once, that no wake-up is lost, that a resumed walk gives
exactly what was left.
