# Limmat

Limmat watches a Git branch for changes and runs tests on every commit, in
parallel, on the local machine.

- `src/` is the library: it makes the decisions and proves, with
  [Verus](https://github.com/verus-lang/verus), that they are what its contracts
  say. It performs no I/O.
- `app/` is the program around it: the command line, git, the processes that run
  tests, the files of the result database, the terminal and the web server.
- `tests/` runs the library.

## The library

| Module | What it decides |
| --- | --- |
| `dag` | whether nodes form an acyclic graph, and in what order to take them |
| `config` | what a configuration means, and its hash |
| `digest` | how structured values are hashed |
| `test` | tests, the cases that arise when they are applied to commits |
| `manager` | which jobs to cancel and to start when the set of commits changes |
| `job` | the course of a job, from waiting for others to its outcome |
| `history` | what jobs do to the results in the database, in whatever order they go on |
| `once` | what one-shot runs of a test run, and what they leave in the database |
| `resource`, `pool` | who gets which resources |
| `database`, `result` | where results are kept, and when one may be used again |
| `git`, `process` | what the answers of `git` and other processes mean |
| `graph`, `ui`, `status` | how the commits and the state of their tests are laid out |
| `text`, `terminal`, `http` | how that becomes escape sequences and HTML |
| `cli` | what the commands do |
| `util`, `strings`, `assoc`, `ident` | what the others are written with |

Each module states what its functions do in contracts over mathematical models:
a graph is a sequence of adjacency lists, pools are a map from keys to
sequences, a job is a state with a transition function. Facts that span several
functions stand beside them as public proof functions, for example that putting
back what was taken restores the pools, that a command is killed only after it
was asked to terminate, that a result which was stored is found again, or that a
one-shot run stores no result of its own but uses those of the tests it needs.

What comes from other crates is called through small functions whose contracts
are believed: the digest of `sha3`, the notation of `hex`, the two patterns of
`regex`, the clusters of `unicode-segmentation`, the styles of `colored` and the
sequences of `ansi-control-codes`.
