# fleet-dedup

Finds duplicate, near-duplicate and forked repositories below a directory and
writes a plan in JSON: which to keep, which to archive, and why.

`src/` is the library, verified with Verus. `app/` is the command line around it:
it reads directories and files, asks git for the number of commits, and writes the
plan.

| Module | What it holds |
|--------|---------------|
| `scanner` | which directories are repositories, and in what order they are listed |
| `walk` | which files of a repository count, their types, their content hash |
| `manifest`, `cargo_manifest`, `npm_manifest`, `python_manifest`, `toml` | dependencies, read from manifests |
| `counts` | tests and commits, read from text |
| `fingerprint`, `file_types`, `hamming` | the fingerprint of a repository, its 256 feature bits, distances |
| `names`, `group`, `group_laws` | grouping in three passes, and what holds of every grouping |
| `plan`, `plan_laws` | the plan, and what holds of every plan |
| `text`, `utf8`, `order`, `digest` | text, bytes as text, orders and sorting, BLAKE3 and hexadecimal |

Every public function states in its `ensures` what it returns. The proof
functions called `law_*` state what holds across functions: that no repository is
in two groups, that the order in which a walk meets files makes no difference to
the content hash, that a plan archives all but one repository of each group, and
more.

What the library believes without proof stands in `digest` (`blake3::hash`,
`hex::encode`), `text` (`String::push`), `utf8` (`String::from_utf8`,
`String::from_utf8_lossy`), `manifest` (`char::is_alphabetic`) and `scanner` (the
type `PathBuf` and its `clone`). Floating point is left to the command line: the
library counts agreeing bits over pairs, and takes a function that writes a share
in percent.
