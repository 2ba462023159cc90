# hledger-x

Plain text accounting tooling for [hledger](https://hledger.org) journals: a
formatter that leaves what it does not understand alone, and the logic of an
interactive entry session.

- `src/` is the library. Everything in it is verified with Verus: each function
  states exactly what it returns, leaving open only what the clock says and how
  the system phrases its own errors, and the promises that span functions are
  proved as lemmas with public names.
- `tests/` runs the library on concrete journals and sessions.
- `app/` is the program around it: the command line, the file system, the
  terminal, and the floating-point frecency scores.

## The library

| Module | What it holds |
| --- | --- |
| `text`, `subtext`, `lex`, `tokens` | characters, words and the shapes of journal lines |
| `decimal`, `numerals`, `style`, `amount`, `restyle`, `entered`, `equity` | numbers, display styles, amounts and balancing |
| `fmt` | the formatter: blank lines, sorting, postings, inferred amounts |
| `fmt::{laws, shape, reread, settle, steady, scanned, order, resort, spread, refill, filled, columns, kept, neat, meaning, balance}` | why formatting settles, and what it keeps |
| `date`, `status`, `errors`, `paths`, `config`, `run` | dates, exit statuses, messages, paths, settings, formatting runs |
| `add::{scope, parser, walk, filemap}` | reading a journal and the files it includes |
| `add::{write, integrate, append, recovery, replay}` | placing new transactions, and the recovery journal |
| `add::{index, ui}` | completion, the entry session, and its two frontends |

Calls into other crates stand behind small functions whose contracts say what is
relied on: `chrono` for the calendar, `rust_decimal` for decimal arithmetic,
`regex` for aliases, `similar` for diffs and `toml` for configuration errors.
