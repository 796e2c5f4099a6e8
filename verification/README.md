# Sector rotation

Analytics for sector rotation, verified with Verus: the relative rotation graph,
relative strength rankings, momentum z-scores, and how far the three agree, over
daily or weekly prices of a benchmark, its sectors and their industries.

`src/` is the verified library.

| module | what it holds |
| --- | --- |
| `number` | doubles by their bit pattern, compared exactly |
| `arithmetic` | the formulas, over a function that performs each operation |
| `order` | stable orders and ranks |
| `text` | comparing texts, writing whole numbers |
| `calendar` | dates, moments and ISO weeks, asked of `chrono` |
| `tickers` | maps and lists keyed by ticker |
| `data` | price series: alignment, merging, weekly resampling |
| `config` | the ticker universe |
| `compute` | the three methods and their convergence |
| `fetch` | what to ask Yahoo Finance for, retries, reading its answers |
| `cache` | the rows of the price cache and what is read back |
| `handlers` | the answers of the service |

`tests/` runs the library on concrete values. `app/` is the service around it: an
Axum server with an SQLite cache that fetches from Yahoo Finance. It performs the
floating-point operations that the library asks for.
