# fifo_gpu

Realized profit and loss over an equities tradebook, first in, first out (or
last in, first out, or highest cost first), by holding period, for any client,
symbol and range of days. The library is written in Verus: what each function
returns is stated in its contract and proved.

## Layout

- `src/` is the verified library.
  - `packed`, `bytes`: the packed table, twelve bytes a record, and its buffer.
  - `matching`, `fifo`, `shares`: matching, the folds, and the laws of both.
  - `query`, `checkpoint`, `baseline`: queries, open lots carried over a cutoff,
    and the scan that every query agrees with.
  - `rollup`: realized profit by month.
  - `index`, `pack`, `rows`, `lance_store`: pages, packing, and tables as columns.
  - `calendar`, `text`, `order`: dates, numbers as text, sorting.
  - `config`, `generate`, `skew`, `symbols`, `stats`, `util`, `writer`, `manifest`:
    what a generated tradebook is made of.
  - `correction`, `bench`, `router`, `gpu`: corrections, the benchmark's questions,
    and what a GPU is handed.
  - `guard`: the same folds over tables that nothing is known of.
- `tests/` runs the library.
- `app/` is the `fifo` program: files, Parquet, the random distributions, CUDA and
  the command line.

## Prices and days

A price is a whole number of ticks of 0.05. A day is a number, day 0 being
1970-01-01. Sums are kept in tick-shares.

## What is taken on trust

Three calls into `rand` and `rand_chacha` in `util` (seeding a stream, drawing from
a range, drawing a word) and `String::push` in `text`.
