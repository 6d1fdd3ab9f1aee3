# rust_ti candle envelopes

Envelope indicators over candle prices: bands a percentage below and above a
moving constant (a moving average, median or mode) or the McGinley dynamic,
for one slice of prices or for every window of a period.

- `src/windows.rs` (verified with Verus): the rolling windows of a period,
  the chain that hands each window the McGinley dynamic of the window before
  it, and the latest price with the count. Their preconditions leave out the
  inputs on which the indicators panic (empty prices, a zero period, a period
  longer than the prices).
  The per-window computation is a closure; the contracts say what each output
  is in terms of that closure's results on each window.
- `app/lib.rs`: the `f64` indicators themselves, which test those inputs and
  panic, then call the verified window drivers with closures that do the
  floating-point arithmetic.
