# Trakbit

A keyboard-first options analytics tool for the terminal: it shows a live
option chain (Upstox API, or a demo chain), lets you buy and sell lots, move
legs along the chain, apply strategy templates, and analyses the payoff of
the legs held at expiry.

## Layout

- `src/` — the library, verified with Verus. Every amount is an integer
  count of hundredths of a rupee; deltas and implied volatilities are
  counted in ten-thousandths.
  - `model.rs` — option-chain rows, contracts and quotes.
  - `strategy.rs` — legs, their payoff at expiry, the strategy analysis
    (curve, extremes, breakevens, unlimited profit or loss) and the
    profitable intervals of the spot.
  - `strategy_builder.rs` — the strategy templates, picking legs by delta.
  - `portfolio.rs` — buying, selling, removing and repricing legs.
  - `app.rs` — the state behind the screen and every action a key can
    trigger, as a state machine from key to next state.
  - `setup.rs` — the access-token screen as a state machine.
  - `calendar.rs` — dates, read, written and compared with chrono.
  - `text.rs`, `arith.rs`, `seq_facts.rs` — number formatting, integer
    helpers and sequence facts.
  Each module ends with its laws: proof functions stating what holds across
  operations (for instance that a step down and a step up undo each other,
  or that a move along the chain never goes against the key's direction).
- `app/` — the program around the library: the terminal, drawing with
  ratatui, the HTTP fetchers, the JSON shapes, and the floating-point parts
  of the analysis (volatility range and probability of profit).
- `tests/` — tests of the library.
