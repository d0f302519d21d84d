# opt

Second-order verdicts and a stall monitor for outer optimization loops, verified
with Verus.

* `src/rounding.rs`, `src/binary64.rs`, `src/arithmetic.rs`, `src/order.rs`: IEEE 754
  binary64 numbers held by their bits. Every operation is proved to round the exact
  result once, to nearest with ties to even.
* `src/arrays.rs`: vectors and matrices, held in `ndarray` arrays behind trusted
  wrappers. These are the only trusted items of the crate.
* `src/cholesky.rs`, `src/second_order.rs`: the shifted Cholesky factor, the
  definiteness verdict, the Newton decrement, claims of negative curvature and the
  longest feasible step.
* `src/probe.rs`, `src/stall_model.rs`, `src/stall_monitor.rs`: the scatter of a window
  of samples, the states of a stall monitor, and the monitor itself.
* `src/second_order_laws.rs`, `src/decrement_laws.rs`, `src/shift_laws.rs`,
  `src/claim_laws.rs`: what holds between the second-order verdicts, as proof functions.
* `src/exact.rs`, `src/exact_laws.rs`: the decrement over exact numbers, and how it moves
  with the shift for every matrix.
* `src/stall_laws.rs`, `src/run_laws.rs`: what holds of every monitor, at each observation
  and over any run of them.
* `app/`: the same interface over `f64` and `ndarray` arrays of it, with diagnostics
  on the `log` facade.
* `tests/`: agreement with the machine's own arithmetic, to the last bit, and the
  behaviour of every public function.
