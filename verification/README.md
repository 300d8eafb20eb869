# tardigrade

A generic, execution-agnostic and time-agnostic backoff and retry utility: a
pure state machine that computes *when* to retry, and nothing else. The library
is written in Rust and verified with Verus.

| Module | What it holds |
|--------|---------------|
| `policy` | `BackoffPolicy`, `Constant`, `ExponentialBackoff`, `MaxAttempts`, `WithMaxDelay`, `MaxElapsedTime`, `PolicyExt` |
| `exec` | `retry_sync`, `retry_with` for a borrowed policy, `retry_host` for a `Host` with state of its own, the decision after an attempt (`retry_step`), `RetryError` |
| `jitter` | `Jitter`, `NoJitter`, `SplitMix64` |
| `clock` | `Clock`, `SystemClock` |
| `util` | the saturating product of a delay and a factor |
| `float` | `Binary64`: IEEE 754 binary64 numbers on integers |
| `rounding` | rounding to nearest, ties to even, as arithmetic on natural numbers |
| `time` | durations as counts of nanoseconds |
| `laws` | what holds of the library as a whole |

Multipliers, spread factors and random draws are `Binary64` values: the bit
pattern of an IEEE 754 double. `Binary64::from_bits(x.to_bits())` takes an `f64`
in, `f64::from_bits(y.to_bits())` takes one out.

`app/` is ordinary Rust around the library: `f64` front ends, the asynchronous
driver, the error traits of the standard library and type-erased policies.
