# mstlo

Online monitoring of Signal Temporal Logic, verified with [Verus](https://github.com/verus-lang/verus).

A formula is evaluated over samples as they arrive. Verdicts are given at the timestamps of the
samples and at the times windows open and close, for signals that hold their last value between
samples or run straight from one to the next.

| semantics             | verdicts                                                         |
| --------------------- | ---------------------------------------------------------------- |
| `DelayedQualitative`  | truth values, once everything they depend on is known            |
| `EagerQualitative`    | truth values, as soon as they are decided                        |
| `DelayedQuantitative` | robustness values, once everything they depend on is known       |
| `Rosi`                | intervals for the robustness value, refined as more is known     |

## Layout

- `src/`: the library. Every function states what it returns, and is proved to. What holds of
  whole runs is stated and proved in the modules whose names end in `_laws`. Those on whole
  traces speak of one connective or until over two predicates. Of signals held between samples
  they say which timestamps are answered and with what, and how the semantics agree; the
  intervals of `Rosi` contain the robustness value and end as just that value, and each lies in
  the one before, unless, for until, a sample of a signal that is not read lags behind. Of
  signals that run straight they say that every truth value given is true of the signals,
  except at times that the rounding of a crossing to a nanosecond blurs.
- `tests/`: the library at work.
- `app/`: signals and robustness as floating-point numbers, and the Python module.

The library is generic in the values that signals take and in the domain of verdicts. It comes
with `i64` signals and with truth values, whole-number robustness and intervals of it.

Times are whole nanoseconds. A time a sample may carry is at most that of
`std::time::Duration::MAX`.
