# svf

A zero-delay feedback filter of two poles, based on a state variable filter, with saturated
integrators and anti-saturated damping.

- `src/` is the library, verified with Verus. It is written over any arithmetic: the contracts
  state each result as a formula of the operations that were applied, and the laws state what the
  formulas come to where nothing is rounded. Some laws also speak of an arithmetic that rounds.
- `tests/` runs it in single precision.
- `app/` is the filter as a VST plugin in single precision.
