# pkvector

Exact nearest-neighbour search over the vectors of one data file: the best rows by distance, ties
broken by row position. The library under `src/` is verified with Verus; `app/` puts it on the
floating point numbers of the machine.

- `binary32`: single precision numbers as bit patterns, their total order, and the `Arithmetic`
  trait, which supplies the operations that round.
- `metric`: metric names, and the scores and distances that a metric assigns.
- `rounding`: properties of an arithmetic that rounds as IEEE 754 asks, and the laws of scores and
  distances that follow from them.
- `result`, `heap`: rows found, how they rank, and a binary heap with the worst row on top.
- `reader`: the trait for sources of rows, and a source in memory.
- `exact`: the search, what it returns, and the laws about it.
- `text`, `error`: decimal numerals and errors.

Contracts that depend on rounding, on a source of rows or on an exclusion are stated over what
those may return, whatever it is.
