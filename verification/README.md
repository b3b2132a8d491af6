# brc

Per-station temperature statistics over large measurement files, one
`station;temperature` line per measurement, and a generator of such files.

- `src/` is the library, verified with Verus: the text of a decimal number
  (`decimal`), which texts read as a temperature (`float_text`), lines and
  measurement records (`line`), grouping a file's temperature texts by
  station (`groups`), the station list that files are generated from
  (`stations`), byte counts for people (`size`), shard counts (`shards`),
  and the `dashmap` table that holds the groups (`table`).
- `app/` is the program around it: memory-mapping the input, the
  floating-point statistics (minimum, mean, maximum) of each station,
  writing `out.json`, timing, progress bars, and the generator's random
  sampling.
- A temperature is kept as its text in the library; a text is accepted
  exactly when it is a decimal floating-point literal, `inf`, `infinity`
  or `nan` (in any case, with an optional sign), so the numeric value is
  only ever computed in `app/`.
