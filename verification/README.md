# tavtop

A system monitor that samples processor, graphics, memory and network
figures every 100 ms, keeps the last 40 samples of each in a sliding window,
and writes a JSON report of the figures, plain and column-aligned.

- `src/` is the library, each function with its contract: reading numbers out of
  `/proc` and `/sys` texts, the sample windows and what they report, the
  busy-share arithmetic, the `nmcli` and IPv4 parsing, and the report
  (medians, means, extremes, decimal numerals, padding).
- `app/` is the program around it: reading files, running commands,
  fetching the public address, the running means kept as floating point,
  timing the loop, and the JSON output.
- `tests/` runs the library on sample texts.
