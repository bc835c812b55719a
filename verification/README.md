# par_csv

Fork-join processing of a large CSV dataset of NO2 measurements: the file is
cut into chunks, each worker reads the whole lines that start in its chunk,
and the partial results are reduced into the days and half-degree grid cells
with the highest average NO2.

## Layout

- `src/` is the library, verified with Verus:
  - `lines.rs`: where a line ends and where the next one starts.
  - `chunk.rs`: dividing a source into at most `n` chunks made of whole
    lines (`divide_chunks`): cuts are moved to line starts and cuts that
    collapse are merged, so the chunks tile the source, none is empty, and
    every chunk but the last ends just after a newline (the last ends at the
    end of the source).
  - `processor.rs`: which lines a chunk reads, namely those that start in it
    (`skip_partial_line`, `chunk_lines`); the proofs that a chunk reads only
    whole lines of the source, that two adjacent chunks read what the chunk
    covering both reads, and that any chunks tiling the source read every
    line exactly once, in order.
  - `line_parser.rs`: splitting a line into its nine fields and reading the
    year, month and day.
  - `text.rs`: removing Unicode whitespace and reading unsigned decimal numbers
    from bytes.
  - `unicode.rs`: the proof that this byte-level reading agrees with decoding
    the bytes as UTF-8, trimming the text and reading the number.
  - `engine.rs`: the engine's configuration (dataset path, number of workers,
    rayon's global pool).
  - `errors/`: the error types, their texts and conversions.
- `app/` is the program around it: reading the environment and the file, the
  floating-point work (NO2 values, coordinates, sums and averages) and the
  parallel map and reduce with rayon.
- `tests/` exercises the library.
