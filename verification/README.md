# resharp_grep

`re` searches files for lines (or paragraphs, or spans between delimiters)
where several patterns occur together, using the RE# engine (`resharp`),
which adds intersection (`&`), complement (`~`) and a wildcard (`_`) to
regular expressions.

The library in `src/` is written in Verus and verified:

- `args` — the options, their normalization (`parse`), and the search pattern
  and highlight pattern that they describe;
- `engine` — the calls into `resharp` and `memchr`, with the contracts that the
  rest relies on;
- `lines` — line tables, line text, line counts, binary detection;
- `search` — grouping matches into reported lines; inverting, limiting and
  padding them;
- `report` — searching one buffer (a file or standard input) and reporting it;
- `printer` — what is printed: colored pieces for text output, records for
  `--json`;
- `paginate` — the `--offset`/`--head` window over the output;
- `walk` — the decisions of a walk over many files, and the `--exec` commands;
- `text` — small text helpers;
- `laws` — properties that relate several functions.

`app/` is the command line around it: argument parsing with `clap`, directory
walking with `ignore`, reading and memory-mapping files, threads, running
commands, colors with `termcolor`, and JSON with `serde_json`.
