# searchlight

A grep-style content search for the terminal, written as a verified library
with a thin program around it.

The library states what every function returns in `requires` / `ensures`
contracts, over mathematical models of texts, patterns, configurations and
results, and Verus proves that the code keeps them. What holds of several
functions together is stated by proof functions whose names start with `law_`.

## Layout

- `src/` is the library.
  - `args` (with `args/grammar`, `args/laws`): the command line.
  - `pattern` (with `pattern/grammar`, `semantics`, `parser`, `engine`,
    `tree`, `laws`): patterns and globs, what they mean and how they match.
  - `filters` (with `filters/laws`): globs, size limits, ignore rules, the
    binary sniff.
  - `walk` (with `walk/laws`): which files of a tree are searched, for any
    number of workers that share one queue.
  - `search` (with `search/laws`): what is found in a text or a file.
  - `output` (with `output/laws`, `output/color`), `highlight` (with
    `highlight/laws`), `json`: how results are rendered.
  - `stats`, `timer`, `sizes` (with `sizes/laws`): counters, timings, sizes and
    how they are spelled.
  - `error`, `program`: failures, exit codes and the decisions of the program.
  - `text`, `lines`, `paths`, `sorting`, `duration`, `double`: the layers
    underneath. `double` computes with binary floating point numbers exactly,
    in integers, so that rounded figures have a contract too.
- `app/` is the program: it reads files and directories, runs threads and
  prints.
- `tests/` runs the library.

## What is trusted

A few functions of the standard library carry contracts that are taken on
trust; each says so where it stands: `String::push`, `String::push_str`,
`String::from_utf8`, `char::to_lowercase`, `char::is_alphanumeric`, and the
monotonic clock, of which nothing is promised but that the nanoseconds of a
started second are less than a billion.

## Command line

`searchlight [OPTIONS] PATTERN [PATH]...`; with no `PATH`, the current directory
is searched. A command line of `src/` and nothing else names the sources, and its
`PATTERN` is missing. To search for that text, write `--` in front:
`searchlight -- src/`.

## Exit codes

| Code | Meaning |
|------|---------|
| `0` | At least one match was found (or the pipe closed early) |
| `1` | The search completed but found nothing |
| `2` | An error occurred: bad arguments, unreadable path, pattern error |
