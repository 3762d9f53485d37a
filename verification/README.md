# simp

Normalizes the output of diagnostic tools (tsc, eslint, biome, prettier, oxfmt)
into one flat, token-efficient format, or JSON.

The library under `src/` is verified with Verus: every parser, the flag
injection for each tool, the summary tally and the flat renderer carry
contracts stated over character sequences, and the laws that tie them
together (streaming equals batch output, the summary ignores order, a flat
line holds no line break, injected flags settle, unescaping undoes GitHub's
escaping of messages and property values, ...) are proof functions beside
them.

- `src/text.rs`: character-level helpers (search, trim, lines, split, replace,
  decimal numbers) with their specifications.
- `src/diagnostic.rs`: the normalized diagnostic, the summary and its tally.
- `src/format.rs`: the flat rendering and the streaming renderer.
- `src/profiles/`: one module per tool (flags to inject, output parser).
- `src/agent.rs`, `src/cli.rs`, `src/runner.rs`: agent markers, command-line
  decisions, argument assembly and exit status.
- `app/`: the `simp` command: argument parsing, process I/O, environment
  lookup and JSON encoding/decoding.
