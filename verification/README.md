# dirtrack

Finds the directories of a workspace whose files changed within a time window,
keeps a per-root index of files so repeated scans are fast, records how each
root grows between scans, and can serve its tools over MCP.

- `src/` is the verified library: time-window parsing, type presets, grouping
  of scan results by directory and by project, the index reuse decision, the
  trend log computations, history and presets, the rows, counts, times and
  sizes shown in the reports, and the requests and answers of the tool server. Each function carries a
  contract that Verus proves; the laws that relate functions are public proof
  functions next to them.
- `app/` is the command-line program around it: argument parsing, the file
  system walk, reading and writing the JSON files, the interactive prompts,
  coloured output (the fixed headings and footer among it) and the MCP
  server.
- `tests/` exercises the library on concrete values.
