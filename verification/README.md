# telos_cli

The views of the Telos command line (`coverage`, `graph`, `impact`,
`timeline`) as a library verified with Verus, and a thin program around it.

- `src/` is the verified library. `model` holds the plain records the views
  read (ids, constraints, intents, decisions, bindings); `render` the small
  renderers (severity tags, tree prefixes, bars, truncation, ages); one
  module per view computes the selection and the lines that view prints.
  `colors`, `time` and `paths` hold the few calls into owo-colors, chrono
  and `std::path`, each behind a wrapper whose contract states what the
  call returns.
- `tests/` runs the library on concrete values.
- `app/` reads the repository and `git`, converts its objects into the
  library's model, prints the lines, and writes the JSON output.
