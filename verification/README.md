# parcad

The verified core of parcad, a parametric CAD whose parts are written as code.

- `src/` is the library, each function proved against its contract: the intent graph's structure and
  validation (`graph`, `envelope`, `checks`, `brief`), the session that a
  window and an agent share (`session`, `projects`, `service`, `mcp`,
  `relay`), the language reference read out of the DSL's source (`docs`,
  `scan`, `text`), mesh connectivity (`mesh`), and the raster, text and
  contact-sheet routines behind the renders (`render`, `font`, `measure`,
  `call`, `ui`).
- `tests/` runs the library on concrete values.
- `app/` is the program around it: the command line, HTTP and stdio
  transports, files on disk, JSON, and the floating-point geometry that the
  library describes through integer models.
