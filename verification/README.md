# reviewbuddy

Review the difference between two branches, tags or commits, or the working tree, in your
browser.

- `src/` is the library, verified with Verus: reading what git writes, finding what is compared
  with what, highlighting, rendering differences as HTML, and answering requests. It does no I/O
  of its own. Work that needs something from outside halts with a question (`session`), and is
  taken again from its start once the answer is there.
- `app/` is the program around it: it runs git, reads files, and serves the pages. It expects the
  user interface in a directory `web` beside the program.
- `tests/` runs the library with the crates that it is built on.

What is shown goes through these modules, in this order: `review` and `repo` ask git, `git` reads
its answers, `server` takes requests, `line_diff` and `diff` compare texts, `grammar`, `scopes`
and `highlight` classify them, and `render` writes the lines. The modules whose names end in
`_laws`, `groups` and `markup` prove what holds of them together.

What the library takes on trust of `similar`, `syntect`, `percent-encoding`, `serde_json` and the
standard library stands in `line_diff`, `scopes`, `grammar`, `encoding` and `text`, each item
marked as trusted in its documentation.
