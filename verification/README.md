# downlint

A Markdown link checker and language server, with its logic verified by Verus.

- `src/` — the verified library: text and position handling (`utils`), the Markdown
  scanner and parser (`parser`), link resolution across a workspace (`resolution`),
  diagnostics (`diagnostics`), configuration layering (`config`), completion
  (`completion`), the check command's reporting and fixes (`cli`) and the language
  server's framing, routing and queries (`lsp`).
- `app/` — the program around it: command-line parsing, reading the workspace and the
  configuration files, the watch loop and the language-server loop.
- `tests/` — tests of the library.
