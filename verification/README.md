# thx

A chat with a model in the terminal, with tools from MCP servers.

- `src/` is the library: what is decided and computed, with contracts that Verus proves.
- `app/` is the program around it: the terminal, the model, the servers, the files and the
  environment.
- `tests/` runs the library on concrete values.

What the library takes from other crates it takes through small functions whose contracts are
not proved: `serde_json` (values and their encodings), `jsonschema` (output schemas), `url`
and the header types of `reqwest` (servers), `shellexpand` (settings), `crossterm` and
`tui-prompts` (the input line), `unicode-width` and `ratatui` (widths, wrapping and layout),
`tui-markdown` (answers) and `rmcp` (replies of tools).
Each of them says in its doc comment what it claims.
