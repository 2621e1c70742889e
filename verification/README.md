# gasp

Streaming, error-tolerant JSON extraction from tagged LLM output, and the
WAIL schema language that describes what such output should look like.

Layout:

- `src/` — the verified library (Verus). Each public function states in its
  contract what it returns, over spec functions of the data's views.
  - `text`, `json_types`, `json_tok`, `json_sax_scanner`, `json_scalars`,
    `json_parser`: the tolerant JSON scanner, builder and stream parser;
  - `tag_finder`: the incremental `<Tag> … </Tag>` scanner;
  - `types`, `wail_parser`, `wail_grammar`, `wail_repair`: WAIL types, tokens,
    the definition grammar with import resolution, validation and repair;
  - `template_parser`, `parser_types`: prompt templates and their rendering;
  - `python_types`, `type_string_parser`: plain descriptions of Python types,
    whether a parsed XML value fits one, and XML values read as plans of
    Python values for a given type;
  - `tag_set`: the tags a typed parser listens to;
  - `llm_output`: cutting the `<action>` blocks out of a model's reply and
    reading them as JSON.
  An application file's `main` block is read into its template arguments,
  statements (template calls and object instances) and prompt text.
- `tests/` — the test suite.
- `app/` — the Python extension module (pyo3) and the file reading that
  import resolution asks for.
