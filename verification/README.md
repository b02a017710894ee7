# mdbook-frontmatter-fix

Checks for mdBook chapters, verified with Verus.

- `src/book.rs`: the book's language (`book.toml`), and the excluded and
  injected frontmatter fields (`fmf.toml`).
- `src/html.rs`: unclosed `<details>`/`<summary>` blocks, `{{#include}}`
  lines whose file is missing, and markdown links to missing pages.
- `src/strip.rs`: removing a chapter's frontmatter (through
  `mdbook-frontmatter-strip`).
- `src/fix.rs`: the title and language a fix writes into new frontmatter.
- `src/run.rs`: which checks a run makes, and the path of a chapter argument.
- `src/text.rs`: lines, trimming and searching on character sequences.
- `src/diagnostic.rs`: the findings.
- `app/main.rs`: the `fmf` command around the library (files, exit code).

Each function's contract states its result over spec functions on `Seq<char>`;
the `law_*` proof functions state what holds across inputs.
