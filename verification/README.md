# texforge

A self-contained LaTeX to PDF compiler for the command line: it builds documents with
Tectonic, renders Mermaid, Graphviz and D2 diagrams, formats and lints sources, checks
their spelling, counts their words, and inspects the PDF that comes out.

The library under `src/` holds what the tool decides and computes. Every function of it is
verified with Verus against a contract over mathematical models: a text is a sequence of
characters, a path a sequence of components, a source a sequence of tokens. The program
under `app/` reads files, asks the network and runs the engine; it hands plain values to
the library and acts on the plans that come back.

| Part                    | What it holds                                                |
|-------------------------|--------------------------------------------------------------|
| `text`, `chars`         | texts and character classes                                  |
| `paths`, `order`        | paths as components, the order of texts                      |
| `number`, `size`        | decimal numbers and file sizes                               |
| `position`, `wordset`   | lines and bytes of a text, sets of words                     |
| `texparse`, `texutil`   | the LaTeX tokenizer, comments and `\input` traversal         |
| `wordcount`             | words per section and per file                               |
| `formatter`             | formatting of `.tex` and `.bib` files                        |
| `linter`                | references, environments, glyphs, engine rules, spelling     |
| `diagrams`, `raster`    | diagram blocks, styles and fonts, pixels of a page           |
| `pdfdoc`, `pdftext`     | fonts and metadata of a PDF, its text against the source     |
| `normal`, `reach`       | what normalized text looks like, what `\input` reaches       |
| `compiler`              | the engine: its messages, its installation                   |
| `templates`, `archives` | the template registry and cache, archive entries             |
| `version`, `config`     | versions, updates and configuration                          |
| `commands`              | what each command plans and reports                          |

Laws that relate several functions are public proof functions named `law_*`, next to the
functions they speak of. What is taken from other crates and from the standard library
without proof stands in small wrappers marked `external_body`, each with a comment that
says what is claimed.
