# volumen

Finds the prompt strings of a source file: string literals assigned to a
name that contains `prompt`, or marked by a `# @prompt` / `// @prompt`
comment, with their spans, interpolated variables, annotations and content
tokens. Python, Go, Java, PHP and Ruby sources are read through tree-sitter
(for C#, the string spans and interpolations of its syntax nodes); Python
can also be read through a plain module model that an external parser fills.

The library in `src/` is verified with Verus:

- `types` — spans, prompts and their mathematical models.
- `text`, `annotation`, `comments` — character ranges, `@prompt` annotations
  and comment blocks.
- `syntax`, `treesitter` — a syntax tree copied out of tree-sitter as plain
  values, and the trusted calls that parse.
- `detect`, `identsets`, `expr`, `concat` — the scope stack, identifier
  sets, interpolation and format placeholders, and string concatenations
  shared by the languages.
- `python`, `go`, `java`, `csharp`, `php`, `ruby` — each language's spans,
  scopes and tree walk (C#: spans only); `python::ast` and `python::visitor` hold the plain
  module model and its visit.
- `benchmarks` — node counts of syntax trees and the extraction of code
  samples from benchmark sources.

`app/` holds the command-line programs (benchmark token counts and the
benchmark report). `tests/` exercises the library from outside.
