# chronicler

A Verus-verified library and command-line tool for chronicle markdown files
(`chronicle-YYYY-MM-DD.md`) and journal files (`YYYY-MM-DD.md`) with YAML
frontmatter headers that link each dated file to the one before it.

- `src/` — the verified library: header text and parsing (`header`),
  character helpers (`text`), dated file names (`names`), dates and the local
  clock (`clock`), which files get which header (`updates`), chronicle and
  journal contents (`chronicle`, `journal`), directory listing order
  (`listing`), configuration settings (`config`) and the command line (`cli`).
- `app/` — the program around it: configuration file, directory listing,
  reading and writing files.
- `tests/` — tests of the library.
