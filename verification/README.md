# courselib

The verified core of CourseLib, a local-first library of Markdown and video
courses kept in a vault folder and indexed in SQLite.

- `src/` is the library, verified with Verus: Markdown course parsing, slugs,
  source-link resolution, the vault's plans for courses, categories, paths and
  progress, image policies and the per-course image plan, YouTube playlist data
  extraction, the index's identifiers and section ordering, and the Git and
  schema decisions.
- `app/` is a command-line program around it: files and YAML, SQLite, Git,
  and HTTP.
- `tests/` runs the library on concrete inputs.
