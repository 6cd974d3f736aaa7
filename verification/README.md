# md-scan

A terminal program that lists the headings and tasks of the Markdown files below the current
directory. It moves through them, hides the tasks that are done, opens an item in nvim at its
line, and scans again in the background.

- `src/` is the library, verified with Verus but for the outside calls named below.
  - `grammar`, `pattern`, `extract`: what a heading and a task line is, and the items of a file
  - `path`, `order`, `scan`: paths, the order of the items, and a scan over many files
  - `list`, `app`, `events`: the selection, the filter, the refresh, the keys and the editor
  - `style`, `render`, `layout`: what is drawn, and where
  - `text`, `item`: strings and the items themselves
  - `*_laws`: what holds across several functions, as public proof functions
- `app/` is the program round it: the walk over the directories, the terminal and the editor.
- `tests/` runs the library on examples, and holds it against the standard library where the
  two are to agree.

Paths are sequences of bytes with `/` between their parts.

What is believed without proof stands in `pattern` (`Regex::new`, `Regex::captures`), `layout`
(`Layout::split`), `path` (`String::from_utf8_lossy`) and `text` (`String::push`), with a comment
that says what is claimed.
