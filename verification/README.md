# rust_graph

The verified core of a markdown note-graph editor. Notes are markdown files in
a folder; `[[wikilinks]]` between them make a graph, and an editor with tabs,
folds, undo and slash commands edits them.

## Layout

- `src/` is the library, written in Verus. Every function carries a contract
  that Verus proves:
  - `strings`: the UTF-8 text model that every parser uses (character
    boundaries, trimming, line splitting).
  - `editor/`: line-level markdown, block classification, the buffer and its
    folds, line wrapping, undo history, keyboard edits as buffer
    transformations, hit-testing, the drawing decisions, tabs, wikilink and
    slash-command completion, and the serialized font-atlas format.
  - `frontmatter`, `filesystem`: the note file format (frontmatter block,
    wikilinks and their renaming, free file names).
  - `graph/`: edges from links, folder navigation, and the mouse decisions and
    geometry of the graph view.
  - `global_palette`, `sidebar`, `app_config`: the note palette, the
    navigation strip, and the configuration file.
  Properties that relate several operations (a read gives back a write, undo
  reverts an edit, a cut pasted back restores the text, ...) are public proof
  functions whose names start with `lemma_`.
- `tests/` runs the library on concrete inputs.
- `app/` is the unverified program around the library: file I/O on the note
  folder, the configuration directory, and the floating-point values the
  library leaves out (text zoom, force settings, node disc sizes). It holds
  no window, drawing or force simulation.
