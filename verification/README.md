# tree_explorer

A file explorer for a text editor: a tree of directories that is moved about in with keys,
shows the marks of `git status`, and asks before it creates, deletes or renames files.

- `src/` is the library. It holds the tree, the order of its entries, what keys and answers
  to prompts do, the reading of `git status`, and the layout of rows. All of it is verified
  with Verus: contracts speak of mathematical models (`tree::NodeView`,
  `explorer::ExplorerView`), and `shape`, `distinct`, `shown`, `guides`, `steady`,
  `explorer::laws` and `explorer::drawing` state what holds of them as a whole.
- The library does no input or output. It is handed what was read (`listing::Snapshot`, the
  output of `git status`) and says what it needs (`TreeExplorer::dirs_to_read`,
  `TreeExplorer::listing_wanted`) and what is left to do (`events::Action`).
- Paths are those of Unix: bytes, with slashes between them.
- `app/` reads the disk, runs `git`, changes files and paints.
- `tests/` runs the library on small trees.

What is trusted rather than proved: `String::from_utf8_lossy`, `str::to_lowercase` and
`String::push` of the standard library, and the width of a character from `unicode-width`.
