# wem_kernel

The kernel of a block-based note system, verified with Verus.

- `src/position.rs` — fractional positions that order sibling blocks.
- `src/parser/` — the Markdown parser (text to a block tree) and serializer
  (block tree to text), with the types they share.
- `src/model.rs`, `src/model/oplog.rs` — blocks, their types and statuses,
  and the records of the operation log.
- `src/service/store.rs` — the block store: one row per block, unique
  identifiers, valid positions.
- `src/service/block.rs` — block operations on the store: create, read,
  update (with list and heading type changes), delete, delete and restore
  subtrees, move, documents, children pages, exports.
- `src/service/paragraph.rs` — splitting a block at the cursor and merging
  it into the block before it.
- `src/service/batch.rs` — batches of operations with temporary
  identifiers.
- `src/service/outline.rs` — a document's flat list in reading order and
  the tree rebuilt from heading levels; `src/service/heading.rs` — heading
  levels and the flat-list moves of headings and sections.
- `src/service/lifecycle.rs` — what the operations promise across calls.
- `src/service/history.rs` — operations that return the changes they
  made, and undo and redo of those changes on the store.
- `src/service/document.rs` — importing text as a new document.
- `src/service/` (other files) — list nesting, undo/redo planning and
  history, asset uploads.
- `src/agent/` — the agent loop's phases, chat admission and request
  replay protection, permissions, the decisions taken for each tool call,
  and the translation of a conversation into request messages.
- `src/cli.rs` — pure helpers of the command-line front ends.
- `src/api/` — request, response and query shapes.
- `app/` — a small command-line program around the library.
