# Flint

An embedded key-value store: an append-only log on disk and an index in memory, with
the store's logic verified by Verus.

- `src/` is the library. It decides what is written, read, synced and deleted, and in
  which order, and says in contracts what that means for the values of the store.
- `app/` is the `flint` command. It carries out on files and sockets what the library
  decides.
- `tests/` runs the library over files that are held in memory.

## The library

| Module | What it holds |
| --- | --- |
| `record`, `crc`, `segment` | the record format, and the replay of a segment |
| `keydir`, `sorting`, `naming`, `decimal`, `text` | the index, and names, numbers and words |
| `action` | the steps that the store asks for, and their effects in memory |
| `store`, `opening`, `compaction` | the store: setting, reading, deleting, opening, compacting |
| `disk`, `writing`, `reopening`, `merging`, `power` | what all of this does to the values, across restarts, crashes and losses of power |
| `server`, `conversation`, `dialogue` | the line protocol, and what it promises to clients |
| `json`, `mcp` | the tools by which an agent uses a store as its memory |

An operation gives a list of steps. The caller takes them in their order: it carries
out the step's action and, once that has succeeded, reports its effect with
`Store::done`. A step that fails ends the operation, unless `Step::is_needed` says that
the store can do without it. A write that failed is reported with `Store::failed`, with
the length that the active segment then has.

A store is opened segment by segment. `Opening::wanted` says how many bytes to read next
and `Opening::feed` takes them, so that no more than one record is held at a time;
`Opening::replay` takes a whole segment at once and comes to the same.
