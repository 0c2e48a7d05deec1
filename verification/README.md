# rowd

Rowd keeps pairs of folders, called Shares, the same on a Linux PC and an
Android phone over the local network, without a server in between. Deletions do
not spread, and two versions of a file that conflict are both kept.

- `src/` is the library. Everything in it is verified with Verus: each function
  states what it returns or changes, and public proof functions whose names begin
  with `law_` state what holds of several functions together. Calls into other
  crates stand behind a few items in `primitives.rs`, `layout.rs` and `text.rs`
  whose contracts are believed; each says what it claims.
- `tests/` runs the library.
- `app/` is the program around it: files, sockets, threads, the terminal and the
  phone's native interface.

| modules | what they hold |
| --- | --- |
| `text`, `paths`, `collections`, `primitives` | characters, paths, ordered maps and sets, digests and encodings |
| `model`, `ignore`, `journal`, `storage`, `walk`, `install` | manifests and reconciliation, ignore rules, the store of a folder, looking through a folder, replacing a file step by step |
| `opening`, `sync`, `tokens`, `convergence`, `preservation` | how a round of a Share begins, its steps, what an interruption leaves behind, and what a whole round achieves and never loses |
| `protocol`, `invitation`, `managed`, `phone`, `session`, `unlink`, `watch` | messages and frames, pairing, both sides of a session, the end of a pairing, watching folders |
| `config`, `device`, `migration`, `backup`, `restore`, `app`, `trace` | the configuration, its copies, and the operations on it |
| `keys`, `labels`, `layout`, `dialogs`, `screen`, `tui` | the terminal's pages and dialogs |
