# sshman

An SSH connection manager: saved connections with aliases, tags, colors and stable
numeric ids, SSH passwords stored encrypted under a master password (age, scrypt
passphrase), listing filtered by keyword, tag or local subnet, and SFTP transfers.

The bookkeeping is a library verified with Verus:

- `src/text.rs` — character-level text helpers (search, ASCII case, trimming,
  decimal rendering and `u32` parsing, the `String` order).
- `src/storage/` — base64 (`base64.rs`), the encrypted password table (`table.rs`),
  encryption around age (`crypto.rs`) and the configuration directory's contents
  (`config.rs`).
- `src/models/connection.rs` — connections and the connection list (ids, lookup,
  search, filters, tags, id swaps).
- `src/network/subnet.rs` — IP addresses and the same-subnet relation.
- `src/commands/` — the command handlers and what `ls` lists.
- `src/ui/display.rs` — the cells of the listing table.

`app/` is the program around it: command-line parsing, prompts, reading and writing
`connections.toml` and `config.toml`, the SSH client and terminal output.
