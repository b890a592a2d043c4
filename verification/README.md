# reach

The verified core of Reach, an SSH client with an agent that works on
remote hosts. Everything under `src/` is checked by Verus against its
contracts; `app/` holds the code around it that does I/O (the channel
and file work, serde copies of library types, the partial-JSON parser),
and `tests/` exercises the library on concrete values.

Modules of `src/`, by area:

- Connections: `identity` (identity strings and link scopes), `route`
  (proxies and jump-host chains), `ssh` (known hosts, `~` paths, the
  authentication cascade), `session` (the terminal relay), `command`
  (collecting a remote command's output), `lease` (leasing a connection
  for the agent), `backend` (SFTP session or shell fallback).
- Files: `sftp` (entries, `ls -l` parsing, quoting, errors),
  `exec_backend` (the shell commands and base64 streams used without
  SFTP), `transfer` (pipelined SFTP request scheduling), `remote_fs`
  (encodings, line endings, fingerprints, prepared writes).
- Agent tools: `permissions`, `terminal`, `read_file`, `write_file`,
  `edit_file` with `edit_match` and `diff`, `list_directory`, `fetch`.
- Agent state: `agent_loop`, `providers`, `models`, `config`, `events`,
  `preview`, `threads`, `runs`, `types`, `table`, and `text` for the
  character-level helpers they share.
