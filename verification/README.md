# bluenine

An AWS session token manager: it creates, refreshes, shows and cleans
session profiles (`NAME-session`) in `~/.aws/config` and `~/.aws/credentials`.

The library under `src/` is verified with Verus:

- `text` — splitting text on a separator as `str::split` does, trimming,
  searching, and the facts about the pieces that splitting yields.
- `config` — the profiles of the config file: reading the file text
  (`load_config`), writing it (`AWSConfig::save`), lookups and updates.
- `credentials` — the session entries of the credentials file: the text
  appended for a new session, the expiration time read back, removal.
- `numbers` — reading decimal `u32` and `i32` values.
- `expiry` — the expiration time of a session, its timestamp (through
  chrono) and the time left.
- `session_handler` — what `create`, `show`, `refresh` and `clean` decide.
- `roundtrip`, `laws` — proofs: a saved config loads back as the same
  profiles, written credentials read back, cleaning removes what it should,
  and more.

`app/main.rs` is the command line program: it reads and writes the files,
calls AWS STS through rusoto, and prints the reports in colour.
