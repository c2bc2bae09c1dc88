# irc_chat

A small IRC-style chat: a server that keeps accounts (bcrypt-hashed
passwords, saved as JSON in `users.json`), nicknames and channels, a console
client, and a GTK client.

- `src/` is the library, verified with Verus: text handling (`text`), the
  name-keyed maps the server keeps (`name_map`), accounts and their JSON form
  (`accounts`), channels (`channels`), the per-message dispatch of a client
  session (`server`), and the clients' decisions (`client`).
- `app/` holds the programs around it: the TCP server with its threads and
  locks, the console client, and the GTK front end (`gui.rs`, which needs the
  GTK 3 system libraries and is not linked into the binary).
- `tests/` runs the library on concrete values.
