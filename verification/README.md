# protohackers

Servers for the Protohackers network challenges. The protocol logic is a Verus
library under `src/`, proved against its contracts; `app/` is the executable
that does the networking with tokio and hands the library plain values.

- `speed_daemon`: the Speed Daemon binary protocol (decoder, encoder), the
  per-client state machine, the observation store and the per-road ticket boxes.
- `chat`: the chat room (usernames, roster, message lines).
- `database`: the key-value store with its protected `version` key.
- `prime`: primality requests.
- `price`: the 9-byte price protocol.
- `proxy`: the Boguscoin address rewriting, a small grammar on characters.
- `echo`, `problems`, `error`, `util`: the rest.
