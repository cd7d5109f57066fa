# proteus

Sessions in which two peers exchange encrypted texts. Each text has a key of its
own: the keys come from chains that move on with every text, and the chains from
key agreements that are renewed whenever the direction of the conversation turns.

A peer publishes prekeys. Another peer starts a session from one of them and can
send texts at once. Texts may arrive late, in another order or not at all, and both
peers may start a session at the same time.

## Layout

- `src/` is the library, in Verus.
  - `primitives` calls the outside crates: HKDF, HMAC, ChaCha20 and X25519. What
    these compute has a name and no definition.
  - `derived`, `keys` and `message` hold keys, prekeys and messages.
  - `session` holds sessions: `chain` the keys that move on, `state` what one
    session state does, `error` why a message is refused.
  - `list` and `wire` hold lists and the writing of values as bytes; `binary` says
    how each type is written.
  - `laws` states what holds of two peers and of sessions as a whole: what is sent
    is received, both sides of a handshake agree, what comes twice is refused, the
    limits are kept.
- `tests/` runs the library with the outside crates.
- `app/` makes refusals errors of the standard library.

## Limits

A session keeps 100 states, a state 5 chains to receive and the keys of 1000
messages that were passed over. A message more than 1000 positions ahead is
refused. Of several messages that were passed over at once, those that arrive late
are accepted from the last to the first.
