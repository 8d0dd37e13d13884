# dkim-lite

An outgoing-only Postfix milter that adds RFC 6376 RSA-SHA256 DKIM signatures. The library under
`src/` is written in Verus: what each function does is stated in its contract and proved.

| Module | What it holds |
| --- | --- |
| `body`, `header` | Relaxed canonicalization of bodies, hashed as they arrive, and of headers |
| `address` | The domain of the one address in a From header |
| `dkim`, `fold` | Which headers are signed, what is signed, and the signature header |
| `frame` | Milter packets on the wire |
| `message`, `milter` | A message with its limits, the session, and the connection |
| `settings`, `config` | The configuration file, the key, the listener, FIPS policy, reloads |
| `keygen`, `install` | Making a key, its DNS record, and the steps that store it |
| `service`, `cli` | Listener, workers, signals, and the command line |
| `crypto`, `clock`, `text` | OpenSSL, the time of day, and text |

Functions whose names begin with `law_` state what holds of the library as a whole. The library
does no input or output: it is handed what came in, and says what is to be done. `app/` is the
daemon around it, which reads and writes sockets and files.

What is believed without proof stands in `crypto` (OpenSSL), `clock` (the system clock), and in a
few wrappers of std in `address`, `config`, `install` and `text`. Each says what it claims.

## Behaviour

- A message is signed only if it has exactly one usable From header whose domain is the configured
  one. Every other message, and every message for which signing fails, is accepted as it is.
- Reports of such messages hold nothing of the message.
- The key must be an unencrypted RSA key of 2048 to 4096 bits that OpenSSL signs with.
- `require_fips` defaults to `true`; then both the kernel and OpenSSL must report FIPS mode. The
  daemon reads what they report, and the library decides.
- A reload that fails leaves the active configuration in place. A message keeps the configuration
  that it began with.
- A message may have 1,000 header fields of 1 MiB together, and a packet 1 MiB. No packet is
  answered once a connection has lasted 60 seconds, by the time that the daemon tells.
- No more connections wait than twice the number of workers, of which there are at most 32.
