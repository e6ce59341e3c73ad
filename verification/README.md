# smart_fec_tunnel

An authenticated tunnel for UDP with adaptive forward error correction, a SOCKS
balancer, a QUIC relay and a deployment planner.

- `src/` is the library. Everything in it is verified with Verus: wire formats, the
  redundancy controller, encoder and decoder, session admission, device
  authentication, the QUIC carrier, module resolution, planning and revision
  transactions.
- `app/` holds the programs around it: sockets, timers, TLS, files and rate shaping.
- `tests/` runs the library on concrete values, with the real cryptography and the
  real erasure code.

## What is proved

Functions state exactly what they return, as far as that does not rest on chance, time
or a caller's own code. Beyond that, the functions named `law_...` state what holds of
the library as a whole:

- `session`, `delivery`: what an encoder sends over a link that loses, repeats and
  reorders frames comes out of a decoder unchanged, just once, and completely as long
  as no group loses more frames than it has parity shards. Over a link that loses
  nothing and keeps the order, it comes out in the order of sending. A session may last
  as long and send as much as it likes, within what a decoder keeps: the frames of one
  group come less than two seconds after the first of them, the parts of one datagram
  less than three seconds, no more than 2048 groups and 4096 incomplete datagrams are
  that young at a time, no datagram has more than 64 parts, and a frame that comes
  after a loss report is no more than the reorder window of 64 frames behind those
  before the report.
- `frame`, `server`: frames are read back as they were written, under the key of the
  device that they bear. What is accepted is, byte for byte, a frame that was tagged
  under that key or an envelope that was sealed under it with the nonce it carries, and
  an envelope with any other tag is refused. That others cannot make a tag is what the
  hash and the cipher are for, and is not proved here.
- `adaptive`, `endpoint`: redundancy stays in range and moves only on repeated reports.
- `quic_auth`: a proof is accepted for its device, channel and time, and just once as
  long as less comes in between than fills the memory of proofs anew.
- `quic_relay`: datagrams that travel in parts are put together again.
- `admission`: no frame makes a server exceed a limit.
- `product_config`, `controller`: accepted modules fit together, and automatic rollback
  is always among them; a transaction goes forward step by step, and a file is written
  whole or not at all.
- `balance`: clients take turns, an upstream that was not reached waits until the others
  were tried, and no upstream is spared before a client is turned away.

## What is trusted

`crypto` (BLAKE3, XChaCha20-Poly1305, constant-time comparison, random bytes),
`erasure` (the Reed-Solomon code), `pem` (certificates and keys) and `clock` call other
crates or the standard library, and `text` appends characters with `String::push`. What
is claimed of these is written above each declaration.
