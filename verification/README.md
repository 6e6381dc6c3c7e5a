# mini_udp

A minimal, fully synchronous reliability protocol on top of UDP, with its core proved
correct by Verus.

Messages are written to byte buffers by the `ByteRepr` trait, combined into packets of at most
1024 data bytes, framed with a CRC seeded by the protocol version, and sent unreliably,
reliably, or reliably and in order. Reliable packets are resent until the other side
acknowledges them, up to a fixed number of times.

## Layout

- `src/` is the verified library. It never touches a socket or a clock: callers hand it the
  received datagrams and the current time in milliseconds, and send the frames it returns.
  - `byte_repr`, `layout`: the byte representations of messages and their lengths.
  - `bit_repr`: byte representations that a type describes through its own values, written
    and read many at a time.
  - `ring_buffer`: the window of the last 32 packet ids that sent and received packets live in.
  - `packet`, `frame`: packets, their acknowledgements, and the CRC framing.
  - `communicator`: one side of a connection-less exchange of unreliable, reliable and
    reliable ordered messages.
  - `delivery`: reliable ordered packets taken in over many calls, in any order and any number
    of times, hand out their messages once each and in order, window after window, for a
    communicator and for a session.
  - `connection`, `session`, `reliable_ordered`, `unreliable`, `session_inner`: the salted
    handshake and the sessions built on it.
  - `context`, `error`, `fragmentation`: configuration and errors.
- `app/` owns the sockets: it binds them, reads datagrams, sends frames, keeps the time, and
  logs errors.
- `tests/` runs the library on concrete values.
