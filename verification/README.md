# lednet

Control of an LED strip, locally over a serial line or remotely over a UDP
multicast network, written in Verus.

`src/` is the verified library:

- `multinet`: the multicast wire protocol (big-endian data packets), the
  splitting of a message into datagrams and their reassembly, with the laws
  that decoding inverts encoding, that reassembling a split message gives
  it back whatever the order of its datagrams and whatever other messages
  arrive between them, that a resent datagram counts once with its last copy
  winning, and that no datagram numbered within a message of fewer than
  u32::MAX pieces is refused.
- `server`: the decisions of the multicast server between socket events.
- `protocol`, `kv`: the framed little-endian protocol of the key-value
  server, its splitter and joiner, and key-value packets.
- `led_control`, `neopixels`, `text`: pixels, strip effects, the byte
  commands of the strip controller, and the text forms the tools read.
- `lednet`, `patterns`, `visual`, `vamp`, `streams`: the LED network's
  frames, the tools' test patterns, the strip visualisation's triangles,
  plugin values, and a test stream.
- `endian`: the integer byte orders, through the `byteorder` crate.

`app/` holds the programs around it: serial I/O, the sockets and reactor,
serde forms of the messages, and argument handling.

`tests/` runs the library on concrete values.
