# cronet_receiver

A TCP receiver for a small binary protocol. Clients send frames

```
Magic(4) | TagAppLen(2) | TagUrlLen(2) | PayloadLen(4) | EndFlag(4) | TagApp | TagUrl | Payload
```

(integers big-endian). Frames with the same tag are gathered until one
carries a non-zero end flag; the gathered bytes are read as JSON and routed,
by a table of regular expressions, to a Redis stream.

Layout:

- `src/protocol.rs` — the frame decoder (`ProtocolCodec::decode`), `Packet`,
  and the laws on frames (a frame decodes to its fields whatever follows it;
  an incomplete frame waits).
- `src/buffer.rs` — the `bytes::BytesMut` operations the decoder uses.
- `src/assembly.rs` — `Assembler`, which gathers chunks per tag and completes
  messages, with the laws on gathering.
- `src/config.rs` — configuration types, routing rules and the route table.
- `src/text.rs` — string helpers: placeholder filling, tag truncation.
- `app/` — the server: configuration file and hot reload, TCP and `tokio`
  plumbing, the `tokio_util` codec adapter, and Redis.
