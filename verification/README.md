# qaul

A verified core of the qaul.net networking stack, written in Verus.

- `identity`: network identities.
- `frame`: frames, the `SeqBuilder` that cuts a payload into a sequence of
  frames, and `join_frames`, which reassembles a sequence from frames that
  arrive in any order. Proved: reassembly yields the original payload once
  every frame has arrived, and never before, call by call and in any
  order.
- `collector`: the frame collector, which keeps a buffer per sequence and
  hands in completed messages. Proved: when the queue holds any
  interleaving of whole sequences with distinct sequence ids, none of them
  buffered before, draining it delivers exactly one reassembled message per
  sequence and leaves the buffers as they were; and for any queue at all,
  every delivered message is the reassembly of a complete buffer of its own
  sequence id, and no frame is lost or used twice.
- `drivers`: the map of endpoint drivers.
- `addrs`: the address table of the UDP driver.
- `users`, `api`: user profiles, sessions and contacts of `libqaul`.
  Password hashing (`bcrypt`), key encoding (`base64`) and randomness
  (`rand`) are called through small trusted wrappers.
- `assoc`: association lists read as finite maps, with their lemmas.
- `utils`: random bytes and vector helpers.

`app/` holds the asynchronous plumbing (subscription streams and a detached
collector task) that runs around the library.
