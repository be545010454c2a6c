# relay_board_five_chn

Control logic of a five-channel relay board with an HTTP interface, verified with Verus, and the
firmware around it.

`src/` is the library. It decides what a request asks for, queues the command for the relay task,
carries commands out, and writes the replies, byte for byte. Every function states what it returns,
and Verus checks that it does.

- `bytes`: byte strings, searching them, and reading decimal numbers.
- `board`: the levels of the relay pins.
- `relay`: commands, the queue they wait in, and the relay task.
- `tasks`: collecting a request (`headers`), deciding it (`api`), replying to it (`reply`), and the
  life of a connection (`worker`).
- `api`: a stricter API that compares whole request lines.
- `network`: what the Ethernet bring-up derives from the address of the board.
- `properties`: what holds of requests and replies as a whole.

The queue is a channel of the `embassy-sync` crate. What the library relies on about it is stated in
`relay`, at the three functions that call it, and is not proved.

`app/` is the firmware for the ESP32: pins, sockets, timers and tasks. `tests/` runs the library on
concrete values.
