# promatrix

Verified core of the Promatrix-4000-IO stack: an 8-output / 7-input digital IO
board controlled over a USB serial port with a line-based text protocol.

* `src/wire.rs` – the protocol: `Command`, `Event`, their parsers and line
  formats, and the round-trip laws between them.
* `src/device.rs` – the device side: line assembly from serial bytes, the
  output/input state, command handling, the `ERR <reason>` answer to a refused line, input-change reporting, log lines,
  packet planning, the USB serial number and the vendor reset interface.
* `src/client.rs`, `src/cli.rs` – the host side's decisions and printed text.
* `src/text.rs`, `src/bounded.rs` – character handling and the `heapless`
  containers the device side uses.
* `app/` – the `promatrix` command-line tool (serial port, threads, printing).
