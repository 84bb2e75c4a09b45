# waypipe_core

The logic of a Wayland proxy that forwards an application's connection between two
machines, written in Verus with its behaviour stated as contracts and proved.

Layout:

- `src/damage.rs` – byte ranges of a buffer covered by damaged rectangles, and merging of
  such range lists.
- `src/surface.rs` – mapping damage between surface and buffer coordinates (scale,
  transform, viewport), and the damage of a surface's buffer since its last commit.
- `src/copy.rs` – copy regions between a linear buffer and an image.
- `src/read.rs` – splitting the byte stream between the two proxies into messages.
- `src/wire.rs` – Wayland wire messages: output buffer, header retagging, arguments.
- `src/tracking.rs` – protocol objects, dmabuf format tables and tranches, the generic
  paths for messages.
- `src/dispatch.rs` – processing one message: surface and viewport state, object
  lifetimes, window titles, and the generic paths for the other messages.
- `src/supervise.rs` – the decisions of the top-level loops: choosing an X display number,
  and supervising the main command, the X helper and the connection handlers.
- `src/mirror.rs` – a buffer copy written through non-overlapping reserved ranges.
- `src/clock.rs` – offsets between clocks and timestamp translation.
- `src/options.rs` – `ssh` argument scanning, VSOCK specifications, connection commands,
  random connection tags.
- `src/devices.rs` – choice of the GPU device and of buffer modifiers, sizes of buffer views.
- `src/bytes.rs` – little-endian encoding.
- `app/main.rs` – a small command-line program doing the file, clock, socket, process and
  stream I/O around the library: it reserves an X display, supervises a command, and
  splits and processes protocol messages read from standard input.
- `tests/` – tests on concrete values.
