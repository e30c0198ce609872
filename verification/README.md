# rustscreen

Use an Android phone as a second display of a Mac, over the USB cable. The host creates a virtual
display, captures and encodes it, and streams it to the phone, which decodes it onto its screen.
Touches go the other way.

The library under `src/` holds everything about this that can be stated and proved, in
[Verus](https://github.com/verus-lang/verus):

- `protocol`: length-prefixed frames, the messages in them, H.264 byte streams and
  parameter sets, clock offsets.
- `macos_host`: the send sessions, the encode pacing, the latency bookkeeping, touches as pointer
  actions, the accessory handshake, the daemon's control plane, and the steps of the host.
- `android_client`: the receive session, decoding behind an input pacer, touches, the surface
  handover, and what driving a hardware decoder takes.
- `cg_virtual_display`: the modes and the placement of the virtual display.
- `xtask`: version handling and the plans for building and packaging a release.
- `wording`: what the errors say to a user.
- `io`, `time`, `text`, `path`, `bits`, `count`: what the others stand on. Links are modelled by
  their contents and clocks by what they have said; floating-point numbers are handled by their bit
  patterns.

Each function states in its contract what it returns or changes. Properties that span functions are
public proof functions whose names begin with `law_`.

`app/` is ordinary Rust around the library: files, processes, threads, USB, the system's display,
capture and decoder interfaces, and floating-point output. One executable holds all programs and
goes by the name that it is called by (`rustscreen`, `xtask`, and a few that try out one part each).

`tests/` runs the library on concrete values, with the outside crates linked.
