# Hadron

A USB client for Goldleaf on the Nintendo Switch: it answers Goldleaf's
0x1000-byte command blocks (`GLCI` in, `GLCO` out) with the host's drives,
directories and files, and keeps a list of named "special paths" in a
file of `name=value` lines (names may carry the backslash escapes of Java
properties files, as other Goldleaf clients write them).

- `src/` is the verified library: the little-endian buffer codec, the
  command-block protocol, request decoding and every response, the device
  check, the open-file session, path rules and drive lists, the special-paths
  configuration (its text format, sorted entries and default location), the
  interface state, the command line and
  the log line format. Verus proves each function against its contract;
  the few calls into std and chrono go through small wrappers whose
  contracts are trusted, not proved, and say what the outside code
  documents.
- `app/` is the program around it: USB transfers through `nusb`, the file
  system, the window drawn with `eframe`/`egui`, and the file dialogs of `rfd`.
- `tests/` runs the library on concrete values.
