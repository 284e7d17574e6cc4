# madoua_kr

Patch tooling for a Korean version of *Madou Monogatari A* on the Game Gear, as a library
whose logic is verified with Verus.

- `src/` is the verified library: the tracked ROM and its checked writes, the text tables
  and their encodings, script extraction and relocation, the interface graphics with their
  compression, BPS patches, the rules for translations, and the rules for runtime probes.
- `tests/` runs the library on concrete values.
- `app/` is the command line around it: files, JSON, font rasterising, the assembler and
  the emulator.

The build as a whole is described in `src/build_rom.rs`; what can be read back from a
finished build is stated in `src/read_back.rs` and, for the interface labels, in
`src/label_laws.rs`, and what the glyph handler does on the console in
`src/z80_machine.rs`.

No ROM, font or translation is part of the project.
