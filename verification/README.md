# m4againrs

The verified core of an AAC `global_gain` rewriter: the two primitives that
patch a gain value inside an AAC bitstream.

- `bits::adjust_gain_value` adds a signed number of gain steps to an 8-bit
  `global_gain` value, saturating to `0..=255` for every step count.
- `bits::write_bits_u8` writes an 8-bit value at any byte and bit offset of a
  byte buffer, keeping every other bit and dropping bits past the end.

`src/bits.rs` models a buffer as a bit stream (`stream_bit`) and states each
write as `is_bit_write`. Its public proof functions give the laws: reading back
returns what was written (cut at the buffer's end), writing back what was read
changes nothing, a write has one outcome, the later of two writes wins, and the
gain adjustment keeps a gain at zero steps, grows with the step count, undoes
itself when it did not saturate, and composes.

`tests/` runs the functions on concrete buffers and gains.
