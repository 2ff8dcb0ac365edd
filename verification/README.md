# lz4_rs

LZ4 compression in Rust, verified with Verus: the block codec, the
high-compression compressor, the frame format, frames in files, and the xxHash
checksums that frames use.

## Layout

- `src/format.rs`: the block format. What a block stands for, how sequences are
  encoded, and that decoding undoes encoding, in whole or in part.
- `src/block/`: the fast compressor and the block decoders, in one piece, as a
  stream, with dictionaries, and with state that the caller owns.
- `src/hc/`: the high-compression compressor. `mid` holds levels 1 and 2, `lazy`
  levels 3 to 9, `optimal` levels 10 to 12.
- `src/frame/`: frames. `compress` and `decode` are the contexts, `decoder` is
  the decoder as a state machine, `cuts`, `ending`, `laws`, `pieces`, `progress`
  and `round_trip` say what holds of them together.
- `src/file.rs`: frames in a stream that the caller provides.
- `src/xxh.rs`: the 32-bit and 64-bit hashes.
- `app/`: types with the memory layout of the C interface.

Contracts speak of byte sequences. Each compressor is specified exactly, as a
function from its input, tables and room to the sequences that it writes.
Separate theorems, named `law_*`, state what that is good for: blocks of every
level encode their input, the bound is room enough, and frames and files give
back what was put into them, however they are cut into pieces.

Two functions of the standard library are taken on trust: the byte order of the
host (`u16::to_ne_bytes`) and the capacity of a vector (`Vec::capacity`).
