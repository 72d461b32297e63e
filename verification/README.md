# dpc

A tar-like utility for the BigFile (DPC) archives of Asobo Studio games, with
its format logic verified by Verus.

## Layout

- `src/` is the verified library.
  - `bytes.rs`: little/big-endian byte views and their read/write laws.
  - `lz.rs`, `lz_chain.rs`, `lz_opt.rs`: the LZSS decoder and two encoders,
    each encoder proved to decode back to its input.
  - `codec.rs`: the LZSS and LZ4 codecs behind one interface, and the
    length-prefixed frame they are stored in.
  - `fuel_dpc.rs`, `layout.rs`, `header.rs`: object headers, block
    descriptions, pool manifests and the primary header, each with a parser,
    a writer and a round-trip law.
  - `archive.rs`, `assemble.rs`: taking a whole DPC apart into its manifest
    and object files, and putting one together from them.
  - `round_trip.rs`: for DPCs that `create_dpc` put together without a pool,
    taken apart and put together without LZ: taking apart gives back the
    manifest and files they were put together from, and putting together
    again what taking apart gave gives the same bytes.
  - `round_trip_lz.rs`, `lz_extracted.rs`: for DPCs without a pool, taken
    apart with LZ decompression: what such a taking apart gives, and that
    putting it together again (with LZ compression or without) and taking
    it apart once more gives the same object files, and, with LZ
    compression, the same manifest. Objects marked compressed must hold
    some data. DPCs with a pool are not covered by these laws.
  - `extract.rs`, `create.rs`, `pool.rs`, `manifest.rs`, `validate.rs`: the
    pieces of those operations (split into objects, repack, build the pool
    section, optimise the pool, check a whole file).
  - `tables.rs`: the known versions and class names.
  - `fuel_fmt.rs`: the integer object formats (bitmaps, sounds, resource
    objects, user-defined text, game objects, materials).
- `tests/` runs the library on concrete values.
- `app/` is the command-line program: argument handling, files, JSON and the
  formats that hold floating-point data.
