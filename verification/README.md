# zebin

A zero-copy binary archive format, written in Verus: every encoder, decoder and check
of the format carries a contract over a mathematical model of its bytes. Round trips
are proved as lemmas for the value kinds the library writes: fixed-layout values,
strings, options and results, packed and varint vectors, and sequences and maps of
fixed-layout elements. Archived roots and sequence elements are fixed-layout values;
records, nested and variable-size elements are not covered.

## Layout

- `src/` — the verified library.
  - `format`, `schema`, `access`, `validator`, `reader`: the archive header, object and
    field encodings, field entries, the layout section, whole-archive checks and readers.
  - `cursor`, `sink`, `chunk`, `utils`: reading cursor, resumable writing sinks,
    byte chunks, alignment padding.
  - `primitive`, `array`, `varint`, `varint_vec`, `string`, `option_result`, `packed`,
    `packed_vec`, `packed_seq`, `container`: encoders and decoders of the value kinds,
    and of values behind a box, a reference or shared ownership.
  - `seq_serializer`, `owned_iter`, `map_encoder`, `block_index`, `iter`,
    `decoded_iter`, `strategy`, `archived_vec`, `seq_roundtrip`, `iter_laws`: sequences
    and maps, their block index, indexed access, the proofs that what is written reads
    back, and that iteration, `get` and `iter_from` agree.
  - `attrs`, `field_attrs`: the rules of the derive attributes (`id`, `skip`,
    `rename`, `packed`, `schema_key`, `revision`) over a plain description of a type.
  - `message`, `error`, `rel_ptr`, `helpers`: errors and their messages, relative
    pointers, shared encoder steps.
- `tests/` — tests run against the compiled library.
- `app/` — what Verus does not take: memory-mapped file storage (`memmap2`), a
  serializer over `std::io::Write`, an error type that also carries I/O errors, and the
  reading of `syn` derive input into the library's plain description.
