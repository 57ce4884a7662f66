# candid

Serialization of Candid messages, with its contracts proved by Verus.

A message is the four bytes `DIDL`, a type table, the types of the
arguments, and the values of the arguments. `IDLBuilder` collects arguments
(Rust values through the `CandidType` trait, or `IDLValue`s, optionally given a
type and an environment of type variables) and writes the message.

Layout of `src/`:

- `leb128.rs`, `little_endian.rs`: the number encodings, their specifications
  and the round-trip laws; the calls into the `leb128` and `byteorder` crates.
- `types.rs`: the type language (`Type`, its model `IdlType`) and `TypeEnv`,
  the sorted bindings of type variables.
- `type_ser.rs`: the type table (`TypeSerialize`), specified by `build`, with
  the laws of its memo.
- `value_ser.rs`, `candid_type.rs`, `value.rs`: the value encodings.
- `builder.rs`: the message.

`app/` writes a message to any `std::io::Write` and holds the floating-point
encodings.
