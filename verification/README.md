# sef_core

The verified core of a block archive that stores a chain as droplets of a
fountain code.

- `src/chain`: reading the node's `blk*.dat` files. Which files hold blocks,
  removing the obfuscation, finding the frames, hashing the headers, putting the
  blocks in the order of the chain, and handing them to a visitor.
- `src/distribution.rs`: looking up the degrees of droplets. Probabilities are
  bit patterns of double-precision numbers, which are ordered as the numbers
  are.
- `src/trial`: experiments that count how many droplets it takes to decode an
  epoch. Seeds, the order of delivery, taking epochs apart, and the recorded
  table.
- `app`: the command-line program. It reads the files, does the floating-point
  arithmetic, draws the random numbers, and calls the `sef` crate to encode and
  decode.

What is trusted of the crates `bitcoin`, `rand` and `rand_chacha` stands in
`src/chain/header.rs` and `src/trial/delivery.rs`.
