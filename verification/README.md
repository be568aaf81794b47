# lattice

A small password store built on a learning-with-errors public-key scheme,
written in Verus.

A private key (the bytes of a master password) is a solution, modulo a
modulus, of a random system of linear equations; the public key is that
system with a small error added to each right-hand side. A bit is encrypted
by summing a pseudo-random run of equations and adding half the modulus for
a 1; the private key predicts the sum without the half and so tells the two
apart, as long as the summed errors stay below a quarter of the modulus.

## Layout

- `src/arith.rs`: Rust's truncating remainder and halving, congruences.
- `src/rng.rs`, `src/encrypt.rs`: the linear-feedback shift register that
  drives key generation and encryption.
- `src/text.rs`: integers written in decimal and read back as `str::parse`
  reads them, split at Unicode white space.
- `src/matrix/mod.rs`: rows, matrices and the public equation, with their
  arithmetic and their text forms.
- `src/matrix/keygen.rs`: key generation and the errors it adds.
- `src/matrix/encrypt.rs`, `src/matrix/decrypt.rs`: encryption of bits,
  characters and whole accounts, and their decryption.
- `src/matrix/correctness.rs`: why decryption gives back what encryption
  hid, for a character, and for keys made by `generate_keys`.
- `src/matrix/account.rs`: a stored account, split into its lines, reads
  back to the user name and the password that were stored.
- `app/main.rs`: the command line and the files (`keygen`, `encrypt`,
  `decrypt`).
- `tests/`: tests on concrete values.
