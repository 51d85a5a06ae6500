# Keepstone

Keepstone leaves an encrypted message at a place: only the chosen recipient
devices can read it, the H3 cell it is left in gates delivery, and a signed
append-only log lets anyone check that it existed.

## Layout

- `src/` — the library, verified with Verus. Functions state their
  behaviour as `requires`/`ensures` contracts over spec functions and views;
  where a result rests on randomness or the clock, the contract states what
  holds of every outcome.
  - encodings: `cbor` (canonical CBOR), `types` (drop bodies and signed
    envelopes), `protocol` (peer messages and framing), `presence`
    (presence requests, attestations, certificates), `files` and `text`
    (the key, contact, log and receipt file formats), `http` (request
    parsing, query decoding and routing for the local daemon), `hexcode`;
  - cryptography: `keys`, `sealed`, `hybrid`, `hybrid_sig`, `aead`, `kdf`,
    `stream` (chunked encryption), `shamir` (secret sharing over GF(2^8)),
    `interpolation` (why any threshold of shares gives the secret back),
    `place` (place-locked drops), `pow` (proof of work);
  - log: `merkle` (RFC 6962 trees, inclusion and consistency proofs), `sth`,
    `anchor` (hash-chain anchoring of tree heads);
  - storage and peers: `node` (clock and storage), `relay`, `store` (creating,
    finding and opening drops), `peer` and `p2p` (answers to peer requests),
    `address` (H3 cells).
  Calls into outside crates (RustCrypto, dalek, h3o, ml-kem, ml-dsa, rand,
  hex) go through small trusted wrappers whose doc comments say what their
  contracts claim.
- `tests/` — tests run against the compiled library with the real outside
  crates.
- `app/` — the `keepstone` command-line program: argument handling, files on
  disk, the local HTTP daemon, TCP and libp2p networking, and the conversion
  of latitude and longitude to H3 cells.
