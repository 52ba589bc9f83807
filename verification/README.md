# horcrux

Split an Ed25519 signing seed among guardians, a threshold of whom must come
together to use it.

* Mode A: Shamir's Secret Sharing over the secp256k1 scalar field. Each share is
  encrypted under its guardian's password (Argon2id, AES-256-GCM) in a shard
  file; any threshold of shard files reconstructs the key.
* Mode B: FROST threshold signatures. The same seed is dealer-split into
  encrypted key shares, and signing never reconstructs the key; `qr_mpc` runs
  the protocol over an air gap. Any threshold of the shares of one split gets a
  signature or FROST's group error, which rests on the nonces that are drawn, and
  fewer is refused; a signature verifies under the seed's own key.

`src/` is the library, verified with Verus. `app/` reads and writes the files,
tells the time, and converts to the types of the crates around it.

| module | holds |
| --- | --- |
| `lib` | Mode A: `init_shards`, `reconstruct`, signing from shards or shares |
| `mpc` | Mode B: share files, the dealer split, the two signing rounds |
| `qr_mpc` | requests, commitments, signing packages and shares over an air gap |
| `frost` | FROST values in byte form and the calls into `frost-ed25519` and `frost-core` |
| `sss`, `field` | secret sharing, and why a threshold of shares determines the secret |
| `crypto`, `key`, `secret` | sealing, keys, bytes that are overwritten when they are dropped |
| `shard`, `files`, `audit` | shard files, file contents, log entries |
| `bytes`, `text`, `error`, `idmap`, `steps` | encodings, messages, the identifier map, sequences of fallible steps |

What the library takes on trust stands in functions marked
`#[verifier::external_body]`, each with a comment that says what it claims of the
crate it calls.
