# adcnet

An auction-based anonymous DC net, written in Verus: executable Rust whose
behaviour is stated in `requires` / `ensures` contracts and proved.

Clients blind what they send with pads that they share with each server. An
aggregator adds the blinded vectors up, each server contributes the sum of its
pads, and taking all of those away leaves the sum of what the clients sent. Two
sessions are composed on top:

- **two rounds** (`protocol::messager`, `protocol::services`): bids ride in an
  invertible Bloom lookup table, a knapsack auction hands out slots, and the
  winners' messages follow in the next round's XOR vector;
- **one round** (`protocol::session::one_round`): payloads ride in the table
  itself, without an auction.

## Layout

| path | what it holds |
|---|---|
| `src/crypto` | prime field, PRF pads, keys, signatures, key exchange, sealed messages |
| `src/auction` | the lookup table, the bid format, the knapsack auction |
| `src/primitives` | field-additive and XOR-additive blinded broadcast |
| `src/encoders` | bids and payloads in tables, messages in slots |
| `src/protocol` | messages, signed envelope, stateless messagers, stateful services, sessions |
| `src/bytes.rs`, `src/collections.rs`, `src/sorting.rs`, `src/sums.rs` | byte strings, ordered maps, stable sorting and sums that the rest builds on |
| `src/randomness.rs` | where the keys of table entries come from |
| `app` | ordinary Rust around the library: error types with messages, services behind a `Mutex`, serde forms |
| `tests` | tests of the library, with the real ciphers and hashes linked |

## Reading the contracts

Each type has a view, a mathematical value that the contracts speak of
(`IbltVector` is seen as a `Table`, `ServerService` as a `ServerState`, and so
on). A function that can fail says on which inputs it fails and with which
error, by equating its outcome with a spec function.

Public proof functions named `law_...` state what holds across calls. The two
that say what the protocol is for are `law_round_delivers`
(`src/protocol/messager/laws.rs`) and `law_round_gives_payloads_back`
(`src/protocol/session/one_round_laws.rs`).

## What is believed without proof

Calls into other crates stand behind small functions marked
`#[verifier::external_body]`, each with a doc comment that says what it claims:
hashes (`src/crypto/hashing.rs`), Ed25519 (`src/crypto/signing.rs`), P-256
(`src/crypto/exchange.rs`), AES (`src/crypto/ciphers.rs`), hexadecimal text
(`src/crypto/hexadecimal.rs`), the byte form of messages
(`src/protocol/wire.rs`) and random keys (`src/randomness.rs`). Ciphers and
hashes are named, not modelled: the contracts say that a result depends on the
arguments and, where it matters, that one call undoes another.

A field pad is cut out of a keystream by rejection sampling. A secret whose
keystream runs dry has no pad of the length asked for; the functions that need
one say so in `requires`, and the `checked_` functions beside them, like the
protocol steps, report it.
