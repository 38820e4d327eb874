# iroh-sdht

A Kademlia-style "sloppy" distributed hash table with latency tiers and backpressure, verified
with Verus.

- `src/` is the library: the state of a node and everything it decides. It does no input or
  output and reads no clock. Lookups and uploads are state machines: `next` says what to send,
  and the outcome is reported back.
- `app/` is a node on iroh's QUIC transport that drives the library. It is reached through
  relays and iroh's address lookup; mDNS discovery is not part of it.
- `tests/` runs the library on concrete values, and networks of nodes without a wire.

Times and latencies are whole nanoseconds, and the resource pressure is in billionths, so that
all arithmetic of the library is exact.

Two parameters adapt to the outcomes of remote calls that are remembered: the bucket size `k`
goes from 10 without failures to 30 when every call fails, and the lookup parallelism `alpha`
from 2 to 5. Before any outcome both are as given.

A lookup keeps the contacts nearest to its target, and of those it asks the ones in faster latency
tiers first. Values that had to leave the store are passed on by lookups that admit only the
slowest tier; every tier has a peer with known latency once the tiers were computed.

| Constant | Value |
|----------|-------|
| `K_DEFAULT` | 20 |
| `ALPHA_DEFAULT` | 3 |
| `MIN_K`, `MAX_K` | 10, 30 |
| `MIN_ALPHA`, `MAX_ALPHA` | 2, 5 |
| `MIN_LATENCY_TIERS` | 2 |
| `MAX_LATENCY_TIERS` | 5 |
| `TIERING_RECOMPUTE_INTERVAL` | 30 s |
| `PRESSURE_THRESHOLD` | 0.8 |
| `LOCAL_STORE_MAX_ENTRIES` | 100,000 |

Two outside crates are called from the library, each behind trusted contracts: `iroh-blake3` in
`src/hash.rs` and `lru` in `src/lru_cache.rs`.
