# portalnet

The decision logic of an iterative node lookup in a Kademlia-style overlay
network, verified with Verus.

A lookup keeps the peers that it knows in the order of their XOR distance to a
target. It hands out the closest peer that has not been asked yet, within a limit
on parallel requests, takes in answers, failures and the passing of time, and
finishes when the closest peers have given enough answers or all peers have been
dealt with.

- `src/findnodes.rs`: the query, `FindNodeQuery`.
- `src/model.rs`: the states of a query and the steps between them, over which the
  contracts of the query are stated.
- `src/laws.rs`: what holds of all states and steps: bounded parallelism, no
  duplicates, termination, what a finished query has found.
- `src/peers.rs`: sequences of peers ordered by distance.
- `src/key.rs`: keys and the XOR metric. Distances are computed by `discv5`.
- `src/query.rs`, `src/time.rs`: the types that a query is made of.
- `src/jsonrpc.rs`: how JSON-RPC requests are served and which requests probe a
  node.
- `app/`: the programs around the library. They need the crates `trin`,
  `trin_core`, `trin_utils` and `ethportal_peertest`.

Time is passed in by the caller, as nanoseconds since an origin of the caller's
choice.
