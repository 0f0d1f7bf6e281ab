# mule-engine

The engine of an eD2k/Kad client, verified with Verus.

`src/` holds the rules, each with its contract and proof. It does no I/O: callers bring bytes,
times and addresses, and get back bytes to send or write and decisions to carry out.

| modules | what they hold |
| --- | --- |
| `wire`, `tags`, `text`, `proto`, `net`, `hash` | plain values, their bytes, and digests |
| `part_file`, `part_store` | which bytes of a download are there, what to ask for next, the sidecar file |
| `block_sources`, `aich`, `aich_tree`, `known2_store` | who sent what, trust in a hash tree's root, the tree, the store of trees |
| `multi_source`, `peer_session`, `retry` | a download from many peers, one peer's session, whose turn it is |
| `peer`, `peer_conn`, `obf_handshake` | how two peers meet |
| `search`, `query`, `link` | searching a server, and the connection to it |
| `kad_wire`, `kad_serve`, `kad_live`, `kad_lookup`, `kad_publish` | Kad messages, what is answered, what is learned, lookups, publishing |
| `portmap` | asking the gateway for a port |

`app/` drives the library on files and sockets. `tests/` runs it on concrete values.

Trusted are the digests of the `md4` and `sha1` crates, named by `hash::md4_digest` and
`hash::sha1_digest`, and two functions of `String` in `text`.
