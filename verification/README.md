# Lain

A network of peers that needs no server: no bootstrap nodes, no DNS, no
certificates. A peer is known by the hash of its public key, an invite is the way
in, and a distributed hash table tells where a peer can be reached.

The library is written in Verus. Every function states in its contract what it
returns or changes, and the contracts are proved.

## Layout

- `src/`: the library. It does no input or output.
  - `identity`, `peer`, `capabilities`, `invite`, `endpoint`: who a peer is, how it
    is named, and how it is invited.
  - `frame`, `http`, `mdns`, `directory`, `stun`: the formats of the wire.
  - `dht`: records, routing table, messages, open queries, and the node itself;
    `dht::laws` states what holds of all of them together.
  - `noise`, `transport`: the handshake, and how connections are made on top of it.
  - `tso`, `port_predict`: simultaneous TCP connections through NATs.
  - `conn_mgr`, `session`, `daemon`, `supervisor`, `iface_watcher`: the decisions of
    the daemon.
  - `ipc`, `cli`, `config`: how the daemon is asked, and what the command line
    shows.
  - `base62`, `base64_text`, `hexadecimal`, `json`, `bytes`, `text`, `peer_map`,
    `primitives`, `clock`, `error`: what the others are built of.
- `app/`: the program: sockets, files, processes, time, and the JSON and TOML forms
  of the library's types.
- `tests/`: tests of the library.

## What is proved

Public proof functions named `law_..` state what holds of several functions
together: that what is written is read back (frames, invites, messages, records,
addresses, routes, a whole handshake and the messages behind it), that a record
which was stored is found, that a refused request changes nothing, that an answer
is taken once, and others.

## What is taken on trust

Calls into other crates stand behind small functions whose contracts are not
proved. Their doc comments name the function that they call and say what is claimed
of it: `primitives` (`sha2`, `ed25519-dalek`, `x25519-dalek`, `rand`), `noise`
(`snow`), `base64_text` (`base64`), `hexadecimal` (`hex`), `json` (`serde_json`), and
`clock` and `text` (the standard library).
