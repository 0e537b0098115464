# hotaru_mqtt

MQTT for the Hotaru framework: wire codec, sessions, topics, a client and a
multi-tenant broker, as a library whose behaviour is stated in contracts and proved
with Verus.

## Layout

- `src/` is the library. It does no input or output: whoever drives a connection
  hands in packets and events and carries out what comes back.
  - `codec`, `wire`, `packet`, `properties`: packets and their bytes.
  - `topic`, `text`: topic names, filters and the texts they are made of.
  - `session`, `channel`, `pmap`: what a connection and a session remember.
  - `client`, `protocol`, `dispatch`, `context`, `request`: the client's side.
  - `broker`: the broker's side. `broker::broker` holds its state and the fan-out,
    `requests` what a client asks for, `server` and `inbound` the steps of one
    connection, `fanout` the worker behind it, `tree` the subscriptions, `delivery`
    the way to one subscriber, `defaults` the stores, `laws` what holds across
    operations, and `history` what holds through any course of them.
  - `auth`: users and access rules from a JSON document, and password hashes.
  - `buffer`, `keyed`, `display`, `error`, `safety`: what the others share.
- `app/` puts sockets, timers and tasks around the library: a client and a broker as
  protocols of the framework, over any of its transports, TCP by default.
- `tests/` runs the library from outside. `tests/integration.rs` drives a broker with
  in-memory connections.

## Contracts

Each type has a model, its view, and the functions are stated over models. What an
operation does to a broker is a relation between two models (`publishes`,
`registers`, `unregisters`, `finishes`, `dispatches`): where a store lists things in
no particular order, every order is allowed.

The hooks of a broker (`Authenticator`, `AclChecker`, `TenantResolver`) promise
nothing. A function that asks one says what it asked; the function of the same name
that ends in `_decided` takes the answer and says what follows from it.

Functions named `law_*` are proved statements about several operations: packets
survive encoding and decoding, a message reaches every subscriber of its tenant and
nobody else, a session outlives its connection, and so on.
