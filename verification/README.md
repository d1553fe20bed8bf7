# netchat

A chat without servers: nodes find each other over Bluetooth or Wi-Fi Direct
and flood what their users type from node to node.

`src/` is the library, verified with Verus. It holds what a node decides: which
packets to pass on and which to drop (`flood`, `seen`, `relays`,
`transport::protocol`), how a packet is laid out in bytes
(`transport::protocol::packet`), which peers are alive (`services::discovery`),
what to show (`services::chat`), which service a message is for (`router`), and
what belongs to a link (`transport::ble`, `transport::wifi_direct`). Each
function states what it does in its contract; what holds of several functions
together is stated by the public proof functions whose names begin with `law_`.

Five things are taken on trust, each described where it is declared: the two
calls into `uuid` in `identity`, `std::str::from_utf8` and `String::push` in
`text`, and the object path test of `zbus` in `transport::wifi_direct`.

`app/` is ordinary Rust around the library: sockets, buses, radios, tasks, the
terminal, and the CBOR form of frames and messages.

`tests/` runs the library.
