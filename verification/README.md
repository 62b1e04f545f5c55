# Mortise

A delay-based congestion controller in the manner of Copa, written in Verus. Every
function of the library carries a contract, and Verus proves that the code meets it.

The controller moves the congestion window of a connection so that a queue stays
short while flows share a link fairly. How much delay weighs against throughput is
set by delta, which follows the losses, the delivery rate, and the responses that the
application has under way.

## The library

| Module | Holds |
| --- | --- |
| `config`, `state` | parameters, and the state of a controller |
| `acks` | what is sent, acknowledged and lost, and responses |
| `round` | packet-timed rounds and their loss rate |
| `delta` | competing mode, and the rules that choose delta |
| `velocity` | how fast the window moves |
| `model`, `end_ack` | rates, window, and the end of an acknowledgement |
| `ewma` | moving average and variance of the delivery rate |
| `flow` | messages to the manager of flows |
| `double`, `rounding`, `arith`, `numbers` | double-precision arithmetic |
| `span`, `seconds` | lengths of time, and their seconds |
| `order` | how arithmetic keeps signs and order |
| `laws`, `measures`, `targets` | what holds of the controller as a whole |

Contracts are stated over the next state as a function of the one before:
`on_ack` ends in `after_ack`, `update_cwnd` in `after_cwnd`, and so on. The rules of
the controller are written in double-precision arithmetic. A `Double` is a bit
pattern, each operation gives the double closest to the exact result, and the
contracts hold to the last bit.

The library reads no clock and opens no socket. Points in time are handed in. The
round-trip filters and the delivery rate estimator belong to the connection: `end_ack`
tells what the filters are to be fed with, and `on_readings` takes what they read.

## Around it

`app/` is ordinary Rust: the clock, the sockets to the manager of flows, and the
traits by which a connection drives the controller. `tests/` runs the library, and
holds its arithmetic against that of the machine.
