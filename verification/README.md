# hivebus

The daemons of a small cluster, with their protocols and decisions verified by
Verus.

- `src/` is the library. Everything in it is verified: the discovery frames and
  the control envelope, the encodings of all messages, the membership table with
  failure detection and election, the DHCP and TFTP servers, boot entries and
  iPXE scripts, and what each daemon does with a request. It performs no I/O.
- `app/` is the program around the library: sockets, files, processes, the
  terminal, configuration files.
- `tests/` runs the library, and holds its encodings against `bincode`.

## Modules

| Module | What it holds |
|---|---|
| `octets`, `text` | big-endian numbers, numerals, texts |
| `wire` | the `Wire` trait and the encodings of plain values |
| `addr`, `clock`, `table`, `path`, `mac` | addresses, times, keyed tables, paths below a root, hardware addresses |
| `frame`, `payload`, `node`, `control` | the messages of the two protocols |
| `membership`, `bus` | discovery, failure detection, election, gossip, answers |
| `boot`, `dhcp`, `tftp` | network boot |
| `netgate`, `netop`, `imager`, `orchestrator` | the other daemons |
| `hivectl` | the cluster inspector |

## How to read the contracts

Each type that holds a `String` or a `Vec` has a mathematical form next to it
(`Node` for `NodeInfo`, `Op` for `ControlOp`), to which `deep_view` leads. An
operation that changes state has a function from the state before to the state
after (`after_datagram`, `after_detection`, `after_dhcp`, ...), and its contract
says that it computes that function. Public proof functions state what holds of
those functions: that no packet makes a node enter the membership table twice,
that a path which is given out stays below its root, that two nodes that see the
same nodes alive elect the same master.

## Three choices

A node that is told to step down does not count itself as the master until its
daemon is started again. It then names the lowest of the other nodes that are
alive, or none; the others are not told, and elect by what they see.

The workload daemon reads its commands and words its answers; a backend does the
work. To create a workload takes an encoded `WorkloadSpec`; the payload of any
other command goes to the backend as it is, and a list comes back as encoded
`WorkloadStatus` values.

The boot daemon registers new hardware with the cluster when it first offers it
an address: it announces it under the number that its hardware address gives,
with incarnation 0 and no version, since it runs no software of the cluster yet.

## What is trusted

What is not proved but taken from other crates and from the standard library is
marked `external_body`, with a comment that says what is taken: the scalar
encodings of `bincode`, the digest of `blake3`, UTF-8 decoding, the reading of a
hexadecimal octet, ASCII lower case, the clock.
