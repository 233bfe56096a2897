# kvm-share

Mouse and keyboard sharing between Linux machines, below the compositor. Events
are read from `/dev/input`, sent over an encrypted channel, and recreated with
`/dev/uinput`. When the cursor crosses an edge of the screen, the control passes
to the peer on that side.

The library in `src/` decides; the programs in `app/` read, write, wait and
print. The library performs no I/O: what was read is handed to it, and what is
to be written or done comes back.

| module        | what it holds                                                    |
|---------------|------------------------------------------------------------------|
| `event`       | input events and the eight-byte frame of one                     |
| `stream`      | reading from a byte stream, one read at a time; frames           |
| `crypto`      | what is taken from `snow`: all that is believed of cryptography  |
| `handshake`   | how two ends agree on a channel, authenticated by a shared key   |
| `noise`       | the encrypted channel: sending and receiving messages            |
| `wire`        | the messages between peers                                       |
| `cursor`      | the virtual cursor and the edges that it crosses                 |
| `focus`       | who is in control, and what follows from an event                |
| `config`      | the configuration: checks, home directory, text of the file      |
| `path`        | Unix paths as text                                               |
| `peers`       | the list of peers and the changes to it                          |
| `args`, `cli` | command-line arguments and the commands                          |
| `keys`        | pre-shared keys                                                  |
| `daemon`      | whom to dial, whom to serve, what to do with what was read       |
| `devices`     | keys and axes of the virtual device                              |
| `clipboard`   | the bridge to the clipboard daemon                               |
| `base64_lite` | base64                                                           |
| `text`, `bytes` | text and numbers                                               |

Contracts speak of mathematical views of the types. Proof functions whose names
begin with `law_` state what holds of several functions together. Functions
marked `external_body`, `assume_specification` items and functions without a
body are believed: those of `crypto` (`snow`), `devices` (`evdev`), and two of
`text` (`String::push`, `String::from_utf8`).
