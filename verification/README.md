# Aster

A peer-to-peer group with a shared music library, in the terminal.

`src/` is the library: the logic of the program, written and proved in Verus.
`app/` is the program around it: networking, sound, files and the terminal.
`tests/` runs the library.

## The library

- `key`: node identities, on top of the iroh-base crate.
- `clock`: vector clocks.
- `codec`: the bytes that are signed and sent, in the format of postcard.
- `acb`: authenticated causal broadcast.
- `order`: the total order of delivered messages.
- `convergence`, `system`, `delivery`: what holds of nodes that are welcomed,
  send, receive one message or all that another node has, and deliver, in any
  order. The main results are `system::group_converges` (nodes with the same
  messages, and none to deliver, have the same clock and the same order) and
  `system::everything_received_converges` (nodes that have everything have also
  delivered everything). `delivery` follows one node: the messages of each
  sender come out in turn, none twice, and each after its causal past.
- `dgm`: group membership, evaluated over the total order.
- `bytes`, `time`, `join`, `join_code`: joining a group with a one-time code.
- `sync`, `proto`, `session`: what a node does on each event, and what two
  nodes get out of talking to each other.
- `stream`: streaming parts of a file.
- `app`, `audio`, `library`, `profile`, `sort`, `text`, `ui`: commands,
  playback, the tree of files, profiles, and what the terminal shows.

What is computed by an outside crate (signatures, base64, postcard, randomness,
the clock of the machine) is called through small functions marked
`external_body`, each with a comment that says what is claimed of it.
