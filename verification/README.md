# bbx

Multi-stream bulk copy of files over TCP, with optional BLAKE3 integrity and
ChaCha20-Poly1305 sealing. The protocol and the decisions of the program are a
library verified with Verus; the program around it does the input and output,
limits the rate and draws the progress bar.

## Layout

| Module of `src/` | What it holds |
|------------------|---------------|
| `text`, `order` | text over sequences of characters, and sorting |
| `wire`, `crypto` | integers and keys on the wire, sealing, tags, digests |
| `ranges` | how a file is shared out among streams |
| `streams` | how connections become numbered streams |
| `control` | the header that opens stream 0 |
| `payload` | the bytes of a stream, in clear or in sealed frames |
| `stream_run` | a stream at work, chunk by chunk |
| `sink` | how a received file is put into its place |
| `transfer` | what a whole transfer comes to |
| `address`, `session` | who may listen, dial and send in clear, and with which key |
| `flags`, `jobs` | the command line |
| `shell`, `paths`, `tree` | remote words, remote paths and directories |
| `tree_run` | a copy of a directory, file by file |
| `banner`, `remote`, `agents`, `copies` | agents on the remote host |
| `liveness` | timeouts, failures and how they are told |

`app/` is the program: sockets, files, threads, ssh. `tests/` runs the library.

## What is proved

- A source and a sink that belong together end up with the same file, whatever
  the order in which connections come in (`transfer`, `streams`, `payload`,
  `control`, `ranges`).
- A stream that finishes has written the wire of its whole range, or put all that
  was received end to end into the file (`stream_run`).
- A fresh file takes the place of an old one only when it is complete; a failure
  changes no other file and leaves no stand-in behind (`sink`).
- Frames never share a nonce, and the associated data bind every header field
  (`crypto`, `payload`).
- What one side prints the other reads back: keys, banners, listings, ranges,
  and the settings of an agent (`wire`, `banner`, `tree`, `agents`).
- A quoted word means in a remote shell what it says here (`shell`), and a listed
  path never leads out of the destination (`paths`, `tree`).
- The files of a directory are copied in order, the first failure ends the copy,
  and it is done only when every file was copied (`tree_run`).

What is taken on trust are the functions of the hashing, sealing and random
crates, and two functions of the standard library; each stands in `crypto` or
`text` with a comment that says what is claimed of it.
