# mtcp_rs

mTCP carries one byte stream over several TCP connections. A client accepts plain TCP and
speaks mTCP to a remote end, which speaks plain TCP to the service behind it.

The library in `src/` is written in [Verus](https://github.com/verus-lang/verus). It holds the
wire format, the state of a socket and every decision, each with a contract that is proved;
there is nothing in it that is taken on trust beyond Verus and its standard library.

| module | what it holds |
| --- | --- |
| `protocol` | the login header and the frame |
| `decoder` | cutting the bytes of one connection into packets |
| `stream` | the model of the receiving side, and the laws of the stream as a whole |
| `connection` | the socket and its sub-connections, event by event |
| `dial` | opening the sub-connections of a socket |
| `server` | connection ids, and the sockets that clients have named |
| `bridge` | the settings of both ends, and how a bridge ends |
| `pool` | the sockets that a client connects ahead of time |
| `client`, `remote`, `args`, `text` | settings from the environment and the arguments |

The main law is `stream::law_stream_arrives_over_connections`: however the packets of what was
written are spread over connections, and in whatever order they arrive, exactly the written
bytes can be read.

`app/` is the program around the library: sockets, threads, locks and `main`. It keeps a
socket's state under a lock, calls one method of the library for each event, and does what
comes back. Called `remote` it is the remote end, and the client otherwise:

```
client --listen-port 5201 --upstream-hosts 1.1.1.1,2.2.2.2 --upstream-port 15201
remote --listen-port 15201 --upstream-host 0.0.0.0 --upstream-port 5201
```

When the last sub-connection of a socket breaks off inside a frame, reads fail instead of
reporting the end of the stream, and a bridge passes the failure on.
