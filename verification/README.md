# rvnc

A VNC server for an X display that any browser can open: it speaks RFB 3.8 over
a WebSocket, and serves the page that opens the desktop from the same port.

    rvnc xfce4-session          start a virtual display, run the desktop, serve it
    rvnc --display :1           serve a display that is already running

`rvnc --help` lists the options. Without `--password` or `--no-password` a
password is made up and printed at startup.

## Layout

`src/` is the library, verified with Verus. It holds what decides and computes
and does no input or output of its own:

| Module | What it holds |
| --- | --- |
| `pixel` | pixel formats and conversion |
| `screen` | the shared frame, dirty tiles per client, the hub between them |
| `rfb` | handshake and authentication, client messages, sessions, updates, ZRLE, the extended clipboard |
| `ws`, `http` | WebSocket frames, requests, routing, origins, files |
| `x11` | images and damage, the capture loop, keyboard and pointer, resizing |
| `clipboard` | the X selections' end of copy and paste |
| `args`, `spawn`, `startup`, `log` | the command line, processes, what is said at startup, log lines |
| `bytes`, `text` | what the others have in common |

Contracts are stated over sequences and sets: a tile map is the set of its dirty
tiles, a session the bytes it reads and writes. `rfb::decode` describes how a
client reads an update, and proves that it sees what the frame holds.

What is believed of other crates stands next to the calls: zlib streams in
`rfb::zlib`, DES in `rfb::auth`, SHA-1 in `ws`, embedded files in `http`, and
lossy UTF-8 in `clipboard`.

`app/` is the program around the library: sockets, threads, processes and the X
connections. `tests/` exercises the library from outside.
