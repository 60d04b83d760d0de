# osu_tourney_data_reader

Reads the state of an osu! tournament (the tourney client and its spectator
clients) out of process memory and serves it as JSON over HTTP and WebSocket.

- `src/` is the verified library (Verus): byte decoding, signature patterns and
  their search, mod bitfields and their ordering, window-title classification,
  the connect / validate / poll state machines of the reader, the polling
  supervisor, and the pointer-path search of the offset finder. Each public
  function carries a contract; the laws that span functions are public proof
  functions.
- `app/` is the program around it: command line, logging, the Windows memory
  and window APIs, the HTTP/WebSocket server, and the serde copies of the
  library's types.
- `tests/` runs the library on concrete values.
