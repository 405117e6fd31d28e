# rustycable

A WebSocket server for AnyCable: clients subscribe to channels over WebSocket, an
RPC server authorises connections and commands, and messages published on Redis are
broadcast to the subscribed clients.

- `src/` is the verified library:
  - `str_map`: a string-keyed map with a mathematical map as its view;
  - `hub`: the registry of sessions and stream subscriptions, its broadcast fan-out
    and the decision function that the hub's event loop runs, with its laws;
  - `session`: the subscription state of one connection, which commands are
    forwarded to the RPC server and what their answers change, broadcast and ping
    frames, and the connection uid;
  - `json`: the JSON pieces of the frames (through `serde_json`);
  - `anycable`, `rpc_client`, `redis_client`, `server`: the RPC messages, probe
    requests, published messages, handshake headers and error triage.
- `app/` is the program around it: the Tokio event loops, the WebSocket, gRPC and
  Redis connections.
- `tests/` exercises the library.
