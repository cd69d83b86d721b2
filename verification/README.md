# swifttunnel_relay

The decisions of a UDP relay for game traffic, as a verified library, and the program
around them.

A client sends `[session id: 8][IP packet]` to the relay. The relay admits the frame,
judges the packet's destination, and sends the payload on to the game server, or hands
the whole packet to a TUN device. Answers go back as `[session id: 8][IP packet]`, with
the addresses swapped.

## Frames

| Direction | Frame | Meaning |
|---|---|---|
| client to relay | `[id][IP packet]` | a packet to forward |
| client to relay | `[id]` | keepalive |
| client to relay | `[id][0xA1][len: 2][ticket]` | hello with a signed ticket |
| relay to client | `[id][0xA2][status]` | what became of the ticket |
| client to relay | `[id][0xA3][seq: 4][client ms: 8]` | ping |
| relay to client | `[id][0xA4][seq: 4][client ms: 8][relay ms: 8]` | pong |
| client to relay | `[id][0xA5][microseconds: 4]` | reported round trip |
| client to relay | `[id][0xA6][request: 2][hosts]` | look up Roblox hosts, on the first datapath |
| relay to client | `[id][0xA7][request: 2][answers]` | what was found |

Statuses: 0 ok, 1 bad format, 2 bad signature, 3 expired, 4 other session, 5 other
server, 6 authentication is off, 7 used ticket, 8 other owner, 9 show a ticket.

## Layout

`src/` is the library. Every function in it is proved to meet its contract; what it
takes from outside crates is stated, not proved, in the few functions and declarations
marked `external_body` and in one `assume_specification`.

- `relay`: what a frame does, from admission to the action that is asked of the program
- `auth`, `session`, `source`: tickets, sessions, limits by source
- `packet`, `dest_policy`, `account_budget`: packets, where they may go, how many
- `flows`, `flow_handler`: flows of the first datapath
- `shard`, `pool`, `datapath_v2`: flows, buffers and queues of the second
- `tun`, `rewrite`, `checksum`: packets through the device
- `http`, `connections`, `stats`, `stats_api`: counters and reports
- `config`, `resolve`, `frame`, `endpoint`, `addr`, `text`, `bytes`, `num`, `limits`

Each module says at its head what it holds. Public proof functions state what holds of
the library as a whole, such as `relay::only_the_owner_moves_a_session` or
`rewrite::rewriting_leaves_a_valid_tcp_checksum`.

`app/` is the program: sockets, threads, the device, the environment and JSON.
`tests/` runs the library with the outside crates linked.

## Settings

All settings are environment variables: `RELAY_PORT`, `RELAY_STATS_PORT`,
`RELAY_STATS_TOKEN`, `RELAY_HEALTH_PORT`, `RELAY_AUTH_MODE` (`required` unless set),
`RELAY_ALLOW_INSECURE`, `RELAY_AUTH_PUBLIC_KEY_B64`, `RELAY_SERVER_ID`, `RELAY_DATAPATH`
(`v1` or `v2`), `RELAY_SHARDS`, `RELAY_V2_POOL_SLOTS`, `RELAY_V2_SHARD_QUEUE`,
`RELAY_V2_TX_QUEUE`, `RELAY_SOCKET_RCVBUF_BYTES`, `RELAY_SOCKET_SNDBUF_BYTES`,
`RELAY_FLOW_RCVBUF_BYTES`, `RELAY_FLOW_SNDBUF_BYTES`, `RELAY_FLOW_CHANNEL_CAPACITY`,
`RELAY_TCP_ENABLED`, `RELAY_TUN_UDP`, `RELAY_DEST_POLICY_MODE`,
`RELAY_DEST_ALLOWLIST_FILE`, `RELAY_DEST_TCP_PORTS`, `RELAY_ACCOUNT_BUDGET_MODE`,
`RELAY_ACCOUNT_PACKETS_PER_SECOND`, `RELAY_ACCOUNT_BYTES_PER_SECOND` and
`RELAY_ACCOUNT_NEW_FLOWS_PER_MINUTE`.
