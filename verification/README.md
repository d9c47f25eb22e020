# ipbridge

A small TCP and UDP tunnel between networks that speak different versions of IP: a program that
only knows IPv4 reaches a server that only has an IPv6 address, and the other way round.

- TCP tunnels carry any number of connections.
- UDP tunnels keep one session per peer, and drop it after a silence that is long for that peer.
- A tunnel may compress what it carries (zlib, gzip or zstd). The receiving side tells a frame by
  its header. For UDP it restores frames even where it is not configured to compress.
- `ipbridge check` tells whether a tunnel can work and whether another one answers at its end.
- Ranges of ports are mapped one to one.

## Layout

`src/` is the library, verified with Verus: every function in it is proved against its contract,
except the calls into the compression libraries and the standard library's reading of a number,
whose contracts are believed.

| module | what it holds |
|--------|---------------|
| `config` | tunnels, addresses, ranges of ports, the template |
| `cli` | where the configuration is looked for |
| `compress` | codecs, levels and frames |
| `backend` | the calls into `flate2` and `zstd` |
| `tunnel` | what becomes of a datagram |
| `proxy` | the same for a proxy, which never looks inside |
| `session` | the table of UDP sessions and their timeouts |
| `pump` | one direction of a compressed TCP connection |
| `check` | the steps of the connectivity check and their reports |
| `text` | decimal numbers, searching and trimming |

Public proof functions named `law_…` state what holds of several functions together; for instance
that a stream that is framed by one pump and restored by another arrives as it was sent.

`app/` is the program around it: the command line, files, sockets and tasks.

## Configuration

`ipbridge init` writes a configuration to start from (`ipbridge init -f` over one that is there).

```toml
[[tunnel]]
protocol = "udp"            # or "tcp"
listen = "[::]:7777"
forward = "127.0.0.1:8888"  # an address or a domain
enable = true               # the default
compress = { codec = "zstd", level = 3 }  # optional; zlib, gz or zstd
```

`ipbridge` or `ipbridge run` runs the tunnels, `ipbridge check` checks them. Without `--config`
the configuration is looked for in the current directory, in `$XDG_CONFIG_HOME/ipbridge` and in
`~/.config/ipbridge`, in this order.
