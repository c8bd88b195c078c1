# protohackers

Seven small network services, their protocol logic verified with Verus.

- `src/` is the verified library, one module per service plus shared text helpers:
  `primes` (primality requests as JSON lines), `prices` (mean price queries over
  nine-byte messages), `chat` (a chat room), `kvstore` (a key-value store over UDP),
  `proxy` (address rewriting for a chat proxy), `speed` (speed cameras, dispatchers and
  tickets), `text` (characters, white space, trimming).
- `app/` holds the servers themselves: sockets, threads and the loops that feed the
  library and send what it answers. `protohackers <service>` starts one of them on port
  1111; the echo service (`smoke-test`) has no logic beyond I/O and lives there entirely.
- `tests/` exercises the library on concrete inputs.
