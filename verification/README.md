# tg-ws-proxy

A proxy for Telegram Desktop that carries MTProto over TCP on to MTProto over WebSocket. The
protocol logic is a library verified with [Verus](https://github.com/verus-lang/verus); the
program around it does the input and output.

## Layout

- `src/` is the library. Every function states what it does in its contract.
  - `proxy/crypto`, `proxy/random`, `proxy/hexadecimal`, `proxy/text`, `proxy/bytes`: ciphers,
    random values and text.
  - `proxy/handshake`, `proxy/splitter`, `proxy/bridge`: the obfuscated handshake, cutting a
    stream into packets, re-encrypting a session.
  - `proxy/raw_websocket`, `proxy/fake_tls`: WebSocket frames and connections, Fake TLS hellos and
    records.
  - `proxy/greeting`, `proxy/client`, `proxy/fallback`, `proxy/pool`, `proxy/balancer`,
    `proxy/server`: how a client is greeted, and how a connection to its data centre is made.
  - `proxy/config`, `proxy/stats`, `ui`, `utils/update_check`: settings, counters, windows and
    releases.
- `tests/` runs the library.
- `app/` is the program: sockets, files, windows and the tray icon.

## What is proved

The laws are the public proof functions whose names start with `law_`. Among them: masking,
AES-CTR, WebSocket frames and Fake TLS records give back what went in, however a stream of records
is chopped and read; what a client encrypts
reaches the relay as the same plain text, and the other way round; cutting a stream into packets
loses nothing and does not depend on how the stream is chopped; the proxy takes the handshake of
every client that knows the secret, and the relay can read out of the handshake that it gets what
the client asked for; the fallback goes from workers to Cloudflare domains, the user's own first,
to TCP, and ends; settings that are saved come back.

What the proofs rest on without proof are the functions marked `#[verifier::external_body]` and
the `assume_specification` items. Each one calls one outside function, or one chain of calls, and
says what it claims of it.

## Use

```
tg-ws-proxy [OPTIONS]
```

| Option | Default | Meaning |
|--------|---------|---------|
| `--config` | | configuration file |
| `--port` | `1443` | port to listen on |
| `--host` | `127.0.0.1` | address to listen on |
| `--secret` | random | secret, 32 hexadecimal digits |
| `--dc-ip` | | address of a data centre, such as `2:1.2.3.4` |
| `--fake-tls-domain` | | domain for Fake TLS |
| `--cfproxy-domain` | | Cloudflare domain |
| `--cfproxy-worker-domain` | | Cloudflare worker |
| `--no-cfproxy` | | do not use Cloudflare domains |
| `--pool-size` | `4` | idle connections for each data centre |
| `--buf-kb` | `256` | socket buffer in KB |
| `--proxy-protocol` | | expect a PROXY protocol v1 line |
| `--shutdown-timeout` | `10` | seconds to wait for connected clients before stopping |
