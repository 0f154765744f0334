# NetMux core

The engine of a Linux network aggregation tool: it joins the bandwidth of several
physical interfaces (ethernet, Wi-Fi, cellular) behind one TUN device and gives each flow
an egress interface, by load balancing (hash, weighted round-robin, least loaded) or by
failover.

The library under `src/` is written in Verus. Each function's contract says what it
returns; the public proof functions named `law_..` say what holds of several functions
together, such as that replies find their client or that round-robin is fair.

| Module | What it holds |
|---|---|
| `policy` | settings, candidates, and the choice of an interface for a flow |
| `aggregator` | candidates from the host's interfaces, routing, the flow table |
| `packet` | IP parsing, flows, checksums, address rewriting |
| `session` | the NAT session table |
| `forward` | what the data plane does with each packet |
| `generator`, `simulation` | synthetic traffic for the demo mode |
| `interface`, `stats`, `load` | interfaces, usage between samples, ranks of rates |
| `link` | the kernel's interface requests |
| `display` | labels, counts and summaries for the window |
| `addr`, `text`, `names`, `order`, `error` | what the others are built from |

`app/` is the application: the window (GPUI), the TUN device and raw sockets, the reading
of `/sys/class/net`, logging, and everything with floating-point rates.

The window needs one package that `Cargo.toml` does not list,
`gpui-platform-gpui-unofficial` (imported as `gpui_platform`): it brings in GPUI's back
ends for every platform, some 330 packages more, and nothing but `app/main.rs` uses it.
