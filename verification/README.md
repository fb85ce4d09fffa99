# ek_ek

Two halves of a load balancer's control plane, as a verified Verus library.

- `src/vrrp/`: one virtual router of VRRP version 3 (RFC 5798). The state
  machine and its timers, the advertisement and its checksum, gratuitous ARP
  and unsolicited neighbor advertisements, the netlink messages that move an
  address and read the default route, the check on the gateway, and the lines a
  node writes about itself.
- `src/tls/`: certificates. The ACME order flow (RFC 8555) and the driver
  around it, request signing, signing requests, the DNS-01 record over dynamic
  update (RFC 2136, RFC 8945) or an API, the inspection of uploaded material,
  renewal, and metrics.
- `src/text.rs`, `src/bytes.rs`, `src/net.rs`, `src/time.rs`: what both rest on.

Every function says in its contract what it returns, over a mathematical model
of what it was given. What has to hold across calls is stated as a public proof
function next to the functions it is about.

What comes before what, among things done with a server, a publisher and a
clock, is entered in one ledger (`src/tls/ledger.rs`) that the contracts speak
of. It holds nothing when the program runs.

Cryptography, X.509 and JSON are OpenSSL's and serde_json's. The few functions
that call them are marked `external_body`, and the doc comment of each says
what is relied on. A result that is too long to spell out has a name, and the
contracts above it speak of that name.

`app/` is the program `ek-ek-vrrp-node` with its sockets, and the HTTPS and DNS
transports for the certificate half. It opens sockets, reads clocks and files,
and hands what came back to the library, which says what is done next.
`tests/` runs the library.
