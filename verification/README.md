# nullae

An inventory of hosts (nodes), their domains, IP addresses and short URLs,
kept in a key-value store (Consul or etcd), with a command line (`0ae`) and a
URL-shortener HTTP API.

The library in `src/` is written in Verus: every function carries a contract
that Verus proves.

- `text` — character-level text handling: word wrapping, trimming, tag lists,
  decimal formatting, ordering of strings.
- `hex_codec`, `hashing` — hexadecimal codec and SHA-256 content hashes.
- `address` — which texts are IPv4 or IPv6 addresses.
- `entity` — identifiers, metadata and attributes, and the entity kinds
  (domain, node, IP address, URL, interface, address pools), with listing rows.
- `index` — secondary-index items and how they merge and shrink.
- `storage` — key ranges for prefix scans, search-result combination, and
  stored records.
- `ui` — the shortening form: request checks and the form's state machine.

`app/` holds the command line, the storage backends (HTTP), host discovery
(`sysinfo`), terminal rendering (`tabled`) and the HTTP API (`axum`).
