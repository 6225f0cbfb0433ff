# lib

Verified core of two compatibility libraries for legacy server software:

- `src/geoip.rs`: GeoIP Legacy Country databases: accepting a `GeoIP.dat`
  file, walking its search trie for an IPv4 address, and the country code
  table.
- `src/ipv4.rs`: the dotted-decimal IPv4 address parser used by the lookup,
  with its round-trip laws.
- `src/shm.rs`: flattening of nested shared-memory names (`/a/b` to `/a_b`)
  and of paths below `/dev/shm/`, with the laws that both agree and that a
  rewrite is final.
- `src/hooks.rs`: what the `mkdir`/`mkdirat` and raw-syscall hooks return.
- `src/trace.rs`: the lines of the optional trace log.

`app/` holds the C ABI: the `GeoIP_*` entry points and the `LD_PRELOAD`
hooks, which read files, follow C pointers, make the system calls and set
`errno`, leaving every decision to the library.
