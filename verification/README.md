# cosmo_sysconf

Runtime system-configuration lookups for binaries that run on several host
operating systems, as a verified library, and the portability probe
that exercises such binaries.

- `src/` — the verified library:
  - `ip` — IP addresses, the grammar of their textual forms, and the reader;
  - `ip_text` — the canonical textual forms and the laws that tie the
    grammar to them (dotted decimal, full and compressed IPv6 forms);
  - `text` — Unicode whitespace and trimming;
  - `resolv` — which lines of a resolver configuration file name a DNS
    server, and which server;
  - `windows` — the host bitmask, socket-address records, the walk over the
    adapter records of the IP helper API, and its retry decisions;
  - `errmsg` — the XSI `strerror_r` copy;
  - `numeral`, `report` — numerals and the lines of the probe's report.
- `app/` — the system side: reading files, the host bitmask, the Windows API,
  the probe's system calls and the C-ABI shims.
- `tests/` — tests of the library on concrete values.
