# packet_parsers

A verified core for a set of small packet and file-format tools:

- a CCSDS space packet reader (split a hex dump into packets, read their
  primary headers, report them) and a CCSDS packet builder;
- a FITS header writer (keyword lines to 80-character cards, data padded to
  2880-byte blocks);
- NTP, SNMP, SSH and TLS dumpers around the rusticata parser crates.

`src/` holds the library, verified with Verus: `text` (trimming, splitting,
padding, decimal numbers), `hexcodec` (hex text through the `hex`,
`rustc-hex` and `pretty-hex` crates), `ccsds`, `spoof`, `fits` and
`protocols`. `app/` is the command-line front end: `app <tool>` runs one of
the tools, reading its input from standard input and files.
`tests/` exercises the library on concrete values.
