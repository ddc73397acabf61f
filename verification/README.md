# kill_the_port

A command-line tool that frees network ports by signalling the processes
that listen on them (`kill-the-port 3000 4000-4005 5000,5001`).

The library in `src/` holds the logic, verified with Verus:

- `text`: whitespace, trimming, splitting and line rules of `str`, over `Seq<char>`.
- `number`: unsigned integer parsing (decimal and hexadecimal) and decimal printing.
- `port`: the port arguments (`PortSpec::parse_all`) and the result type.
- `kill`: protocol names, the kill plan of a request, socket port decoding and the
  collection of the processes that own a port.
- `procfs`: the Linux `/proc/net` socket tables, fd links and process directories.
- `report`: the JSON output, the per-port summary lines and the error messages.

`app/` is the program: argument handling, the operating-system lookups
(`/proc` on Linux, libproc on macOS, IP Helper on Windows) and the signals.
