# coreos_installer

The logic of the CoreOS installer, verified with Verus: the parsers, the
image layouts and the decisions of its commands, each stated by a
contract and proved against it.

- `src/` is the library. Each module holds one concern:
  - ISO 9660 reading (`iso9660`) and the embed areas of a live ISO
    (`embed`, `live`, `customize`);
  - initrd archives (`initrd`, `unpack`);
  - the minimal-ISO data file (`miniso`);
  - osmet mappings (`osmet`), saved partitions (`saved`) and block
    devices (`blockdev`);
  - s390x DASD layouts (`s390x`);
  - the install plan and the order of its writes (`install`);
  - kernel arguments and BLS entries (`bls`, `rdcore`, `rootmap`);
  - consoles and the command-line values (`console`, `cmdline`);
  - digest-checked copying (`stream_hash`), Ignition digests
    (`ignition`);
  - readers and writers (`io`, `peek`), text primitives (`text`).
- Calls into outside crates (xz2, flate2, zstd, cpio, glob, hex, openssl,
  base64, nix) and into `std::io` stand behind small trusted wrappers,
  each with the contract its documentation supports.
- `tests/` runs the library on concrete values.
- `app/` is the command-line program: it parses arguments, reads and
  writes files, and hands the library plain values.
