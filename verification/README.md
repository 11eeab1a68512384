# fsid

File System Identifiers: self-contained, reversible identifiers for files and
directories, in three formats.

- **standard**: digits only. Prefix code, file type code, mode code, the rest
  of the path as a decimal number, and a two-digit check code.
- **short**: base36. Prefix code, a combined type and mode character, the
  rest of the path in base36, and a base36 check character.
- **minimal**: thirteen digits, with a hash of the path in place of the path;
  it can only be resolved through the storage of the web API.

## Layout

- `src/` is the library, verified with Verus. Each format is a module
  (`standard`, `short`, `minimal`) whose contracts are stated over spec
  functions of the format (`partial_fsid`, `fsid_of`, `is_valid`, `decoded`),
  with the laws proved beside them: the standard and short FSIDs of a path
  that starts with `/` decode back to it (unless the rest of the path starts
  with a zero byte), and the check codes catch mistyped and swapped
  characters as far as their weights allow. `radix` holds the base
  conversions, `prefix` the directory tables, `metadata` the file facts an
  FSID records, `storage` the FSID to path mappings, `webapi` the decisions of
  the web API, and `cli` what the command prints.
- `app/` is the `fsid` command: argument parsing, reading the file system,
  the HTTP server and the JSON storage file. It hands the library plain values.
- `tests/` runs the library on the documented examples and on the laws.
