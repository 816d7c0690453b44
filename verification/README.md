# seekdb_async

Async client for embedded seekdb, with its decisions verified by Verus.

- `src/` is the verified library: connection options and their `seekdb://` URL form, POSIX paths,
  the place of a database directory and of its socket, the arguments for the C driver, and the
  registry of open instances, in which all connections to one directory share one counted handle.
- `app/` is the async client around it: calls into the C driver, `mysql_async` connections and
  pools, and the conversions from paths, strings and URLs.
- `tests/` runs the library.

`src/outside.rs` lists what is taken from the standard library and from `mysql_async` without a
proof.

The client links against `libseekdb`. Put the directory that holds it, with the `seekdb` server
binary next to it, on the linker's and on the loader's search path.
