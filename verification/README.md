# tapeer

A client for TaPeer, a service that shares files and text snippets between devices.

- `src/` is the library, verified with Verus: the API payloads (`models`), the server
  endpoints built from a normalized base URL (`client`), the choice of an item from a
  selector such as `2`, `c1f7` or `photo` (`resolve`), the size and expiration labels of the
  item list (`format`), the pieces of each list line and the steps of `tapeer get`
  (`listing`), and the character-level text operations they rest on (`text`).
- `app/` is the `tapeer` command line: argument parsing, HTTP requests, files, clipboard and
  colored output.
- `tests/` exercises the library on concrete values.
