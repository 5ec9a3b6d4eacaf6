# ViewFS

A read-only file system view of chosen files, such as parts of the Nix store, verified with
Verus. The underlying file system is taken to be static while a view is mounted.

- `src/` is the library. Its functions are proved to meet their contracts, except for what
  it takes from outside, whose contracts are believed: `String::push` of std, and the slot map
  behind the open handles (`slots_new`, `slots_insert`, `slots_remove`, `slots_values` and
  `slots_len`, over the names `slots` and `issued_keys`).
  - `path`, `order`, `whitelist`: Unix paths as byte strings, sorting them, sets of them.
  - `parse`, `filter`: the filter file, and which of the files found belong to the view.
  - `tree`, `tree_laws`: the nodes that are shown.
  - `attr`, `handles`, `handle_laws`, `filesystem`, `filesystem_laws`: the answers to the kernel.
  - `ipc`, `backing_id`: the messages between the view and the privileged server that opens
    files for it, and what the server does with them.
- `app/` is the program: it walks directories, mounts the view, and sends and receives what
  the library says.
- `tests/` runs the library on concrete values.

The functions named `law_...` state what holds between several calls.
