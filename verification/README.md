# dobby

A small pre-forking web server whose request handling is specified and
proved with Verus.

- `src/` is the verified library: the `name = value` configuration files,
  the parsing of request lines, the routing of requests to plugin actions,
  the marshalling of plugin arguments, the round-robin dispatch of requests
  to workers, the file cache (a binary search tree over file-name hashes with
  reload periods), the byte form in which the cache's tree is shared between
  processes and the rebuilding of a tree from it, the names of shared memory
  segments, and the reading of 1-Wire temperature sensor files.
- `app/` is the program around it: processes, sockets, shared memory,
  the process-shared mutex, dynamic loading of plugin libraries, file and
  directory access, JSON, and floating-point formatting. Its `core_plugin`
  and `gpio_plugin` modules hold the code of the two plugins; the executor
  loads plugins as `lib<name>.so` libraries at run time, which a build of
  those modules as shared libraries provides.
- `tests/` runs the library on concrete inputs.
