# samply_mcp

Answers questions about sampling profiles: the tools of a profiler server, verified with Verus.

- `src/` is the verified library. `profile` holds the data, `server` the loaded profiles, `cache`
  their function statistics, `threads` the choice of a thread, `call_tree` the call tree and its
  text, `detail` and `neighbours` what is known of one function, and `tools` the answers to
  requests. `order` lists rows by a key, `text` searches in texts, and `binary64` orders
  floating-point numbers by their bit patterns.
- `app/` is the server around it: the JSON forms of requests and results, floating-point
  arithmetic, files, and standard input and output. It takes a `ProfileSource`, which reads profile
  files and computes the statistics of a thread.
- `tests/` runs the library.

Floating-point quantities pass through the library as bit patterns. What numbers of samples amount
to in milliseconds and percent is handed to the call tree as a table, a `Scale`.
