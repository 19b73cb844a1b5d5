# raxon

Route, navigation, QR-code and host-session logic of a declarative native UI
framework, written in Verus: each public function carries a contract that
states what it returns or changes, and Verus proves the code against it.

- `src/` is the verified library: URL and route parsing and building, route
  pattern matching, the string router with guards, modals and typed results,
  the stack navigator, QR-code generation, the reactive graph, host sessions,
  and small services (clock, keychain store, resources).
- `tests/` runs the library on concrete values.
- `app/` holds what cannot be verified: thread-local state behind the global
  navigation API, the JSON host bridge, the UI-thread executor, platform
  constants and floating-point values.
