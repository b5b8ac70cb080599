# eusociety

A verified entity-component-system core and the decision logic of the
particle and ant simulations built on it, written in Verus.

`src/` is the verified library:

- `access`, `scheduler`: declared data accesses of systems, conflicts
  between them, the dependency graph, execution stages and ready waves.
- `entity`, `storage`: generational entity handles, component vectors,
  resources and the world that holds both.
- `config`, `settings`, `transport`: configuration checks, choice of
  serializer and sender, frame gating of the transport.
- `wire`, `registry`, `colony`, `clock`, `params`, `text`: the broadcast
  byte format, the factory registry, ant state changes, loop counters,
  resource loans and number formatting.

`app/` is the runner program: it reads the JSON configuration, checks it
with the library, places the entities in the library's world, runs the
movement system in the waves the library computes, and writes every frame
out through the serializer and sender the library chose, for the number of
frames the library's clock allows. It also holds float code the library
cannot: the delta compressor and parallel frame serializer (`frames.rs`) and
the server's particle physics (`particles.rs`), which the runner does not
call.
`tests/` holds the tests.
