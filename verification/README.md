# agora

Real-time coordination of named agents over channels, with every message a
typed, signed and traceable fact. The library holds the coordination logic and
the controls against cross-talk, each function with a contract that Verus proves.

- `src/agent.rs`: the agent, which answers each live message once.
- `src/message.rs`, `src/channel.rs`, `src/capability.rs`, `src/envelope.rs`:
  messages, channels and subjects, and who may use which.
- `src/simulation.rs`, `src/scenario.rs`: the in-memory bus, and the
  demonstration scenario on it and on the durable spine.
- `src/host.rs`, `src/lease.rs`, `src/control.rs`: the host over a durable
  stream, a lease store and a control plane.
- `src/facts.rs`: the record of accepted messages.
- `src/text.rs`, `src/number.rs`, `src/names.rs`, `src/seen.rs`: texts, numbers
  and sets.
- `src/simulation_laws.rs`, `src/exchange_laws.rs`: what holds of every in-memory
  run, whatever the agent component answers, and of every run with the
  library's own agent.
- `src/host_laws.rs`, `src/facts_laws.rs`: what holds of every reachable state of
  the host, and of every record.

`app/` is the program around the library: `main.rs` runs the host over NATS
JetStream and the agent component on wasmtime; `component.rs` also runs the
in-memory scenario with that component; `guest.rs` is the root of the component
build.
