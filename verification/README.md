# World

A local runtime that runs development commands in isolation: `world network
exec` gives a command a network of its own and lets it reach only the
destinations of a policy, through a proxy; `world workspace` and `world exec`
give each workspace a localhost of its own.

- `src/` is the library, verified with Verus: policies and addresses, the
  proxy's decisions, the order in which a child confines itself, the system call
  filter, the state machines of namespace holders and of supervision, the World
  registry, and the mapping of temp paths.
- `tests/` runs the library on given values, with the outside crates linked.
- `app/` is ordinary Rust around it: the command line, system calls, sockets and
  files. It carries out what the library decides.
