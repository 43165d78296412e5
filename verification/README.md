# rust_hotpath_ipc

The hot path of a low-latency trading system, written in Rust and verified with Verus: a
limit order book with price-time priority, a composite strategy, a compiler and a stack
machine for strategies that are drawn as graphs, the venue and the risk check around them,
and the measurement of their latencies.

## Layout

- `src/` is the library. Everything in it is verified. Each function states what it
  returns or changes, and the `law_*` proof functions state what holds of several of them
  together.
- `app/` is the program around it: the processes, the shared-memory transport, the clocks,
  the threads and the floating-point arithmetic. Its first argument names the process to
  run: `exchange`, `strategy`, `execution`, `control-server`, `order-service`, `feed`,
  `publisher`, `subscriber`, `monitor` or `disasm`.
- `tests/` runs the library.

## Floating point

The library holds floating-point numbers by their bit patterns. It compares and truncates
them, and never computes with them. Where a result needs arithmetic, the library says what
is to be computed and takes the value back: `bytecode::Vm::run` and
`strategy::Strategy::on_price` take the arithmetic as a function, and `bytecode::Vm::step`
and `Vm::resume` let a host do it in turn. What the machine and the strategy do with the
values is proved for every arithmetic.

## What is taken on trust

Two functions of the standard library: `String::push`, in `src/text.rs`, and
`slice::sort_unstable`, in `src/percentile.rs`.
