# ruju

A runtime for a small dynamic language, written and proved in Verus: tagged values
in a bounded heap, a generational mark-and-sweep collector, a type system with
`where` types and a subtype decision, multiple dispatch, an interpreter with
exceptions, a front-end for source text, and a compiler from typed control-flow
graphs to WebAssembly.

All state of a runtime stands in one value, `Runtime`; contracts speak of its picture,
`State`. Values are offsets into the heap, text is bytes, and floating-point numbers
are carried as their bits: arithmetic on them is asked of the host.

| Where | What |
| - | - |
| `src/state.rs`, `region.rs`, `object.rs`, `access.rs`, `bytes.rs` | the heap and its objects |
| `src/gc.rs` | allocation and collection |
| `src/slots.rs`, `survival.rs`, `health.rs`, `stores.rs`, `writes.rs`, `cycles.rs` | what the heap keeps: slots, reachability, sound objects |
| `src/startup.rs`, `definitions.rs`, `instances.rs` | the heap of a started runtime, and what keeps it in order |
| `src/balance.rs`, `heights.rs`, `frames.rs`, `calls.rs` | what operations leave on the shadow stack |
| `src/types.rs`, `typewalk.rs`, `instantiate.rs`, `structs.rs`, `uniquing.rs`, `registry.rs`, `bootstrap.rs` | types |
| `src/subtype.rs`, `subtype_spec.rs`, `env.rs`, `egal.rs` | subtyping and identity |
| `src/ground.rs`, `unions.rs`, `products.rs`, `order.rs` | what subtyping is for types without variables |
| `src/dispatch.rs`, `builtins.rs`, `intrinsics.rs`, `errors.rs` | calls |
| `src/memory.rs`, `array.rs`, `elements.rs`, `module.rs`, `globals.rs`, `symbol.rs`, `value.rs` | data |
| `src/lexer.rs`, `parser.rs`, `frontend.rs`, `loader.rs`, `words.rs`, `ir.rs` | programs |
| `src/interp.rs`, `interp_spec.rs`, `prelude.rs`, `abi.rs` | evaluation and the exported functions |
| `src/fixture.rs`, `graph.rs`, `relooper.rs`, `structured.rs`, `reducible.rs`, `once.rs`, `emit.rs`, `emit_spec.rs`, `wasm.rs` | the compiler |
| `app/` | the command line, JSON, and the host's floating-point arithmetic |
| `tests/` | programs, heaps, types and modules, run against the library |

Public proof functions whose names begin with `law_` state what holds across calls.
