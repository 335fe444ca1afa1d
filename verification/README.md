# lo_runtime

The memory side of a small managed-language runtime, verified with Verus: a
semispace bump allocator, class ancestry checks, and operations on strings whose
data lie inline in the object.

Memory is modelled byte by byte. `state.rs` says what every address holds and
where the semispaces lie; `memory.rs` gives access to it; `allocator.rs`,
`cast.rs` and `string_ops.rs` hold the operations. The collector is an argument
of every operation that allocates: `runtime.rs` says what is asked of it, and
what an allocation comes to when it has run. Laws over several operations are in
`laws.rs`, `text.rs` and `cast.rs`.

An operation that must end the process returns an `Abort` with a message and an
exit code. `app/` keeps the state of a process, reads `LO_HEAP_SIZE`, and exits.
