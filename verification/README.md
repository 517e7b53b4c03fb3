# instancy

A dataflow library in verified Rust. A dataflow is a graph of operators; batches of records travel
along its edges, each batch with a logical time. Operators learn from frontiers which times can still
come, and can wait until a time is complete.

```rust
let mut b = DataflowBuilder::<u64>::new("pipeline");
let port = b
    .source("numbers", vec![(0u64, vec![1, 2, 3])])
    .map(&mut b, "double", |_t, x| x * 2)
    .filter(&mut b, "large", |_t, x| *x > 2)
    .output(&mut b, "results")
    .unwrap();
let dataflow = b.build().unwrap();
SimpleRuntime::new().run(dataflow).unwrap();
assert_eq!(port.collector().replace(Vec::new()), vec![(0, vec![4, 6])]);
```

## Layout

- `src/` is the library; all of it is verified, but for what it takes from `std` on trust: the types
  `Waker` and `Instant`, `Waker::wake_by_ref`, `Waker::clone`, `Instant::now`, `Instant::elapsed` and
  `Duration::as_nanos`, of whose results nothing is claimed, and `Rc::ptr_eq`, which says whether two
  handles share their cell.
  - `builder`, `pipe`, `ports`, `combine`, `spread`, `iterate`: putting dataflows together.
  - `dataflow`, `retain`, `staging`: dataflows that are ready to be run, and their stages.
  - `linking`, `wiring`, `belonging`: why what is put together from pipes can be built, that operators
    read the channels of their edges, and that everything belongs to a stage.
  - `wired`: the operators, from what a logic makes of a batch up to what the executor activates; and
    what holds of whole runs of them (`passage`, `composing`, `splitting`, `merging`, `gathered`).
  - `executor`, `activation`, `schedule`, `delivery`, `verdict`, `sweeping`: activating operators in
    sweeps until a dataflow is complete or quiescent.
  - `assembly`, `materialize`: from factories to an executor.
  - `graph`, `topology`, `id`, `scope`, `operators`: graphs, identities, and single operators.
  - `order`, `frontier`, `progress`: times, frontiers, and what is outstanding.
  - `strand`: what is sent through an output, and those who read it.
  - `channel`, `shared`, `wake`, `control`, `metrics`, `timing`: what operators share.
- `tests/` runs the library.
- `app/` connects it to threads, tokio, `tracing`, and values that are found by their type.

An operator is boxed before the executor sees it. Contracts still say which one it is: the core that
it runs, with the closures that it was given (`BoxedOperator::of`, `runs`).

Everything that an operator sends goes into one log, which all its readers share; each has a place of
its own in it. Readers tell the log how far they have come, which makes room and lets it forget what
all have read. A stream that nobody reads is kept until the dataflow is dropped.

Values that several holders change (logs, tokens, counters) are held in `Shared`. What a holder finds
there is known in advance only as far as the rule of the value goes. Whoever gives a value back gets a
receipt for what was found and what was left, and there are no other receipts: contracts speak of
these (`Shared::turned`, the traces of `WiredCore::works`), so that nothing can be left out. The work
itself is done by functions on plain values with exact contracts. The laws on runs speak of
activations whose receipts follow each other.
