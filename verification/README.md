# photon_ring

Broadcast messaging: every message goes to all subscribers, each of which reads at
a pace of its own. A subscriber that falls behind loses messages and is told how
many; on a bounded ring it holds the publisher back instead.

Written in Verus: what the library computes and decides is stated in contracts and
proved. Where the machine decides, as on how many cores there are, a contract says
what holds of every answer.

## What is here

- `src/` is the library.
  - `index`, `slot`, `ring`: sequences, stamped slots, and the ring that they make
    up. `ring::RingView` is the model that all contracts speak of: the history of
    all messages, what each slot holds, the cursor, and the positions of the
    subscribers that are watched.
  - `channel`: publishers, subscribers and groups. `channel::laws` and
    `channel::bounded_laws` state what holds of several calls together: that a
    read gives back what was written, that what is received and what is lost adds
    up, that a bounded channel loses nothing. `channel::runs` and `event_runs` say
    so of whole runs: whoever comes, reads and goes, in any order.
  - `steps`, `channel::publish_op`, `channel::producers`, `channel::read_op`:
    publishing and reading, one access to shared memory at a time, for any number
    of producers in any order.
  - `stripes`: payloads that are stored word by word, and why a torn one is never
    accepted.
  - `event`: rings of values that are filled in place.
  - `backpressure`, `barrier`: who waits for whom.
  - `bus`, `typed_bus`, `topics`: named topics.
  - `topology`: pipelines of stages, and consumers that work in batches.
  - `polling`, `wait`: waiting, from tasks and from threads.
  - `message`: domain structs in a form that rings can carry, and back.
    `message::declaration` reads a declaration, `message::plan` decides on its wire
    form, `message::forms` lists the conversions and `message::codec` says what
    they come to.
  - `metrics`, `histogram`, `text`: figures.
  - `affinity`, `mem`, `shutdown`: the machine and the end.
- `app/` puts rings behind a lock and hands them to threads and tasks.
- `tests/` runs the library.

## Rings are values

A ring is a plain value, and a handle is told which ring to work on:

```rust
let (mut publisher, subscribable, mut ring) = photon_ring::channel::<u64>(64);
let mut sub = subscribable.subscribe(&mut ring);
publisher.publish(&mut ring, 42);
assert_eq!(sub.try_recv(&mut ring), Ok(42));
```

A call that would have to wait for somebody else, such as `publish` on a full
bounded ring, asks by its `requires` that there be nothing to wait for. Beside it
stands the call that answers at once (`try_publish`, `has_room`, `try_recv`), and
`app/` waits.

## What is trusted

The library calls `hashbrown` for its topic maps, `syn` to read declarations, and
`core_affinity2` to list cores. What it takes from them is written at the functions
that make the calls, in `topics`, `message::declaration` and `affinity`. Of
`core::hint::spin_loop`, in `wait`, nothing is taken but that it returns.
