# toy_runtime

A single-threaded runtime for asynchronous tasks, with its decisions verified by Verus.

- `src/executor.rs`: which task is polled next, and when the channel is drained, the reactor has
  its turn, or the run is finished.
- `src/waker.rs`: wakers, and the channel through which they hand ids to the executor.
- `src/reactor.rs`: who waits for which token, how long to wait for events, and whom to wake.
- `src/timers.rs`: the deadlines, in a binary min-heap.
- `src/time.rs`: the clock, and sleeping.
- `src/net.rs`: what follows from an attempt to accept, read or write, and reading lines.
- `src/example.rs`: the rules of the example servers.
- `app/`: the runtime on top of `mio`, with its sockets and sleeps as futures, and two programs
  that use it. `app/main.rs` runs the servers of `app/fetch.rs`, or, with the argument `example`,
  those of `app/example.rs`.

Tasks that are ready are polled in the order in which they became ready. A task that is not done
leaves its waker with the reactor, under the token of what it waits for. When that is reported, or
its deadline has come, the reactor wakes it: its id goes through the channel, as it does when a
task wakes itself or another one. Once no task is ready, the reactor wakes whom it has to wake by
then, and the executor drains the channel and polls the tasks that this made ready. Only where the
channel held nothing does the reactor wait before the channel is drained again. A wake of a task
that is done counts for nothing.
