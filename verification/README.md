# Synchronisation building blocks, verified

`src/` is a Verus library; `app/` is the command-line program that runs the
thread demos on top of it.

- `ledger` — the banker's algorithm as mathematics: what a thread holds, what
  is free once a list of threads has finished, safe orders and safe states, and
  the lemmas that the greedy safety search and the release rule rest on.
- `banker` — `Resource`, the banker's books (`is_safe`, `take`, `release`), and
  `Banker`, the books behind a verified lock whose invariant keeps the totals
  and claims fixed and the state safe whenever anything is handed out.
- `semaphore` — the counting decision of a semaphore (`wait` takes a slot when
  one is free, `post` gives one back).
- `channel` — a bounded FIFO queue counted by a semaphore, and the `Sender` /
  `Receiver` handles that share it behind a verified lock.
- `bakery` — the ticket and priority rules of Lamport's bakery lock.
- `handles` — the one trusted item: `Arc::clone`.

Blocking (sleeping on a condition variable, spinning on atomics, yielding) is
done in `app/`, which asks the library what to do next.
