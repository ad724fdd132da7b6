# rotor_wheel

Hierarchical timing wheel, verified with Verus: thousands of timers that can be inserted,
refreshed and cancelled at the cost of one command each.

## Layout

- `src/` is the library. Every function of it is verified, but for the five in `channel` that
  call tokio.
  - `wheel`, `level`, `arena`: the wheel, its three rings of 64 buckets, and the arena that
    the tasks live in. `model` is the wheel as mathematics.
  - `handle`, `command`, `channel`, `cancel`, `shared`: the handle, its commands, the channel
    they go through, and the cancellation markers that block a callback while a command about
    its task is on the way.
  - `worker`: takes one event after the other and says what is to be done next. `machine` is
    the worker as mathematics.
  - `laws`, `system`: what holds of the wheel, and of worker, handles and channel together.
- `app/` runs the worker on a tokio task, with a ticker and the user's callback.
- `tests/` runs the library under a clock that moves only when told to.

## When tasks fire

A timeout is rounded down to whole ticks, and is at least one tick. A task is handed out at
exactly the tick that its timeout asks for: the levels are swept from the top down, so a task
that comes down from level 2 is caught by the sweeps of levels 1 and 0 in the same tick.
Within a tick, the ids of level 0 come first.

## What is taken on trust

`Duration::as_millis` and `Duration::from_secs`, and of tokio's channel `mpsc::channel`,
`Sender::clone`, `Sender::try_send`, `Receiver::try_recv` and `Receiver::poll_recv`: that it
hands out what it accepted, in that order, and holds no more than its capacity. Ids are assumed to have `Eq`,
`Hash` and `Clone` that belong together (`ids::lawful_id`).
