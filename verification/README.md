# orb

A verified ring buffer that puts sequence-numbered packets back in order, and
the rules for opening audio devices.

A writer pushes packets under 16-bit sequence numbers, and a reader pops them in
order:

- a packet that has not arrived is popped as missing,
- a packet that arrives late goes to the place that was kept for it, as long as
  the reader has not passed it,
- a packet with a number that is far off empties the buffer and starts over
  from that number,
- a packet that is not stored is handed back.

## Layout

- `src/`: the library, verified with [Verus].
  - `buffer`: the two ends, `Writer` and `Reader`
  - `ring`, `shared_array`, `cell_state`, `wrapping`: what is between them
  - `model`, `queue`: what the buffer does, in terms of mathematics
  - `laws`, `history`: what holds of each call, and of every sequence of calls
  - `account`: what becomes of the values that are pushed
  - `audio`: sample formats, device configuration, device lists, error codes,
    and the choices of a program that plays a file
- `tests/`: tests of the library
- `app/`: devices over [miniaudio], which the library only knows by plain values
- `extras/miniaudio_shim.c`: the C side of `app/`

The two ends share the ring behind a lock. A push or a pop holds it from
beginning to end, so each of them is one step on the ring; `ring` states what the
step does for every state that it may find there.

## What is not proved

Verus believes these without proof:

- six wrappers, each around one outside function: `lock` (`Mutex::lock`) and
  `contents` (`MutexGuard::deref_mut`) in `buffer`, of which nothing is claimed;
  `from_utf8` (`core::str::from_utf8`) and `from_utf8_lossy`
  (`String::from_utf8_lossy`) in `audio::text`; `trim` (`str::trim`) and
  `parse_usize` (`str::parse`) in `audio::player`
- two assumed contracts in `buffer`, of `CachePadded::new` and `Mutex::new`, which
  claim nothing
- the declarations of `CachePadded`, `Mutex` and `MutexGuard` in `buffer`, which
  claim nothing either

[Verus]: https://github.com/verus-lang/verus
[miniaudio]: https://miniaud.io
