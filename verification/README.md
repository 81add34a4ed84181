# milim_2d (verified core)

The verified library of the milim_2d 2D game engine, written in Verus.

- `src/` — the verified library: object ids (`id`), collider keys
  (`collision`), trigger and spawn events (`events`), the asset cache
  (`resources`), the z-ordered draw queue with window settings (`renderer`),
  object mailboxes (`mailbox`), and the engine's per-frame decisions
  (`engine`: turning collider contacts into trigger events, and the bounded
  loop that delivers queued events and messages).
- `tests/` — executable tests of the library.
- `app/` — the SDL2 engine and demo game around the library: floating-point
  vector and transform math, components, the frame loop, window and audio
  I/O.
