# overlay_text

A small verified library:

- `utf8::get_utf8` writes a sixteen-unit UTF-16 name into a byte buffer as
  UTF-8, stopping at the first zero unit or at the first unit that no longer
  fits, and leaves the rest of the buffer unchanged. Its contract states the
  exact bytes through the spec function `encode`. The proof functions in the
  same module state the laws of that encoding.
- `game_state::GameState` is the enum of lobby, match and spectating states.
