# abs_screens

The presentation logic of a client for an Audiobookshelf media server: what each
screen shows, and how it answers to what happens.

- `src/` is the library. Every screen is a value; every event is a function from
  the screen to the next one, with a contract that says what changes. Laws that
  join several functions stand beside them as public proof functions.
  - `text`, `rounding`, `double`, `ordering`: texts, IEEE 754 doubles on their bits,
    and a stable sort.
  - `models`, `sync`: what several screens share.
  - `home`, `browse`, `library`, `downloads`, `download_sheet`, `item_detail`,
    `player`, `settings`, `connection`, `main_window`: the screens.
- `tests/` runs the library on concrete values.
- `app/` draws the screens with GTK and libadwaita and runs them over time. It
  asks for storage, the server, the player and the downloads through the traits
  in `app/host.rs`.
