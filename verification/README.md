# expt01: the rules of a small dungeon crawler, verified

A roguelike in which the player goes down an abandoned mine, fights what
lives there, picks up and uses items, and levels up. The rules of the game
are a library verified with Verus; a thin program around it opens the
window, reads the keyboard and the mouse, loads the templates and the saved
game, and draws the world with libtcod.

## Layout

- `src/` — the verified library.
  - `cmtp.rs`: the components an entity is made of.
  - `engine/`: the entity store (`game.rs`, with the world's invariant
    `wf`), entity creation (`entity.rs`), and the templates of characters
    and items with their spawn weights (`asset.rs`).
  - `game.rs`: combat, healing, equipment and movement.
  - `systems/`: one module per system (input, main menu,
    dungeon generation, message boxes, map interaction, player action, AI,
    inventory, death, levelling, stats and help windows, field of view,
    mouse look), plus `render.rs`, which decides what the screen shows.
  - `rng.rs`: the calls into `rand`, with the contracts the rest relies on.
  - `text.rs`: decimal numbers as text.
- `tests/` — tests of the library on concrete worlds.
- `app/` — the program: the main loop, libtcod input, drawing and field of
  view, the TOML templates, and the JSON save file.

Every system is a function from the world to the next world whose contract
states that next world exactly (or, where dice are rolled, what holds
whatever they show), and keeps the world's invariant. Public proof functions
named `law_*` state properties that span several calls.
