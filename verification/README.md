# klotski

The rules of a Klotski sliding-block puzzle, with their contracts proved.

`src/` is the library, every function of it verified:

- `block`, `board`: the blocks and the board they are placed on.
- `game`: the checks a board must pass before play (the exit fits its side,
  there is a block, no block lies past a border and no cell is covered twice),
  and setting a game up: the blocks in play, the grid of covered cells, the
  cells next to the exit and the level.
- `level`: the level map drawn from a board (a frame of walls, the exit, the
  blocks' digits), written as text and read back into the level's entities.
- `entity`, `components`, `events`: the entities of a level and what they hold.
  The level's entity store is the library's own `World`, a list of entity
  records held as plain values, in place of a `hecs::World`; the program keeps a
  `hecs::World` copy of it for drawing.
- `rendering`: selecting a block with the number keys and pushing blocks with
  the arrow keys.
- `event_process`: processing the events of a round.
- `text`: decimal numbers, white space, splitting.

`app/` is the program around it: it reads the blocks from a JSON file, prints
the board and the game, and runs the window, its keyboard, images and sounds.
