# poker_core

Building blocks for playing and solving poker, with contracts that Verus proves.

The library under `src/` is verified throughout:

- `card`, `eval`, `omaha` - cards, sets of cards, and what a hand is worth.
- `betting`, `pot` - a street of betting, and the pots it makes.
- `equity`, `multiway` - who wins how often, counted over every board.
- `abstraction`, `charts` - classes of starting hands, bet sizes, range charts.
- `kuhn`, `postflop` - the games that strategies are solved for.
- `blueprint`, `bytes`, `png` - files and their bytes.
- `table`, `bench`, `bot` - decisions at a table, opponents, and a bot that
  plays stored strategies and tells of every decision it makes.
- `bridge`, `live` - from a reading of a screen to a decision, and what a
  session may do with it.
- `cli`, `text` - what a command line asks for.
- `natural`, `precision`, `double` - numbers of any size, amounts as double
  precision rounds them, and what double precision makes of sums done with them.

Public proof functions whose names begin with `law_` state what holds across
several functions: that a written blueprint reads back, that no chip is lost
between pots, that more cards never hurt.

Chips are whole numbers, a hundred to the big blind. Shares and rates are
fractions of whole numbers; probabilities are carried as the bits of the floating
point numbers that they are.

`app/` is a command line around the library. It holds what works on floating
point numbers, the solver above all, and everything that touches the disk.

`tests/` runs the library on concrete values.
