# memelay

Keyboard layout optimisation: a genetic algorithm searches for the layout of keys that is
cheapest to type a corpus with, under a model of the keyboard's geometry.

The library under `src/` is written in Verus and verified:

- `types`: key codes, sets of key codes, key and physical key events.
- `layout`, `model`, `eval`: layouts, the keyboard geometry (rows, hands, fingers, fixed
  keys) and the parts of the evaluation that decide which cost applies: which bigram cost
  cell, which trigram bonus, which placement constraints are broken, how many fixed keys
  moved, and how far apart two layouts are.
- `ingest` and `text`: the readers of the model configuration, seed layouts and n-gram
  histograms, from text to values.
- `models`: keyboard models (a QMK keyboard, a US keyboard) that turn physical key events
  into key code events, and the layout normalisation rules.
- `path`: a best-first search, over a priority queue, for the cheapest way to type a
  sequence of key code events on a layout; its result is reachable, and the furthest
  reachable when the corpus cannot be typed in full.
- `genome`, `fitness`: the other parts of the layered layout search.
- `ga`: crossover, fitness and conversion operators of the genetic algorithm.

`app/` holds the program: argument parsing, file reading, the floating point costs and the
genetic algorithm driver.
