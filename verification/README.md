# life_lecture

A lecture hall in which a lecturer walks to the front, the audience runs to
its seats, and Conway's game of life plays on a screen; the player picks a
pattern file from a menu.

`src/` is the verified core, written in Verus:

- `text` – characters of a string and its lines, as `str::lines` splits them;
- `rle`, `pattern` – the run-length encoded (`.rle`) and plain-text pattern
  formats, read into rows of cells, with exact contracts for every input,
  including the ones that cannot be read; which non-ASCII characters count
  as digits or word characters is asked of the `regex` crate's Unicode
  classes;
- `field` – the 100 by 100 field with the chosen pattern in its middle;
- `life` – one generation on the torus (`calc_generation`) and its laws: the
  rule of life, settled cells, dead fields staying dead, independence from
  the order of the cells, and the step commuting with moving the field
  around the torus;
- `flow`, `walk`, `menu` – the decisions of the show: its phases, the
  lecturer's walk, the audience's run to the seats, and the menu.

`app/` is the program around it, built on bevy: windows, models, cameras,
animations and everything measured in floating point.

`tests/` runs the library on concrete patterns and fields.
