# Turin

Turin is a guided tour format and player for codebases, verified with Verus.

A tour is a checked-in `.turin/` directory: `tour.json` lists the stops in order, and
each stop is a markdown file whose frontmatter points at a place in the source.

- `src/` is the library. Every function states what it returns or changes, and Verus
  proves it. The proof functions whose names begin with `law_` state what holds of
  several of them together.
  - `cmd`, `cli`, `tour`, `stop`, `util`: what `new`, `add` and `list` do, and the
    format of stop files.
  - `frontmatter`: what the frontmatter of a stop stands for, and that a stop that was
    written is read back.
  - `anchor`: finding the line that a stop points at.
  - `source`, `highlight`, `style`: source files as lines with their colours, and the
    cache of what has been drawn.
  - `play`, `input`, `layout`, `screen`: the player, what keys and the mouse mean to it,
    and its screen.
  - `text`: reasoning about strings.
- `app/` is the command around it: arguments, files and the terminal.
- `tests/` run the library together with the crates that it calls.

The calls into regex, syntect and ratatui stand behind small functions whose contracts
are trusted; each says above it what it claims of the function that it calls.
