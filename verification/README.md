# termlayers

A layered terminal compositor. Windows of styled characters are placed on the
screen at a depth; rendering lays them over one another, lowest depth first,
compares the resulting frame with what the terminal shows, and turns only the
changed cells into print commands, grouped into runs of one row and one style.

The library (`src/`) is verified with Verus:

- `style` – colours, attribute sets, styles and styled characters;
- `grid` – column-major grids of cells and the operations on them;
- `window` – a window and its view (`WindowView`);
- `area` – areas of the screen, and how the engine's area grows;
- `compose` – laying windows over a buffer, and ordering them by depth;
- `clear` – clearing the current buffer under the windows that ask for it;
- `frame` – changed cells, print commands and terminal operations;
- `engine` – the engine: adding and finding windows, rendering a frame;
- `laws` – properties that relate several operations.

`app/` holds the terminal side: conversions to and from the terminal
backend's styles, and a `render` that performs a frame's operations on
standard output (with the debug overlay).
