# chart_view

The logic of zoomable price charts, verified with Verus: where prices, times and trades lie on a
chart, how the chart answers the pointer, and what every message makes of it.

Charts compute with 32- and 64-bit floating-point numbers. The library computes them on integers
(`src/float`), proved against a statement of what each operation gives: the exact result rounded to the
nearest number of the format, ties to even. That the numbers are those of the machine's own arithmetic
is tested in `tests/float.rs`; the bit patterns of what is not a number may differ.

- `src/float`: the formats, rounding, the operations and comparisons, and how far they are off
- `src/geometry.rs`, `src/message.rs`: points and rectangles, events and messages
- `src/state.rs`: the state that all charts share, and its coordinates
- `src/interaction.rs`, `src/update.rs`: answers to the pointer, and how messages change a chart
- `src/crosshair.rs`, `src/series.rs`, `src/volume.rs`, `src/label.rs`, `src/view.rs`: what is shown
- `src/fetch.rs`: requests for data
- `src/laws`: what holds of several functions together
- `app`: the `iced` canvas and widgets around the library
