# portfolio

The portfolio page is a Dioxus app compiled to WebAssembly with three
interactive demos. This crate splits it in two:

- `src/` — the verified library (Verus): the demos' logic with contracts and
  proofs.
  - `cipher` — the keystream of the encrypted-channel demo, its hex rendering
    and the scramble animation; the cipher is its own inverse and the
    animation always ends on the full ciphertext.
  - `sorting` — the frame recorder of the sorting visualizer (bubble,
    insertion and selection sort), specified frame by frame.
  - `sort_laws` — every frame rearranges the bars and highlights two
    positions inside them; the last frame shows the bars sorted.
  - `player` — the visualizer's state: shuffling, starting, one animation
    frame with a tone per played comparison; every reached state is good, and
    playing to the end leaves the bars 1..=44 in order.
  - `ble` — which discovered devices the scanner lists and in which order,
    the list's markup and signal bars, the made-up service UUIDs, the scan
    button, and the radar's spawn and sweep steps (never more than six
    devices; a discovered device stays discovered).
  - `theme` — which theme is in force, the palette, the toggle.
- `app/` — the page itself: Dioxus components, DOM and canvas work, Web
  Audio, animation frames and the random numbers the demos draw, calling the
  library for every decision.
- `tests/` — tests of the library on concrete values.
