# hamerons_stroke_render

A procedural stroke document with a derived GPU tile cache.

A document keeps every pen contact as points, segments and a brush. It has layers,
paint recipes, an effect graph and an undo history. Pixels are derived from it and
can be regenerated at any time. Documents are saved as Krita-compatible `.kra`
containers.

## Layout

- `src/` is the library. All of it is verified with Verus.
- `tests/` runs the library on concrete values.
- `app/` connects the library to Bevy, to the file system and to the pen.

Floating-point numbers pass through the library as bit patterns (`Scalar`). Code that
computes with them, such as brush footprints, tile coverage and rasterization of
previews, is in `app/`, and hands the library spans of tiles, bytes and points.

## Where to start reading

| Module | Content |
| --- | --- |
| `state`, `document` | value of a document, and the commands on it |
| `history`, `coherence`, `drawn_layers`, `laws` | what commands undo, keep and leave alone |
| `spatial`, `geometry` | tiles, and which segments reach them |
| `cache`, `tiles`, `tile_laws` | the tile cache: slots, revisions, scheduling, eviction |
| `maintenance` | one frame of work on document and cache |
| `extraction`, `upload`, `overlay`, `presentation`, `device` | what the render device is asked to do |
| `archive`, `validate`, `restore`, `roundtrip` | saved documents, and what loading refuses |
| `krita`, `container`, `checkpoint` | the container format and background saving |
| `paint`, `rgba`, `compatibility` | paint models and recipes |
| `effects`, `influence`, `scratch`, `surface` | effect graph, how far it reaches, and memory of planes |
| `input`, `diagnostics` | pen contacts and counters |

Outside code is called from `container` alone: the `zip` and `png` crates, through
small functions whose contracts say what is taken for granted.
