# nepo_wasm

Renders Open Roberta (NEPO) blocks as SVG, for the Calliope mini and
micro:bit block sets, from an indentation-based source text:

```text
Start
  Zeige Text "Hallo"
  Wiederhole unendlich oft
    Schalte RGB LED an (#ff0000)
  Ende
```

The library in `src/` is written in Verus: every function carries a contract
and is proved against it.

| Module | What it does |
|---|---|
| `parser` | source text -> scripts of blocks; requests |
| `catalog`, `builtin` | block structure and the German and English wording |
| `variables` | variable types from the declaration to every use |
| `matrix` | the 5x5 LED grid of the image block |
| `measure` | layout, and the strings the host should measure |
| `render`, `svg`, `theme` | SVG output, geometry constants, colours |
| `debug` | a plain node view of the parsed blocks |
| `protocol` | the plugin protocol outside WebAssembly |

Lengths are integers: 3000 units to the pixel (`svg::UNIT`), so that the
fractional pixel lengths of the geometry stay exact; SVG numbers are
printed with at most three decimals. A request's `scale` is in thousandths.

`app/` is the command-line front end: it reads a JSON request and prints the
SVG, the strings to measure (`--texts`) or the parsed blocks (`--parse`).
