# GCode-Sentinel

Validator and optimizer for the G-code of FFF/FDM printers, verified with Verus.

The library reads G-code, simulates the print head, reports what is wrong with a
program, removes commands that have no effect, and writes the program back.  Verus
proves the contract of every function of the library, but for a few that do nothing but
call the standard library or the `toml` crate: appending a character to a string,
lowercasing a text, reading a TOML document, and wording a TOML error.  What these
promise is taken on trust, and said above each of them.

## Layout

| Module | What it does |
|--------|--------------|
| `scalar`, `fixed` | the number type that everything is written over, and a decimal one |
| `text` | operations on strings |
| `models` | commands, places in the source, points, limits, parse errors |
| `parser`, `emitter`, `roundtrip` | from text to commands and back; that nothing is lost on the way |
| `analyzer`, `tower`, `geometry` | the simulated printer: findings, statistics, temperature towers, arcs |
| `optimizer` | redundant commands, collinear moves, progress markers, and what they leave unchanged |
| `arc_fitter`, `refit` | G1 moves along a circle become G2 or G3; that a second pass finds no more |
| `dialect` | which slicer wrote the program, and what it says of itself |
| `machine_profile`, `cli` | built-in printers and the options of a run |
| `diagnostics` | findings, changes, reports, comparison of reports |
| `pipeline` | all stages in a row |
| `effects`, `filament`, `place` | what a program does, and that the stages leave it so |
| `grid`, `pace` | that nothing is lost where numbers have four decimals; that feedrates leave no trace |

`app/` is the command-line program: arguments, files, logging, JSON.  It picks
double-precision floating point as the number type.  `tests/` runs the library on
floating-point and on decimal numbers.

## What is proved

Contracts say which operations are applied to which numbers, in which order, and
what every text is, letter by letter.  Beyond that, proof functions state what holds
of whole runs, such as:

- what is written is read back as it was, and written again as it was (`roundtrip`);
- optimization reorders nothing, and keeps modes, fan, temperatures, positions and
  feedrates (`optimizer::laws`);
- no stage changes how much filament is used, nor where the head ends (`filament`,
  `place`), up to what each law names; with four decimals optimization loses nothing
  at all (`grid`);
- stripped feedrates change no analysis (`pace`);
- fitting arcs twice is fitting them once (`refit`), and where markers are trusted,
  inserting them twice is inserting them once (`optimizer::progress`);
- machine limits add errors about limits, and change nothing else (`analyzer`);
- a run that succeeds introduces no errors (`pipeline`);
- every built-in profile is found by its name, and its text is TOML (`machine_profile`);
- commands that no stage is about pass through unchanged (`pipeline`).

## What is read as a command

A line is a command where it begins with `G` or `M` and a number of up to 16 bits,
and where white space, nothing, or a parameter (`G1X10`) follows.  What follows the
first `;` that is not quoted is a comment.  Every other line, such as `G38.2 Z-10` or
a macro call, is kept and written as it is.

## Rules of the optimizer

| Rule | What is removed |
|------|-----------------|
| 1 | G0/G1 without any parameter |
| 2 | G90 after G90, G91 after G91 |
| 3 | M106/M107 that repeats the last fan command |
| 4 | absolute move to the current position without a feedrate |
| 5 | M104/M109 or M140/M190 that repeats the last hotend or bed command |
| 6 | three or more G1 moves on one line, from where the first begins, merged into one (opt-in) |
| 7 | single-axis travel that the next move on that axis supersedes |
| 8 | the `F` of a move whose feedrate is already in force |

## Diagnostic codes

| Code | Severity | Meaning |
|------|----------|---------|
| `E001`, `E002`, `E003` | error | X, Y or Z exceeds the machine limit |
| `W001` | warning | move to a negative coordinate |
| `W002` | warning or info | retraction, from 2 mm on a warning |
| `W003` | warning | layer shorter than the minimum time |
| `W004` | warning | arcs were fitted, but the firmware may not support them |
| `W005` | warning | metadata that the slicer usually writes is missing |
| `I001` | info | layer change seen from a Z increase |
| `I002` | info | progress marker inserted |
| `I003` | info | probable temperature tower |
| `I004` | info | slicer dialect detected |
