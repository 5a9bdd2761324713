# photo2video

The core of a workshop for photos and videos of fireworks: taking smoke out of night skies, stacking
exposures, grading, wiping, retouching, text and overlays, movie export, and keeping projects and
backups.

`src/` is a Verus library. Its functions carry contracts that Verus proves; nothing in it does
I/O. `app/` is the program around it: files, clocks, `ffmpeg`, fonts, and the few powers,
logarithms and angles that only floating point gives. `tests/` runs the library.

## Numbers

Photos are worked on in single precision, sums of maps in double precision. The library carries out both
on integers, so that what it computes has an exact meaning in a contract and is the same on every machine:

| module | what it holds |
| --- | --- |
| `single`, `signed` | numbers with 24 bits, without and with a sign |
| `held` | their arithmetic, kept in a range |
| `double` | numbers with 53 bits |
| `rounding`, `steady` | rounded arithmetic keeps order; means over maps that are the same everywhere |

Where a curve needs a power or an angle needs a sine, the program hands the value, or a table of values,
to the library.

## Modules

- Pictures: `raster`, `grid`, `resample`, `sample`, `edit`, `scale`.
- Maps and filters: `maps`, `field`, `morph`, `blur`, `spread`, `sums`, `blocks`, `blobs`, `order`.
- Smoke: `smoke` (settings), `mask` and `shares` (shapes), `haze`, `skies`, `sky`, `clear`, `remove`, `strength`,
  `survey` and `auto` (settings read off a photo), `object` and `pick` (selections).
- Stacking: `align`, `tilt`, `stack`, `turned`.
- Editing: `grade`, `curve`, `wipe`, `stroke`, `overlay`, `caption`.
- Retouching: `enhance`, `subject`, `measure`, `advice`, `retouch`.
- Movies, projects and files: `movie`, `motion`, `project`, `backup`, `path`, `natural`, `text`, `cli`.

## What is trusted

Four outside functions are believed to do what their wrappers say: `str::to_lowercase` and
`String::push` (`text`), `image::imageops::resize` with the triangle filter (`resample`), and reading one
text field with `serde_json` (`project`). The first, the third and the fourth are functions of their
arguments that get a name. Of a resized picture two things more are believed: it has three bytes for every
pixel of the new size, and it repeats the picture where the size does not change.

Proof functions named `law_…` state what holds across functions.
