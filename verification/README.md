# maps_thingy

Turns KMZ/KML placemarks into a small static map site: an SVG map with the
routes and pins drawn over inlined basemap tiles, and an `index.html` that
hosts the map, a legend, and a card per placemark.

`src/` is the library, written in Verus with its contracts proved:

- `text` — character-level helpers shared by the rest (runs, searches, decimals).
- `sanitize` — the balloon HTML allowlist (`scrub`), URL checks, escaping.
- `xml` — the trusted items: the run of events quick-xml reads from a text, and std's lenient UTF-8 decoding (each a wrapper with a name for its result).
- `kml` — reading a KML event stream into a document, and grouping placemarks.
- `pictures` — finding the picture a balloon refers to and naming its copy.
- `render` — the map and the page, as exact functions of their inputs.
- `site` — group colours, placemark anchors, the subtitle.
- `tiles` — the tile grid: which tile a request names, and its URL.

`app/` is the command-line program around it: argument handling, archives and
files, the tile cache and downloads, and the web-mercator projection, whose
floating-point results reach the library as text.
