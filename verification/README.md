# photo_map

Tools that place GPS-tagged photos in space and time and group them into
clusters, with their decision logic verified by Verus.

- `src/` is the verified library:
  - `neighbours`: the scan that lists the neighbours of a point in a
    time-ordered list, walking backwards and then forwards and leaving each
    direction at the first point out of reach; laws on what it yields.
  - `clusters`: labelling the clusters found by DBSCAN with point identifiers.
  - `exif`: camera and GPS time stamps read from EXIF tag text (through
    `num` and `chrono`).
  - `text`: fields, lines, page assembly, template filling and splitting the
    live page at its placeholder.
  - `encoding`: compressing pages (through `flate2`) and choosing the form
    to send from the request's accepted codings.
  - `live`: the bounded live track of recent positions.
  - `summary`: which clusters are shown, and neighbour-count tallies.
- `app/` is the command-line program (`photo_map <tool>`): database and file
  access, EXIF reading, floating-point distances, DBSCAN through `cogset`, and
  the web servers.
