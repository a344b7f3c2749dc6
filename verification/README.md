# gtfs_split

Splits a nationwide GTFS feed into one feed per federal state.

Every agency goes to one folder: `deutsche_bahn` if its name starts with `DB `, the folder of the
state in which all its stop times lie, or `other`.  Routes, trips and stop times follow their
agency; stops, calendars, shapes, levels, transfers, pathways and frequencies follow what the rows
of a folder refer to.

- `src/` is the verified library.
  - `coordinate`, `geometry`, `boundary`: coordinates as bit patterns, bounding boxes, point in
    polygon, and the search for the state of a stop
  - `text`, `order`, `names`: folder names, blank fields, the order of identifiers, lists of
    distinct names
  - `rows`: the columns that decide where a row goes
  - `agencies`, `stops`: the tables that are read first
  - `survey`: the first pass over the stop times
  - `plan`: the folder of each agency
  - `split`: the second pass, which sends each row to its folders
  - `feed`: what holds of a whole split, such as that what a row refers to stands in the same folder
    if the nationwide feed has a row for it
- `app/` reads and writes the files, and does the one computation in floating point: the longitude
  at which an edge crosses a latitude.
- `tests/` runs the library.
