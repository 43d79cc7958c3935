# findw

A recursive, parallel search over web pages, in the manner of Unix `find`:
from a start address it follows links up to a depth limit and reports each
path whose last page has a title that holds a pattern.

- `src/` is the verified library (Verus):
  - `text`: prefix and substring tests, decimal notation, joining, and the
    order of texts;
  - `url_helpers`: addresses taken apart into base and relative part,
    links resolved against a page, and what a fetched page yields;
  - `search_helpers`: search paths, with their strictly sorted set of
    visited addresses, and the steps from one path to the next;
  - `search`: the decisions taken at each fetched page, the count that
    closes the queue, and a model of a whole run with its laws (a deeper
    limit loses no line; printing titles changes neither the requests nor
    the number of lines).
- `app/` is the command line program: argument handling, HTTP requests,
  the task queue and printing.
- `tests/` runs the library on concrete values.
