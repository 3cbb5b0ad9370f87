# greymd

A local HTTP server that serves a directory of Markdown files as HTML pages.

The library (`src/`) holds the logic, verified with Verus: the Markdown
renderer (`markdown/`: inline spans, blocks, tables, the page around them),
HTTP request lines and responses (`http`), percent-decoding and the check that
a resolved path stays under the served root (`path`), directory listings
(`listing`), content types (`mime`), routing and the responses of the server
(`server`), themes and asset locations (`themes`), the command line (`cli`)
and the browser command (`browser`). Each public function states its result
over spec functions of the same modules; the laws of the library are public
proof functions beside them.

The program (`app/`) reads the command line and the environment, touches the
file system, accepts connections, and hands plain values to the library.

File-system paths are modelled as Unix paths (`/` separators), so the
program is built for Unix systems.
