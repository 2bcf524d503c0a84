# CardFetch

Prices of Magic: The Gathering singles across Norwegian and European stores,
and a purchase wizard that assigns every wanted card to a store.

The library under `src/` is verified with [Verus](https://github.com/verus-lang/verus):
its functions state what they return, as far as chance and the crates it calls let
them, and the laws of the library stand beside the code as public proof functions
whose names start with `law_`.

| Module | What it holds |
|---|---|
| `decklist`, `scryfall` | Decklists, sorted name lists, store filters, resolved names |
| `stores` | One module per store: addresses, pages, prices, the choice of results |
| `shipping` | Shipping terms, exchange rate, VAT, sellers that do not ship |
| `cache` | Listings, solutions and names of past runs, and how long they count |
| `search` | What to look up, what to fetch, what a fetch leaves in the cache |
| `wizard` | Scores, moves, local search, exhaustive search, runs over tolerances |
| `server` | Requests, results and background jobs of the HTTP API |
| `output` | Tables and summaries as text |
| `text`, `percent`, `order`, `sums`, `rows` | Strings, percent encoding, stable sorting, sums, table rows |
| `html`, `json`, `encoding`, `random`, `parallel` | The calls into other crates |

The program around the library is under `app/`: command line, HTTP, SQLite, the
browser that CardMarket needs, and the floating-point part of the annealing
walks.  Tests are under `tests/`.
