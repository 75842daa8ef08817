# lol-crawler

A crawler for ranked League of Legends matches. A server hands out requests as
jobs; nodes make them, each with a Riot API key of its own; the server parses
what comes back and stores it in segments by region and day.

The library in `src/` is verified with Verus: the record codec and the columnar
block format, segments and their recompaction, the crawl state (players, cohort,
histories, frontier), the job broker, the rate limiter, the node's turns and the
request machine. Each module states its model in spec functions; what spans
several functions stands in the `law_` proof functions.

`app/` is the program around it: files, the database, HTTP, clocks, threads.

`tests/` runs the library.

What is taken on trust is marked `#[verifier::external_body]`: calls of crc32fast,
zstd, roaring, sha2, serde_json, chrono, rand and std, each with a comment that says
what is claimed of it.
