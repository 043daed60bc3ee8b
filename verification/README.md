# weighflow

Gateway for industrial scales: it reads the byte stream a scale sends on a
serial line, learns whether the scale frames its readings with STX/ETX or
with CR/LF, turns every frame into a weight reading, seals each reading with
HMAC-SHA256 and keeps the latest readings in a bounded log that is served
over HTTP, exported as CSV or typed into the focused window.

## Layout

- `src/` — the verified library (Verus). Verus proves every function free of
  panics and overflow and proves its contract; the contracts state the
  results exactly, except where a result rests on the machine's clock
  (`clock::now_millis` has none, and its callers state what holds of every
  reading):
  - `text`, `decimal` — byte-level text helpers and the exact decimal type
    used for weights (parsing, fixed-point rendering of the exact decimal
    rounded to the nearest, ties to even);
  - `parser` — framing detection (`detector`), frame extraction
    (`protocols`), frame decoding and the chunk-by-chunk stream parser;
  - `sealer` — seal message, HMAC seal, verification, reading identifiers
    and the bounded log;
  - `export` — calendar arithmetic, time stamps and the CSV export;
  - `events`, `error`, `config`, `serial`, `wedge`, `cli`, `api`,
    `simulator`, `clock` — data types and the decisions of the program.
- `tests/` — tests run against the compiled library.
- `app/` — the program around the library: serial port, HTTP/WebSocket
  server, configuration file, keyboard wedge, simulator, and `main`.
