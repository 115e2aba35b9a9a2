# kanaweb-server

A tiny webserver that serves the Flashcards app and accepts `PUT /vocab.json`, so that
the app's editor can save back to disk. Its decisions are a library whose behaviour is
stated in contracts and proved with Verus.

| Request            | Behavior                                          |
| ------------------ | ------------------------------------------------- |
| `GET /`            | Serves `Flashcards.html`                          |
| `GET /<file>`      | Serves static files from the served directory     |
| `HEAD /<file>`     | Same as GET, no body                              |
| `PUT /vocab.json`  | Writes the request body to `vocab.json` (atomic)  |
| `PUT /.vocab.json` | Writes the request body to `.vocab.json` (atomic) |
| `OPTIONS *`        | Returns `Allow: GET, HEAD, PUT, OPTIONS`          |
| anything else      | `404` / `405` / `403` as appropriate              |

Uploads may run at the same time. Each goes to a temporary file of its own in the served
directory, such as `.vocab.json.tmp.PID.SERIAL`, which is then moved into place: at every moment
`vocab.json` is as it was, or holds all of the body of one upload.

- `src/`: the library. `config` reads the command line, `request` the head of a request,
  `path` joins paths safely and knows media types, `response` writes responses, `server`
  decides what a request leads to, `saving` models files that are saved at the same time,
  `serial` hands out the numbers that tell uploads apart,
  `laws` holds what is proved of all of them together,
  `headers` and `text` are what the others are built on.
- `app/`: the program around it, with its sockets, threads and files. Paths are the bytes
  that name a file on Unix.
- `tests/`: tests of the library.
