# vincenzo

The core of a BitTorrent client that streams the files of torrents over HTTP
while they are being downloaded, verified with [Verus](https://github.com/verus-lang/verus).

A media player asks for a range of a file. The range becomes a *slice* of the torrent.
The pieces of slices are downloaded first, and a slice reader gets content only of downloaded pieces.
A piece becomes downloaded only after all of its blocks are there, they have the promised hash,
and the piece was given to be written to the files.

## Layout

- `src/` is the library. It does no I/O: it is told what happened and tells what to do.
  - `disk` – the downloads of all torrents: which blocks are requested, cached, validated and
    written to which place in which file, and the slices that are being read.
    `disk::run` handles messages. `disk::laws`, `disk::request_laws` and `disk::write_plan`
    state what holds of all of this together.
  - `http_server` – how HTTP requests are answered, the Range and Content-Range headers,
    and how much content is sent.
  - `uri_path` – the URI paths of torrent files.
  - `magnet` – magnet links.
  - `metainfo`, `tcp_wire`, `torrent`, `peer`, `error` – the data of the client.
  - `paths` – which paths lead to the same file.
  - `order`, `text`, `hash`, `percent`, `base64_text` – sorting, texts, hashes and encodings.
- `app/` is the program around the library: command-line options, the log,
  files, channels and the HTTP connections.
- `tests/` holds the tests of the library.

## What is trusted

Calls into other crates stand behind small functions whose contracts are believed.
Each of them has a doc comment that names the function it calls and says what is claimed of it.
