# duma

A minimal file downloader, written in Verus: the logic of the downloads is
executable Rust whose behaviour is stated in contracts and proved.

- `src/` is the library. It opens no connection and no file; it takes what came
  from the outside as plain values and says what to do next.
  - `numbers`: decimal numbers as text
  - `headers`: what is read from and written to HTTP header maps
  - `address`: the parts of a URL that a download reads
  - `chunks`: the byte ranges that a file is fetched in
  - `fetch`: the fetching of one range, again where it failed, and the handing
    out of the ranges
  - `http`: downloads over HTTP, in ranges or from start to end
  - `course`: a download over HTTP as a whole, and what the observers are told
  - `ftp`: downloads over FTP
  - `hooks`: the observers of a download
  - `progress`: displays of how a download goes
  - `cmd`: from the arguments of the command line to the download
- `app/` is the command line program around it: arguments, connections, files.
- `tests/` runs the library on concrete values.
