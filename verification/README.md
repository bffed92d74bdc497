# ls_web

A small web server that lists a directory, sends its files, and packs its
subdirectories as zip, tar.gz or 7z archives.

`src/` is the verified library; `app/main.rs` is the program around it.

- `text`, `decimal`, `urlcodec`: characters and strings, decimal numerals and
  the port number, percent-encoding (through the `urlencoding` crate).
- `http`, `query`, `args`: the request line, response heads, query strings,
  and the command line.
- `paths`: the `std::path` operations the server relies on.
- `listing`: the order of a directory's entries and the listing page.
- `server`: what each request gets, between the reads and writes that the
  program does.
- `archive`: zip archives of a walked directory, written with the `zip` crate.
- `targz`: the gzip step of tar.gz archives, through `flate2`.

The program binds the socket, reads requests and the file system, walks
directories, has `tar` read a directory into a tar archive, runs the
external `7z`, and writes what the library decides.
