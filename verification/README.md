# gazer

A small tar archiver. The library in `src/` holds everything that decides
what goes into an archive and what comes out of it, with its behaviour
stated in contracts and proved:

- `header` and `gazer::tar_header`: reading a 512-byte ustar header block
  (`FileHeader::from_chunk`, `TarFileHeader::from_chunk`), writing one
  (`TarFileHeader::to_chunk`), octal number fields, checksums, block counts.
- `gazer::header_laws`: a header whose fields fit their slots is read back
  from the block it is written into; a number field reads back as its value
  modulo `8^10` (only ten octal digits are written).
- `gazer::tar_archive`: `mktar` writes the blocks of an archive for a tree of
  files and directories; `Untar` is the extraction, one step at a time
  (read a block, create a directory or file, write data).
- `gazer::archive_laws`: what `mktar` writes, followed by the two zero
  blocks that end it, is extracted back into the same directories, files and
  data. This holds for items that could all be read whole (no unreadable
  item, no failed read), whose paths (with the directory names before them
  and a `/` after a directory's name) take at most 100 bytes and hold no NUL
  byte, and whose files are below `8^10` bytes and hold exactly as many bytes
  as their recorded size.
- `gazer::chunk_consumer`, `gazer::chunk_provider`: where blocks go to and
  come from, with in-memory versions.
- `text`: NUL-padded UTF-8 text fields.

`app/` is the command-line program: it reads the file tree from disk, runs
`mktar` into a plain or gzip-compressed file, and drives `Untar` against the
file system.
