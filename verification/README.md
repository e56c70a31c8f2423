# Moss

A Moss archive is a single file that holds files and directories. It can be mounted as a drive, and
written to while it is mounted. Archives are append-only: what is deleted is only unlinked, until
the archive is cleaned.

- `src/` is the library, verified with Verus. It decides everything about archives: their format,
  what each operation does to the index, what a mounted archive answers to requests from FUSE or
  Dokan, and what each key does in the text interface. It plans what is to be done to files, and
  never touches one.
- `app/` is the program around it: files, threads, terminals and drivers.
- `tests/` runs the library on archives that are kept in memory.

The modules whose names end in `laws` state what holds of the library as a whole: that a flushed
archive opens as it was (`laws`), that this holds of every archive, whatever was done to it since it
was created (`histlaws`), that interrupted work loses nothing that was secured
(`crashlaws`), that mounted trees stay trees and keep in step with their archive (`treelaws`,
`fuselaws`, `winlaws`), and that the text interface overwrites nothing unasked (`tuilaws`).

    moss create file.moss
    moss attach file.moss ./mnt
    moss clean file.moss
    moss inspect file.moss
    moss
