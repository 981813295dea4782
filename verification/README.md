# fstool

APFS containers and file archives, with every operation proved against a
mathematical model.

- `src/apfs/` reads, writes and changes APFS containers. A new container is
  collected in memory and written by one flush. A container that is open for
  changes writes each change as a new checkpoint to blocks that are not in use.
- `src/apfs/laws/` states what the readers and writers promise together: what
  was written is what is read back, an interrupted commit leaves the volume as
  it was, also if its superblock is torn, a change leaves what it does not name.
  `commit` says which containers these laws hold of, whoever wrote them. `edits`
  and `objects` say for each change what every name, inode, attribute and file
  reads as afterwards; `trips` says it by paths and readers. `scans`, `lookups`
  and `versions` are about trees and object maps of any depth, whoever built
  them.
- `src/archive/` reads `ar`, `cpio`, ARC, LHA, LZX, CAB and RAR archives, and
  writes `ar` and `cpio`. The decoders of compressed members come from the
  `compcol` crate.
- `app/` puts the filesystems behind one interface with standard paths, readers
  and writers.
- `tests/` runs the library on concrete images.

A device is a `MemoryBackend`; its model is the sequence of its bytes. The
contract of an executable function says what it returns, errors included, in
terms of that sequence and the arguments. What the outside decoders make of a
stream has a name there and no definition. Two things are left open: a member of
a solid RAR group whose packed runs reach past the end of the device may be read
or not, and so may one in front of the place where the stream of its group fails.
