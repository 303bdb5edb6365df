# fio-xfs

Userspace file I/O into XFS, proved with Verus: read the files inside an XFS
image or volume with no kernel, no mount and no loop device.

- `src/` is the verified library. What an operation returns is written down as
  a spec function of the superblock and the bytes on the device, and each
  operation is proved to return just that, or a failure that the device itself
  reports. Public `lemma_` functions state what holds across operations: that
  damage to checksummed metadata is noticed, that a range of a file is a slice
  of the whole, that a walk misses nothing and meets no directory twice, that
  an archive is whole blocks.
- `tests/` runs the library on small hand-built filesystems.
- `app/` is the `fio-xfs` command: files, streams and the local filesystem.

One function is taken on trust: `text::lossy`, which wraps
`String::from_utf8_lossy`. A device or a sink written outside `src/` is trusted
to keep the contract of its trait.
