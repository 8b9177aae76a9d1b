# rugus

The logic of the Rugus embedded kernel, of its drivers and of its client,
written in Verus: every function in `src/` carries a contract that Verus
proves.

## Layout

- `src/sched.rs` — priority scheduler: tasks, round robin inside a band,
  mutexes with priority inheritance, counting semaphores, bounded channels,
  timeouts, fault isolation and liveness supervision. The waiting side of a
  blocking call is a step function (`Step`, `Blocking`, `Ipc`, `Resume`) that
  the embedding loop drives.
- `src/syscall.rs`, `src/syscall/lite.rs` — system call numbering, argument
  checks and routing; the routes are carried out by hooks outside `src/`.
- `src/rufs.rs` — log-structured key-value store over a NOR-flash
  `BlockDevice` (`src/block.rs`, with a RAM-backed device): mount, scan,
  append, compaction. The contracts state what reads return after a write
  whose record fits in a sector (compacting when needed), what reads return
  after a remount that needs no compaction or whose compaction fits
  (`mount_compaction_fits`), when each operation succeeds
  (on a device whose `healthy` predicate holds, a device error never comes),
  that the layout and the agreement between medium and index are kept, and
  that a write interrupted by a device error (a power loss) leaves every key
  reading as before, and so does the index a remount rebuilds from the
  medium (when the bytes left by the interrupted record fail their checks).
  Keys live in fixed-capacity `heapless` buffers.
- `src/faultlog.rs` — ring of fault records kept in the store.
- `src/channel.rs` — bounded single-producer / single-consumer ring.
- `src/telemetry.rs`, `src/fault.rs`, `src/domain.rs`, `src/errno.rs` — fault
  bookkeeping, memory domains and error codes shared by the kernel.
- `src/cortex_m/` — MPU region planning, fault decoding and tick accounting.
- `src/hal/` — what the STM32 drivers compute and decide: reset causes and
  the post-mortem record, the flash window, GPIO configurations, clock trees,
  the serial receive ring, the watchdog, the I2C bus scan, the SD card
  commands, and the HM-20 AT commands and replies.
- `src/crypto.rs`, `src/crc.rs` — HMAC-SHA256 (over `sha2`), a seeded RNG,
  constant-time comparison and CRC-32.
- `src/auth.rs`, `src/cli.rs`, `src/bytes.rs` — the client's handshake state
  machine, argument parsing and byte-string search.
- `app/` — the parts that need the hardware or the host: the kernel loop over
  an `Arch` trait, syscall hooks, the heap allocator and the RNG trait impls.
- `tests/` — scenario tests of the library.
