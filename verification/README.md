# cibos

The kernel, network and application logic of a small isolation-first operating
system, written in Verus: what each operation does is stated in its contract and
proved.

* `src/abi` -- what kernel and applications share: ids, limits, scheduling
  vocabulary, channel terms and their wire form, system-call numbers, the firmware's
  handoff record.
* `src/kernel` -- lanes and their scheduler, the weighted draw and its generator,
  channels, containers, memory accounting, page frames, page tables and address
  spaces, the system-call dispatcher, block devices and the on-disk filesystem,
  network devices, gates and links, the spinlock.
* `src/net` -- Ethernet, ARP, IPv4, ICMP echo and UDP over byte slices.
* `src/sdk` -- what applications see: systems, lanes, typed channels within and
  across containers, timers, an in-memory filesystem, the Lattice, and the hosts that
  install and settle their tasks.
* `src/sync.rs`, `src/sorted_map.rs`, `src/macros.rs` -- a mutex for applications; a map
  in key order; the rules of the entry-point and `select!` macros.
* `tests` -- tests of the library on concrete values.
* `app` -- futures, handles and run loops around the library.

Properties that span operations are public proof functions beside the operations, or
in the modules whose names end in `_laws`: a file that was written reads back, a page
mapped in one address space is absent from every other, a lane's chance is
proportional to its weight, a changed byte fails its checksum.

The one function of another crate that proofs rest on is SHA-256, in
`src/kernel/entropy.rs`.
