# pcore-blake3

BLAKE3 hashing that detects performance ("P") cores on hybrid CPUs and
splits the available threads between BLAKE3's internal tree parallelism
and hashing several files at once.

- `src/` is the verified library. `cpulist` parses the Linux cpulist
  format by a strict grammar; `affinity` decides P-cores, E-cores, the
  topology kind and one leader per physical core from what Linux sysfs or
  the Windows CPU-set table reported (`affinity::linux`,
  `affinity::windows`, `affinity::fallback`); `split` is the
  "threads / 2, snapped to the nearest divisor" heuristic; `layout` lays
  out the pinned worker pools and puts batch results back in input order;
  `digest` computes BLAKE3 digests.
- `app/` is the `pcore-blake3` command: it reads sysfs or queries Windows,
  pins threads, builds the Rayon pools the layout asks for, and reads
  files.
- `tests/` runs the library on concrete inputs.
