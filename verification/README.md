# vmem

The rules behind reading and writing another process's memory on Linux: pointer
chains, signature scans, reversible patches, an x86-64 assembler, remote
allocation and code-cave hooks.

- `src/` is the library, written in Verus. It touches no operating system: an
  operation says what it wants done next (a read, a write, a system call in the
  target) and is resumed with what came of it, so each decision is a function of
  plain values with a contract that is proved.
- `tests/` runs the library against memory that lives in the test.
- `app/` is the crate around it, which performs the system calls and has the
  destructors, the typed accesses and the `asm64!` macro.

## Modules

| Module | What it decides |
| --- | --- |
| `process`, `maps` | which process a name means; regions and modules from `/proc/<pid>/maps` |
| `io`, `cstring`, `scatter` | what an answer to a read or write means; strings; batched reads |
| `kernel_driver`, `backend` | the chunked protocol of the driver; which backend serves a request |
| `pointer` | how a pointer chain is followed |
| `pattern`, `scan`, `search` | signatures; the scan of a region; searches over modules and processes |
| `patch` | reversible patches, branches and detours |
| `assembler` | machine code and its relocation |
| `tracer`, `remote`, `cave`, `hook` | running a system call in the target; remote memory; unused code bytes; hooks |
| `memory`, `bytes`, `text`, `error`, `step`, `sys`, `prot` | what the others are stated in |

Public proof functions named `law_..` state what holds across operations: that a
patch is undone when it is dropped, that no chunk boundary hides a match, that a
branch lands where it should, and so on.
