# ue5-dumper

An Unreal Engine 5 SDK dumper: it reads the reflection data of a running game out
of its memory, and locates the engine globals (`GNames`, `GObjects`, `GWorld`) by
pattern scanning.

The library under `src/` is verified with Verus. It touches no process: a
computation runs over the pages of remote memory fetched so far and either answers
or names the read that has to be fetched before it can. The caller fetches those
pages and runs it again. Every answer is proved to be a fixed function of the
memory, and to stay the answer as more pages are fetched.

- `src/mem.rs`: pages, reads, little-endian numbers
- `src/walk.rs`: walks over numbered items of which each may ask for a read
- `src/text.rs`: text comparison, numbers in text, sorted names
- `src/scanner/`: the PE or ELF header, pattern scanning, recognising the globals
- `src/ue/`: names, objects, classes, functions, properties and enums
- `src/search.rs`: objects by name, instances, static addresses
- `src/esp/`: camera, players and actors for an overlay
- `src/discovery.rs`: which process and module a name stands for
- `tests/`: a game that runs nowhere, and what the library reads from it
- `app/`: the command-line tools, with all system calls and the projection to screen
