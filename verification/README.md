# game_slave

A memory scanner for Windows processes: list the running processes, attach to
one, scan its readable memory for a little-endian value of 1, 2, 4 or 8 bytes,
narrow the results by re-scanning, write new values, and pin addresses so that
their value is rewritten every 200 ms.

`src/` is the library, verified with Verus:

- `scanner` — value encoding and decoding, pattern search, full scans and re-scans;
- `memory` — which regions are scanned, the walk over the address space, read results;
- `process` — process names from snapshot entries, case-insensitive sorting and filtering;
- `worker` — the scanning worker's state and decisions, and the pin list operations;
- `app` — the window's state: input parsing, status lines, commands to the worker;
- `text` — decimal and hexadecimal text, trimming, parsing, substring tests;
- `types` — candidates, pins, and the messages between window and worker.

`app/` is the program around it: the egui window, the worker thread's loop, and
the Win32 calls (process snapshot, `VirtualQueryEx`, `ReadProcessMemory`,
`WriteProcessMemory`, `OpenProcess`), compiled only on Windows.
