# Quarry

A tool for the analysis of programs: it searches and edits the memory of a process, follows chains
of pointers, takes code apart, watches an address, and observes the traffic of a network interface.

- `src/` is the library: all searches, formats, parsers, state machines and page rules, with
  contracts that Verus proves.
- `app/` is the program around it: the window, the threads, and the calls into Windows. It reads
  the memory that the searches of the library ask for, and hands it back.
- `tests/` runs the library on concrete values.

## The library

| Modules | Subject |
|---------|---------|
| `text`, `utf16`, `bytes`, `ieee`, `order` | characters, numbers in text, byte order, floating-point patterns, ordering |
| `value`, `scan`, `aob` | kinds of values, comparisons, byte patterns |
| `memory`, `sweep`, `rescan`, `snapshot` | reading in blocks, first and next searches, searches for an unknown value |
| `pointer` | the search for chains of pointers, and following one |
| `inject`, `debugger`, `disasm`, `hotkeys` | patches, loading a library, watchpoints, instructions, hotkeys |
| `capture`, `dump`, `pcap` | packets, conversations and their owners; dumps; capture files |
| `table`, `entries` | the table of saved addresses, and holding values |
| `route` and the modules whose names end in `pane`, `viewer` | what each page of the window decides |

A search of the library never reads memory itself: `next` says which bytes it needs, and `supply`
takes them. Floating-point numbers are bit patterns in the library; reading and printing them in
decimal is done in `app/`.
