# balamod

The mod loader, injector and decompiler for Balatro, with its decisions and
data handling proved with Verus.

- `src/` is the verified library:
  - `parser` groups command-line arguments and turns them into options;
  - `commands` decides which command runs and plans an injection;
  - `dependencies` names the release archives and download addresses and
    decides which game installation to use;
  - `paths` computes the game's archive, save directory and Steam library
    locations, and reads Steam's library list;
  - `archive` finds the zip archive inside the game's executable, lists and
    reads its entries, replaces one entry, and compresses game code;
  - `text` holds the string functions the others use (lines, trimming,
    number parsing, comparisons), each proved against a statement of what
    it computes;
  - `platform` names the supported systems.
- `app/` is the program: argument reading, files, the registry, downloads,
  terminal colours and timing.
- `tests/` runs the library on concrete inputs.
