# darkcore

The logic of DarkCore Manager, a manager for Steam libraries run through
GreenLuma, written in Verus with its behaviour stated in contracts and proved.

- `src/` is the verified library: the VDF and ACF documents Steam keeps and
  their reading, editing and writing; the Lua install scripts and the depot
  keys they carry, and the in-place editing of those keys in `config.vdf`; the GreenLuma AppList and its ordering; the install
  registry, the vault of downloaded manifests, the profiles and the settings;
  the depot manifest format, its decryption and decompression; what a ZIP
  archive offered for import holds; the answers of
  the game-information services; and the decisions of each command (which
  ids to list, which depots to fetch, what to delete, when a game needs an
  update) and the direct download's state. Calls into the archive, compression, hex and cipher crates stand
  behind small trusted wrappers, each with the contract its crate's source
  shows.
- `app/` is a small command-line program around the library: it reads and
  writes the settings, the registry and the AppList slots, injects a
  script's keys into Steam's `config.vdf`, and imports a ZIP archive.
- `tests/` runs the library on concrete values.
