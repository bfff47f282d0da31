# utoaudio core

The verified core of the utoaudio music player, written in Verus.

`src/` holds what the player decides and computes, each function with a
contract that Verus proves:

- `lyrics` — lyric format detection and the LRC → TTML conversion (line,
  inline and enhanced word timing, offsets, metadata, translations, time
  codes, XML escaping), with laws on line order, end times, escaping and
  time codes reading back.
- `playlist`, `m3u_laws` — m3u8 reading and writing, path resolution,
  insertion plans and moves, and the law that an exported playlist reads
  back as it was written.
- `import` — rows built from the library index or a file's tags, and the
  plan that sorts an import's entries into indexed, readable and missing.
- `library` — scan extensions, index rows, schema migration steps, scan
  roots, search patterns, album-art cache names, timestamps.
- `engine` — the engine's error, state, curve and USB device types.
- `text`, `floats`, `paths` — text primitives, the grammar of decimal float
  literals, and the `std::path` queries the rest relies on.

`tests/` runs the library on concrete values. `app/` is the program around
it: SQLite storage, tag and file reading, settings files, the serde shapes
of the command surface, the audio engine adapter and the Tauri shell.
