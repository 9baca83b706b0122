# herdr local paths

A verified library for recognizing local file paths in terminal text, the
Ctrl-hover underline built on it, and the checks that resolve the working
directory of one exact Codex session.

- `src/local_path.rs`: `path_at_column` and `path_match_at_column` find the
  path under a display column of one line; `path_from_file_uri` decodes a
  `file://` hyperlink. The recognizer itself lives in `src/scan.rs` (Markdown
  links, quoted and plain tokens) and `src/token.rs` (trimming, source
  locations, the shape of a local path); `src/file_uri.rs` holds the URI
  decoder.
- `src/surface.rs`: one screen row of a rendered pane becomes a line of text,
  and a found path maps back to the screen cells that show it; OSC 8 `file:`
  hyperlinks give their full target and every cell of the link.
- `src/hover.rs`: the hover state of the client shell: which path is under
  the pointer, when a hover is still current, and how it is underlined.
- `src/session.rs`: the session id's date, the directories to scan, the scan
  limits and the checks on the session header.
- `src/text.rs`, `src/width.rs`: chars, UTF-8 offsets and display widths.

Every function in `src/` carries a contract that Verus proves; the few calls
into `std`, `unicode-width` and `time` go through small trusted wrappers whose
doc comments say what they assume. `app/` holds what needs the file system,
JSON parsing or terminal events, and calls the library for every decision.
