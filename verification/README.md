# toolbox

A collection of small command-line tools for files, text, media and data, built
around a verified library.

- `src/` is the library, written in Verus. Each module holds the decisions of one
  group of tools (what to rename, where to move, which lines to keep, how to bump a
  version, ...) as functions with `requires`/`ensures` contracts over mathematical
  models (`Seq`, `Multiset`, `int`), together with the laws that relate them, proved as
  `proof fn`s. Calls into outside crates (`semver`, `chrono`, `regex`, std's `Path` and hasher) go through
  small trusted wrappers whose contracts say what those crates document.
- `tests/` runs the library on concrete values.
- `app/` is the program: argument parsing, file system and network access, progress
  bars, and the parts that compute in floating point. It hands plain values to the
  library and acts on what comes back.

Some tools of the collection have no subcommand here, because the crates they are
built on are not available to this build: the chat-model tool (`async-openai`), the
clustering tools (`polars`, `kmeans`, `ndarray`), the NetCDF readers (`netcdf`) and
the video joiner (`ffmpeg-next`). The parts of them that are plain decisions are in
the library (`choices`, `series`, `media`), ready for those front ends.
