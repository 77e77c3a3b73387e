# surfaceflinger_hook

A SurfaceFlinger hook for Android that measures how smoothly frames are
composed and reports a jank level to a root daemon.

- `src/` is the verified library (Verus): frame rates and frame times
  (`fps`), the jank analysis state machine (`analyze`), the parsing of the
  daemon's input and count-on texts and the messages sent back (`connect`,
  `count`, `text`), the vsync bound with its single precision ratio
  (`bound`), the symbol search in the hooked library (`hook`) and the
  contents of the shared frame time and fps files (`files`).
- `app/` holds what the library leaves out: the hook entry points, the
  threads, files, named pipes and memory maps, the logging, and the
  floating point smoothing of frame times.
- `tests/` runs the library on concrete values.
