# filescope

A simple, fast file manager for Linux, built on GTK4 and libadwaita.

- `src/` is the `filescope` library, verified with Verus: archive recognition and
  the extract/compress commands, destination naming ("file (copy 2).txt"), the
  settings and bookmarks files, the trash's `.trashinfo` records, the run of a
  background copy/move/delete job (its decisions and the order of its reports), tab history, clipboard formats, the drop
  rules and the texts the window shows. Every public function states what it
  returns in its `ensures`; the laws that tie functions together (saved
  settings read back as parsing holds them, exactly as written when the zoom
  and sort column are in range; a saved bookmarks list reads back as written;
  going back then forward returns to the same place; a chosen copy name is
  never taken; "apply to all" answers stick, ...) are public proof functions
  beside them.
- `app/` is the program around it: the GTK window, the file-system work and the
  worker thread that runs a job, each handing plain values to the library.
- `tests/` runs the library on concrete values.
