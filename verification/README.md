# doom_launcher

A launcher for Doom source ports. The library (`src/`) holds its logic,
verified with Verus: the remembered lists of source ports and IWADs
(`named_paths`), the settings file (`settings`), the mods and maps offered
from a folder (`mods`), the dropdown selections after a refresh (`selection`)
and the command line of a launch (`launch`). `text` holds the line and field
splitting that the files are read with. `paths` holds the calls into
`std::path` (path equality, file names) and `str::to_lowercase` whose results
the contracts name, and the file stem and extension, which are worked out
from the file name as `std::path` documents them.

`app/` is the window (slint), the file dialogs (rfd), the configuration
directory (dirs) and the file I/O around the library.
