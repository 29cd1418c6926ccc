# batocera_menu

Preview a Batocera `*.core.yml` core-options file as the menu
EmulationStation would show, browse it in the terminal, and enable or
disable its `custom_features` entries by commenting them out in place.

The library in `src/` is written in Verus and verified:

- `source` scans the raw text for the `custom_features:` entries (active or
  commented out), comments and uncomments them without touching any other
  byte, applies a session's changes, renders the text back, and merges
  commented-out entries into the parsed features in file order.
- `model` holds the parsed file and builds the menu tree (groups, submenus,
  toggles, choices, placeholders).
- `app` is the interactive menu's state machine: every key press is a
  transition stated as a spec function, `step`.
- `screen` says what each row's line and the description panel show.
- `tree` renders the menu as a plain-text tree; its exact raw text is
  stated, up to the form crossterm's styling takes on the machine (coloured,
  colours off, or nothing where there is no ANSI support).
- `strmap` is a small string-keyed map that keeps insertion order; `text`
  holds the string and line helpers; `outside` declares the calls made into
  `indexmap` and `serde_yaml`, with the contracts believed of them.

The laws that hold across calls (scanning then rendering gives the text
back, disabling then enabling restores it, Space twice changes nothing,
quitting asks for confirmation exactly when a change is pending, the merge
never drops a parsed feature, and so on) are public proof functions named
`law_*`.

`app/` is the terminal program around the library: argument parsing, file
I/O, the YAML parse into the library's types, drawing with ratatui and the
crossterm event loop.

    batocera_menu path/to/core.yml          # interactive
    batocera_menu --tree path/to/core.yml   # print the tree and exit
