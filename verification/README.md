# windisplaymanager

DDC/CI monitor control and display-layout profiles for Windows, with the
decision logic verified by Verus.

## Layout

- `src/` — the verified library:
  - `ddc`, `capabilities`, `monitors`, `monitor_views`: monitor identity by
    device path, MCCS capability parsing, value decoding and the readings
    shown per monitor.
  - `config`, `editor`, `action_editor`, `keys`, `hotkeys`: hotkey bindings,
    action chains and their editing (including what the editor of one action
    offers), key-code names, the registered-hotkey map.
  - `actions`, `coordination`, `hardware_queue`, `debounce`: turning actions
    into jobs, the serialized hardware queue with topology generations, and
    slider debouncing.
  - `ccd`, `remap`: display-layout records, the retrying query, fail-closed
    remapping of a saved layout onto the live topology, validate-then-apply.
  - `persistence`, `profiles`, `startup`, `status`, `tray`, `icons`, `text`:
    the settings write block, profile names and timestamps, the startup
    command line, user-facing texts and the tray menu.
  - `laws`: properties that span several functions, as proof functions.
- `tests/` — tests of the library on concrete values.
- `app/` — the Windows program around the library: file storage, the
  Win32 display and DDC calls, the registry and the global-hotkey loop.
