# app_deleter

The verified core of App Deleter, a Windows tool that lists installed applications
by the space they really take and starts their uninstallers.

- `src/` — the library, verified with Verus:
  - `command_line` — splitting an `UninstallString` into program and arguments;
  - `entry` — turning one `Uninstall` registry key into an application record;
  - `catalog` — one record per display name, sorted by size;
  - `data_roots` — which folders count towards an application's size;
  - `fastsize` — the decisions of the directory-size scanner;
  - `elevation`, `installer`, `uninstaller` — what the UAC relaunch, the install
    wizard and the uninstall wizard decide, write and report;
  - `text` — character-level helpers.
- `app/` — registry, file system, Win32 and process access around the library.
- `tests/` — tests of the library.
