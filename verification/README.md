# process_icon

Finding the icon of a running process, with the decisions and file formats
behind the lookup verified in Verus.

- `src/` is the verified library: desktop entries (which icon a Linux
  application declares for the command it runs), Unix paths and macOS
  application bundles, the logo candidates of a Windows package manifest
  (read with quick-xml) and the size variant closest to 64 pixels, and the
  buffers exchanged with the Windows icon API.
- `app/` holds what the library leaves to the platform: reading directories
  and files, the icon themes, AppKit and Win32 calls, and the conversion to
  Iced image and SVG handles.
- `tests/` runs the library on concrete inputs, and checks it against the
  standard library and quick-xml where they answer the same questions.
