# udev-xpath

An in-memory XML model of the udev device database, kept up to date from
hotplug events, for querying with XPath.

- `src/` is the verified library:
  - `config.rs`: the builder (coalescing window, attribute and property
    layout, subsystems);
  - `device.rs`: devices as plain values, and how raw udev values read as
    text (UTF-8 or base64);
  - `xml.rs`: the document arena, with parent/child links, removal and the
    climb that detaching performs;
  - `attrs.rs`: the layout of device attributes as `attr` and `attr-path`
    elements;
  - `udev_tree.rs`: attaching and detaching devices, with their ancestors
    and the fragments that wait for a managed parent;
  - `window.rs`: coalescing the events of one time window and applying them.
- `app/` holds the asynchronous side: udev monitors and scans, the xot
  document that mirrors the model for queries, and the event loop.
- `tests/` exercises the library.
