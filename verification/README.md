# rust_app_menu

A small application launcher for Wayland compositors (layer shell), split
into a verified library and the program around it.

* `src/` — the library, verified with Verus:
  * `text.rs`: white space, substring search, splitting and lines over the
    `Seq<char>` view of strings;
  * `data.rs`: `.desktop` entries, `Exec=` cleaning, ordering the list of
    applications (with its laws);
  * `app.rs`: the launcher's state machine (`update` against `transition`),
    the search, window heights, the requests sent to the windows, and what is
    drawn;
  * `config.rs`: anchors, margins, `#RRGGBB[AA]` colours, the configuration
    file's path;
  * `args.rs`: the command line; `daemon.rs`: the socket's path;
    `monitor.rs`: the focused output in `hyprctl`/`swaymsg` JSON.
* `app/` — the program: iced and layer-shell glue, file and socket I/O,
  the configuration file read with serde/toml, and styles (floating point).
* `tests/` — tests of the library on concrete values.
