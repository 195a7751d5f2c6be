# maimai_touch

Verified core of a maimai touch-panel emulator that turns Android touch
events (`adb shell getevent -l`) into the game's serial touch protocol.

- `src/` — the library, verified with Verus:
  - `packet.rs`: the 9-byte touch packet and its bit layout;
  - `layout.rs`: the 34-zone layout, zone names and colour keys;
  - `image_access.rs`: the panel picture (an `image::RgbImage`);
  - `zone.rs`: zone lookup by pixel colour around a touch point;
  - `event.rs`: parsing of `getevent -l` lines;
  - `touch.rs`: the multi-touch state machine and the conversion of
    contacts into touch updates;
  - `serial.rs`: the state shared by the serial reader and writer, and the
    handshake with the game.
- `app/` — the serial port and its threads, the `adb` process, loading
  the picture, and the floating-point geometry.
- `tests/` — tests of the library.
