# volume_controller

Per-application volume control for Stream Deck devices on Linux, with its rules
verified by Verus.

- `src/` is the verified library. It turns what the audio server, the window
  system, the media players and the art files on disk report into mixer channels,
  labels and images:
  - `audio`: from sink-inputs to a list of entries, with indistinct streams
    collapsed, and the unmuting of browser tabs that inherited a mute.
  - `mpris`, `kick`, `window_icons`: real names, art and icons for the entries.
  - `mixer`: one channel for each entry, from one refresh to the next, and the art
    that each channel holds. `mixer::laws` states what holds of them whatever
    streams come and go.
  - `scroll`: labels that are too long for their place.
  - `gfx`: what is drawn where, and images as data URIs.
  - `text`, `codec`: text handling, and calls into `base64` and `image`.
  - `webp`: WebP files that are kept from the decoder of `image`: those whose alpha
    frame makes it panic, and all with a lossless part, since some of these do.
- `app/` is ordinary Rust around it: PulseAudio, D-Bus, X11, `curl`, the device, and
  drawing that is done in floating point.
- `tests/` runs the library.

Volumes are percentages kept as the bit patterns of IEEE 754 singles. Times are
counted in nanoseconds.
