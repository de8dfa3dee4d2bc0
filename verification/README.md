# everything_imu

Verified core of a bridge that turns game-controller IMUs into SlimeVR
trackers and drives their rumble motors from VRChat OSC parameters.

`src/` is checked by Verus:

- `latency` — sample windows capped at 256 entries, sorted-window
  percentiles, the drop estimate, and the bounded snapshot history.
- `joycon_rumble` — packing of the Joy-Con HD Rumble frame from an encoded
  amplitude.
- `steam_deck` — Steam Deck gamepad interface identification, FNV-1a based
  MAC derivation, listing of paired Decks, and the bookkeeping of which
  interfaces the enumeration loop has already handed out.
- `updater` — comparison of release versions and the update report.
- `osc_haptics` — address normalisation, haptic rules and configuration, and
  the routing of one OSC message to the rules it reaches.
- `text` — whitespace trimming and string equality over Unicode scalars.

`app/` holds the rest: hidapi and self_update I/O, the async loops, serde
forms of the configuration, and the floating-point signal math (intensity
clamping, the Joy-Con amplitude curve, jitter, OSC value mapping).
