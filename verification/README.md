# home_flow

The verified core of HomeFlow, a smart-home floor-plan application that
shows a house layout with live Home Assistant state.

`src/` is a Verus library; every function in it is proved against its
contract:

- `color`, `hex_color`: byte colours and `#rrggbb[aa]` codes.
- `vertex_queue`, `skeleton`: the ring structure that the polygon-offsetting
  skeleton rewires (removal, splitting, normalising start nodes, iteration),
  and the two wavefront events applied to it.
- `layout`, `furniture`, `edit_mode`, `packets`: layout data and its rules
  (material lookup, drawing order, resize directions, messages).
- `home_assistant`: what a Home Assistant state report or websocket message
  changes.
- `occupancy`: presence counts per zone, occupancy reporting with a hold
  time, presence calibration rounds.
- `light_control`: switching and dimming lights from the layout, with one
  queued Home Assistant request per light.
- `sync`: the client's polling of the server and its login, as state machines.
- `text`: string helpers used by the above.

`app/` is a small command-line program around the library: JSON input and
output, the floating-point colour and presence arithmetic, and conversion
of `geo_types` polygons.
