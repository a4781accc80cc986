# minivac

An emulator of the Minivac 601, a relay computer of the early 1960s that is
programmed by plugging patch cords between the holes of its faceplate.

The library (`src/`) is verified with Verus. It holds the discrete logic of
the machine:

- `ports`: the catalogue of the faceplate's ports and their printed names;
- `simulation`: the machine's state and the links of zero resistance that
  its cords, buttons, switches, relay contacts, dial wiper, matrix and
  tie-points close;
- `graph`: splitting ports into nets, two ports sharing a net exactly when
  a walk of closed links joins them;
- `electrical`: the nets, the supply level that holds each, the loads
  between them, short-circuit detection and the circuit breaker;
- `patching`: picking cords up and dropping them into holes;
- `wiring`: reading port names from experiment sheets and wiring a sheet;
- `laws`: properties that relate several of these operations.

The program (`app/`) draws the faceplate with egui and runs the analogue
part of the machine, which is floating point: the voltages of the nets,
lamp brightness, relay armature travel and the rotation of the dial.
