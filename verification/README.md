# veloren

Verified pieces of a voxel game client and of its network protocol.

- `src/` is the library, with its contracts and proofs:
  - `prio`, `serve`, `message`, `frame`, `types`: the message scheduler. Each
    stream has a queue of outgoing messages, a priority and a guaranteed
    bandwidth; `PrioManager::grab` turns a time step's bandwidth into frames,
    first serving every stream with its guaranteed share, then sharing what is
    left level by level among the priorities, and reports the messages that
    were sent completely. `grab_laws` proves that a grab sends every pending
    frame at most once and loses none, that each stream sends its frames in
    queue order, and that every stream with something pending sends in every
    grab.
  - `settings`: the default keybindings and the other default settings.
  - `lod`: the detail target of the level-of-detail terrain and the decision
    to rebuild its mesh.
  - `audio`: the bookkeeping of the sound channels and the random choice of a
    soundtrack.
  - `scene`: choosing the nearest lights and shadows, the shadow-matrix
    layout, the camera stance and the routing of input events.
- `app/` holds what talks to the outside world: the settings file, the audio
  devices and sinks, and the conversion of a time step into nanoseconds.
- `tests/` runs the library on concrete values.
