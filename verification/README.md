# motiongfx

The core of a timeline-based animation engine, with its behaviour stated
in `requires`/`ensures` contracts and proved with Verus.

Animations are built from *action clips* (an action placed on the time
axis). Clips on one field of one subject form a *sequence*; sequences are
gathered by key into *track fragments*, which combine with `chain`, `all`,
`any`, `flow` and `delay`. A fragment *compiles* into a playback-ready
*track*: clips overruled by a later action on an aliasing field path are
dropped (and reported), lanes are laid out grouped by field, and clips are
put in bake order. A *timeline* plays through a list of tracks and, each
frame, queues the sample every touched lane calls for.

## Layout

- `src/time.rs`: exact nanosecond durations and half-open time ranges.
- `src/action.rs`: subject, field and action identities, action clips,
  and the field-path aliasing rule.
- `src/id_registry.rs`: reference-counted ids for subjects.
- `src/sequence.rs`: clip sequences and their conflict report.
- `src/track.rs`: fragments, combinators, compiled tracks.
- `src/conflict.rs`: resolution of overlapping actions on aliasing fields.
- `src/queue.rs`, `src/timeline.rs`: playback state and the sample queue.
- `src/controller.rs`: fixed-rate and passive players.
- `src/pipeline.rs`: keys naming a pipeline by its types.
- `src/mut_detect.rs`: a value with mutation detection.
- `app/`: the floating-point parts (clip progress as a fraction, the
  real-time player) and the text of conflict reports.
- `tests/`: executable tests of the library.

Laws that span several functions are stated as public proof functions
beside the functions they speak of (names starting with `lemma_`).
