# scorify

The music-notation core of a score engraver: it reads the compact music
strings of a score (notes, rests, chords, barlines, attachments, spans,
voices, colours) into events, and prepares those events for layout (glyph
names, accidental spacing rules, measures, systems, staff groups, lyric
continuation, instrument-name lines).

The library under `src/` is written in Verus and verified:

- `text`, `lexer`: byte classes, colour names and the small readers the
  parser is built from, each with an exact specification.
- `parser`: the music-string parser. For any input, the events are those
  of a run of parser steps from a fresh parser over the whole input (see
  `step` and `parse_trace`), each step being exactly what the reader for the
  character at that position does: notes, chords, rests and spacers with
  their marks and attachments, barlines, time signatures, clef changes,
  voice groups, standalone staff markers on the event before them, slur
  marks, span openers (`{n,m:` tuplets, `cresc{`/`decresc{`, `tr{`,
  `grace{`, `end{label:`, `8a{`/`8b{` octave lines, `color{name:`),
  element colours (`color{name}`), the `/` of `/}` and the `}` that closes
  the span opened last, with each span's closing specified per event. The
  hairpin, trill, ending and colour spans still open at the end are then
  closed (see `closes_to`). For plain melodies (with any blank lines around
  them) the events are moreover given token by token, sticky durations
  and clef octaves included.
- `note_colors`: note-colour maps keyed by pitch class and octave.
- `types`, `accessors`: the event model and uniform access to it.
- `pitch`: clef names and diatonic positions.
- `layout`: glyph names, accidental spacing rules, and cutting event streams
  into measures and systems.
- `score`: staff grouping, time signatures, repeat barlines across system
  breaks, per-system clef/time/lyric state, instrument-name lines.

`app/` holds what stays outside the proofs: the JSON score description
(serde), the beat and spacing arithmetic done in floating point, and the
width-based system breaking, which needs glyph metrics.
