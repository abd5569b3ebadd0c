# fst_writer

The in-memory side of an FST waveform writer, verified with Verus: the buffer that collects
time steps and value changes until they are handed over as a value change section, and the
encodings it relies on.

- `src/varint.rs`: the LEB128 style varints of the format, with writing and reading proved to
  be inverse.
- `src/encode.rs`: time table entries and the encodings of one bit and multi bit value changes.
- `src/lists.rs`: several append only lists kept in one vector, linked by back pointers.
- `src/buffer.rs`: the signal buffer, with its model (`BufferModel`) and invariant.
- `src/signal.rs`: signal types, handles and errors.
- `src/differential.rs`: the deciding and computing parts of the differential test against the
  GTKWave writer: the values written for random signals, the gating of the random history, and
  the ordering of the value changes read back.
- `src/laws.rs`: properties that span several operations.
- `app/main.rs`: compares two FST files through `fst-reader`, ordering their value changes as above and keeping their
  time tables exactly as read.
