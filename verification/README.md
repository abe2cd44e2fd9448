# SpectralBlend

Spectral voice masking for Linux, with its logic verified by Verus. Music gives way to a voice
only in the frequency bins where the voice is heard and in those that are averaged with them. Once
nobody speaks the masks go back to one.

The processing of a frame: compress the voice, take the spectra, move the voice gate, build a
mask from the ratio of voice to music, mask the music, add the frames up again, mix. Live output is
the plain sum of the windowed frames. In recordings what the masks take away is subtracted from the
music, weighted by the windows, so that music without a voice comes out as it went in.

## Layout

`src/` is the library. All of it is verified.

- Numbers: `binary32` (IEEE 754 numbers by their bit patterns), `rounding`, `arith` (exact
  results, rounded), `order` (rounding keeps the order), `blend` (weighted means).
- Processing: `config`, `params`, `level`, `compressor`, `voice_gate`, `spectral_mask`, `fft`
  (windows and overlap-add), `mixer`, `pipeline`; what holds of it in `mask_laws`,
  `pipeline_laws` and `frame_laws`.
- Streams: `stream` (windows, channels, samples), `ring` (ring buffers of `rtrb`), `realtime`,
  `offline`, `filter` (the PipeWire filter node), `devices`; what holds of them in
  `offline_laws`, `silence_laws` and `filter_laws`.
- Routing of apps: `text`, `ports`, `table`, `messages`, `graph`, `routing`, `routing_laws`,
  `apps`.

The library computes in binary32 arithmetic of its own: numbers come out bit for bit as IEEE 754
asks. What is not a number comes out as one fixed pattern, where machines differ. Logarithm,
powers, cosine and the Fourier transform are handed in as functions; contracts say what each of
them is asked and what is made of its answer. Laws that compare two runs take it that these
functions answer alike each time (`answers`).

`app/` is the program around the library: command line, files, devices, PipeWire and the window.

`tests/` runs the library, among others against the same formulas in machine arithmetic.
