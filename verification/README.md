# ldac_dec

An LDAC Bluetooth audio decoder whose integer half is verified with Verus.

LDAC is the lossy codec Sony designed for high-resolution audio over
Bluetooth A2DP (44.1 to 96 kHz, mono, dual-channel and stereo).

## Layout

* `src/` – the verified library:
  * `bitreader` – big-endian bit reader; bytes past the buffer read as zero;
  * `unpack` – transport frame header and raw-data-frame parser (block
    headers, gradient fields, scale factors, quantised and residual
    spectra, padding and fill codes), each stage specified by a spec
    function that also says what a refused frame leaves behind;
  * `bitalloc` – gradient curve, additional word lengths, word-length ids;
  * `sfinfo` – decoder state and its abstract models;
  * `decoder` – `LdacDecoder`: configuration, per-frame decisions,
    re-initialisation on a configuration change, bit-rate, PCM interleaving;
  * `handle` – the state machine behind the `ldacBT_*` C interface: error
    codes, initialisation, decode requests;
  * `tables` – the per-rate and per-configuration values and the
    `CodecTables` type that carries the coding tables, with its validity check;
  * `wav` – WAV header fields for the command-line driver;
  * `setpcm`, `error`, `consts`.
* `app/` – what stays outside: the floating-point stages (inverse
  quantisation, inverse MDCT, sample conversion), the C-ABI entry points,
  the command-line driver and the loader of the table file.
* `tests/` – tests of the library.

## Tables

The coding tables (band and unit layout, weights, gradient curves, spectrum
codebooks, Huffman decoders) and the signal-processing tables are data of the
format.  The library takes the coding tables as a `CodecTables` value, checked
by `CodecTables::is_valid`; the programs in `app/` read both sets from a table
file whose layout `app/tables_file.rs` describes (the C entry points find it
through the `LDAC_TABLES` environment variable, the driver takes its path as
the second argument).
