# plexus-listen

Audio capture from wireless microphone systems (DJI MIC MINI and others) over Plexus RPC:
streaming, recording, metering, probing and live monitoring.

The library in `src/` holds the logic and is verified with Verus. The server in `app/` is
ordinary Rust around it: it talks to the audio devices, the USB bus, the file system and the
network, computes with floating point, and hands the library plain values.

## Layout

| Module | What it holds |
|--------|---------------|
| `text` | substring search, comma lists, numbers as text, alphabetical order |
| `types` | events, devices, channels and their labels |
| `pcm` | samples as bit patterns, bytes and base64 text |
| `ring` | the bounded buffers between the audio callbacks and the methods |
| `meter` | levels, peaks, the analysis of a channel, correlation of two channels |
| `device` | which USB device, input device, stream and application is meant |
| `sck` | which applications can be captured, and how their audio is interleaved |
| `capture` | opening a source by name |
| `monitor` | playback: output stream, buffers, blocks for the resampler |
| `recorder` | bookkeeping of a WAV recording |
| `hub` | the methods of the plugin, as sessions that say what to emit |

Samples and measured values are held as the 32 bits of a single-precision number. Where real
arithmetic is needed (roots, logarithms, correlations), the caller hands in the function, and
the contracts say what it is applied to and what becomes of its result.

The public proof functions whose names begin with `law_` state what holds across functions:
a listener of `stream_audio` gets every sample that came out of the buffer back bit for bit, chunks are numbered
without gaps, splitting into channels neither loses nor invents a sample, buffers are first in
first out, and so on.

## Trusted parts

The ring buffer of `ringbuf`, the encoder of `base64`, and `to_lowercase`, `sort_unstable` and
the debug form of strings from std are called through small wrappers. Their doc comments say
what is taken for granted.

## Methods

All methods stand in the `mic` namespace of the `listen` backend:

    synapse -P 4447 listen mic <method> [--param value ...]

| Method | Params | Description |
|--------|--------|-------------|
| `info` | | USB device info |
| `list_devices` | | Enumerate audio input devices |
| `list_channels` | `--device`, `--labels` | Enumerate channels with labels |
| `record` | `--path`, `--device`, `--timeout` | Record to WAV file |
| `levels` | `--device` | Stream RMS/peak level meters |
| `stream_audio` | `--device`, `--chunk_ms` | Stream interleaved base64 PCM chunks |
| `stream_channels` | `--device`, `--channels`, `--labels`, `--chunk_ms` | Stream per-channel mono audio and levels |
| `probe` | `--device`, `--duration_ms` | Per-channel signal analysis |
| `monitor` | `--device` | Live playback through the server's output |
| `status` | `--device` | Device connectivity check |

Without `--device` the DJI microphone is detected; with it, a part of a device's or an
application's name selects the source.
