# pipewire_control

Audio routing for PipeWire: presets with chains of LV2 and LADSPA effects, virtual
microphones, stream routing and a soundboard, with a web server, a command line
tool and a GTK window around them. The rules of the application are a library
that is verified with [Verus](https://github.com/verus-lang/verus).

## Layout

- `src/` — the verified library. Every function states in its contract what it
  returns or changes, over spec functions and views; public proof functions state
  what holds across functions.
- `tests/` — tests of the library.
- `app/` — ordinary Rust around the library: the web server, the PipeWire
  connection, decoding, files and programs.

| Module | Purpose |
|--------|---------|
| `pw_engine` | The graph of nodes and links, its events, reconnecting, playbacks |
| `model` | Nodes, links, events and commands |
| `state`, `mic_requests` | Persistent state, and what requests do to it |
| `preset`, `virtual_mic` | Virtual sinks with an effect chain, virtual sources |
| `lv2`, `ladspa` | Plugin catalogs, read from the output of the plugin tools |
| `soundboard`, `soundboard_api` | Clip library, uploads, downloads, playback requests |
| `playback` | Stereo mixing, decoding, walking over the samples |
| `programs` | What other programs are asked, and what their runs mean |
| `router`, `ipc` | Routes of streams, the daemon's socket |
| `effects_chain`, `parametric_eq` | Chains of effects, the settings of an equalizer |
| `maps`, `order`, `text`, `number`, `level`, `ids`, `paths` | What the others are made of |

Floating point numbers are kept as their IEEE 754 bits (`Level`) or as the literal
they were written with (`Number`); arithmetic on them is done in `app/`.

## What is trusted

A few items stand for code outside the library and are not proved: `String::push`,
`str::to_lowercase`, `dirs::config_dir` and `dirs::cache_dir`, `uuid::Uuid::new_v4`,
and of `serde_json` reading a member of a JSON object and the `null` value. Each has
a doc comment that says what is claimed of it.
