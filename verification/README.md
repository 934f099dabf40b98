# open-bar

The core of a quality-first audio player, written in Rust and verified with Verus: DSD and MQA go to the
device as they are where it takes them, and are converted where it does not.

- `src/` is the library. All of it is verified but for five items whose contracts are trusted: `String::push`,
  `to_lowercase` and `Path::extension` of the standard library, the text of a JSON string by `serde_json`, and
  a name for what `to_lowercase` gives. It decides and computes; it does no input or output
  and no arithmetic in floating point. Samples are of any type: where arithmetic on them is needed, it is
  handed in as a function.
- `app/` is ordinary Rust around it: files, devices, threads, the network, the window, and filters in
  floating point. It carries out what the library decides and hands back what came of it.
- `tests/` runs the library on concrete values.

| module | what it is about |
|---|---|
| `plan` | what to send for a source to a device |
| `startup` | how a track is started: which rates to offer, and what to fall back to |
| `player` | the requests of the listener, the playlist, versions of a track, what the screen says |
| `track`, `passage` | the queue between the thread that reads and the thread that feeds the device |
| `source` | reading PCM, and DSD as DSD over PCM |
| `output`, `polyphase`, `frames`, `treble` | conversion of rates and channels, filters |
| `exclusive`, `exclusive_bytes` | samples as bytes for a device without the mixer in between |
| `pcm`, `media`, `mqa`, `playlist`, `combo` | files: decoding, kinds, tags, gapless queues, pairs of video and audio |
| `presence`, `server`, `history` | telling the devices of one listener about each other |
| `cli` | the command line |
| `text`, `bytes`, `json` | helpers |
