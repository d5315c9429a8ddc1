# play

A media player for macOS: video in a window, music in the terminal.

`src/` is the library. It holds what the player decides, and Verus proves of each function what its
contract says:

- `cmd`, `playm`: messages between the threads, and the two command lines
- `playlist`, `streams`: what is played, in what order, and which streams of a file
- `demux`: the packet cache, seeks in it, and how commands are coalesced
- `player`, `modes`: the state machine of the player, with video and without
- `decode_audio`, `decode_video`, `audio_out`, `video_out`, `sync`: buffers, frames and clocks
- `subtitle`, `composite`: SubRip files, embedded subtitles, and blending of bitmaps
- `input`, `osd`, `window`, `terminal`, `visualizer`: keys, and what is shown
- `time`, `text`, `decimal`, `binary64`, `precision`, `bignum`, `order`: what the others rest on

The functions whose names begin with `lemma_` state laws of the library, or help to prove them.

`app/` carries the decisions out, with ffmpeg, CoreAudio, AVFoundation, AppKit and termion. Called
as `playm` it plays music, as `playv` video, and by any other name both.

`tests/` runs the library on concrete values.
