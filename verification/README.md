# aegg-apple

Video on an e-paper badge, with sound: a verified core and the firmware around
it.

`src/` is the library. It holds everything that is decided, computed or parsed,
with contracts that Verus proves:

- `video`, `adpcm` -- the two file formats and their decoders
- `flash`, `fat12` -- aligned flash reads, and a read-only FAT12 reader
- `asset` -- random-access reads over a file
- `audio` -- the PWM carrier, the sample stream and the playback loop
- `player` -- which frame is due, and when playback stops
- `ssd1675`, `epd` -- waveforms, bus operations, panel bring-up
- `usblog` -- log lines and their packets

Work that waits for hardware is split: the library names the next access and
takes its outcome, and `app/`, the firmware for the nRF52840, performs it.

The panel is the bottleneck: a refresh takes longer than a frame lasts, so the
player skips frames rather than letting the picture slide behind the music.
There is no DAC; sound is duty modulation of a piezo, and the sample clock is the
master clock of the whole player. Only the second half of the 2 MiB flash chip is
read, and none of it is ever written.
