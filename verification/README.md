# wav-demo

A WAV goes in, Opus happens to it, a WAV comes out, so you can listen to the difference. For
each bitrate the compressed stream is kept too, as an Ogg Opus file that any player opens.

The library in `src/` is written in Verus, and every function in it is proved to do what its
contract says. It calls no codec and touches no file: it says what is to be done next and is
told what came of it.

| module | what it is |
|---|---|
| `bytes`, `text` | numbers as bytes and as decimal text |
| `wav` | 16-bit PCM in RIFF/WAVE files, read and written |
| `crc`, `ogg` | the Ogg container: checksum, pages, the whole `.opus` file |
| `demux` | how a player takes such a file apart, and that nothing is lost in it |
| `args` | the command line |
| `plan` | rates, timestamps, names and contents of the files |
| `trip`, `trip_laws` | one recording through the codec at one bitrate |
| `job`, `job_laws` | a whole run, from the command line to the last file |
| `trial`, `trial_laws`, `report` | the trial of a codec, its claims and the verdict |
| `compare`, `delay`, `spectrum` | the counting behind the measurements |
| `signals`, `clip` | the counting behind the test signals and the demo clip |

`app/` is the program around it: the codec, the files, and whatever is computed in floating
point.
