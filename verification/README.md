# raop_send

Pipe raw PCM from stdin to an **AirPlay 1 (RAOP)** speaker, with the protocol
verified in [Verus](https://github.com/verus-lang/verus).

    ffmpeg -i song.flac -f s16le -ar 44100 -ac 2 - | raop_send --host 192.168.1.50
    ffmpeg -i song.flac -f s16le -ar 44100 -ac 2 - | raop_send --host Office

Input must be interleaved little-endian 16-bit stereo PCM at 44100 Hz. The
session is unencrypted (`et=0`) and uses ALAC by default.

## Layout

- `src/` is the library. It holds everything that is decided or computed. Each
  function has a contract, which Verus proves: for given inputs and readings it
  says what is returned; where the time or chance decides, it says of which
  reading or number the result is made.
  - `codec`: uncompressed ALAC frames and big-endian PCM
  - `audio`: blocks, RTP packets, and when each packet is due
  - `history`, `stream`: the packet ring, and the timing, SYNC and retransmit
    responders
  - `clock`: NTP timestamps on a monotonic clock
  - `dns`, `mdns`: queries, replies, and the search for a speaker by name
  - `rtsp`, `response`, `session`: requests, responses, and their order
  - `args`, `log`: the command line and the verbosity
  - `text`, `bytes`, `random`: what the rest is built from
- `app/` is the program: sockets, threads, stdin and the terminal.
- `tests/` runs the library on concrete values.

Public proof functions (`lemma_...`) state what holds of the library as a
whole, among others: the samples of an ALAC frame read back; what is sent
depends on the input alone and not on how reads fall; each of the last 2048
packets can be sent again, byte for byte; a later reading of the monotonic
clock never gives an earlier timestamp; the responders are live before RECORD
goes out.

## What is taken on trust

- `rand::random`, of which nothing is claimed;
- `Instant::now`, `Instant::elapsed` and the system time: only that nanoseconds
  stay below a second;
- `String::from_utf8_lossy`: that it decodes valid UTF-8, and depends on the
  bytes alone otherwise;
- `String::push`: that it appends one character.
