# Audio Splitter

A small Windows tool that duplicates what the default speaker plays to a second output, such as
the input of a virtual audio cable. `src/` is its logic, verified with Verus; `app/` is the window
and the WASAPI streams around it.

| module     | what it holds                                                                |
|------------|------------------------------------------------------------------------------|
| `single`   | single-precision numbers by their bit patterns: comparing and clamping them   |
| `peak`     | the peak level of a buffer or of the front of a queue                         |
| `meters`   | the two level meters and their histories                                      |
| `capture`  | the capture side: captured bytes leave in chunks of equal length              |
| `playback` | the playback side: whole frames for the device, silence where audio is missing |
| `bridge`   | whether the two threads run                                                   |
| `devices`  | listing devices and finding one by name                                       |
| `text`     | shortening labels, comparing without regard to ASCII case                     |
| `layout`   | what fits on the screen                                                       |
| `splitter` | the state behind the window                                                   |

The two sides are step functions: each takes in what came of the last action and names the next
one, and the thread that drives it does the reading, sending, writing and waiting. What the second
output plays is stated in `playback`:

- `law_output_plays_chunks_of_the_source`: on every run, the audio that is written, that waits to
  be written and that is under way between the two sides is, taken together, whole chunks of what
  was captured, in order; whatever else is written is silence.
- `law_output_duplicates_the_source`: where no chunk is refused, these and what waits to be handed
  over are everything that was captured, and without a gap where a chunk is there whenever one is
  wanted.

The device that was chosen is the one that is opened, whatever longer names stand before it and
whichever other names could be read; of several devices of the same name it is the first
(`devices::law_chosen_device_is_found`).

Levels and sizes cross the border between `app/` and `src/` as bit patterns
(`f32::to_bits`, `f32::from_bits`).
