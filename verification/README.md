# sail_tracker

Data handling for a dinghy sail tracker built on an nRF52833: a tilt and
compass sensor, a GPS module and an SD card. The sensor tasks queue readings,
each naming the column of the CSV log it belongs to; once a second the card
task gathers them, with the time since boot, into one row of the log.

- `src/` is the verified library (Verus):
  - `rows`: the header of the log, gathering readings into the slots of a
    row, ordering them by column, and building the fixed-size line written
    to the card.
  - `clock`: hours, minutes and seconds since boot, the `hh:mm:ss` time cell
    of a row,
    and the calendar stamp given to files on the card (through
    `embedded_sdmmc::Timestamp::from_calendar`).
  - `number`: writing a small whole number as ASCII digits into a buffer.
  - `gps`: splitting what the GPS module sends into sentences and fields,
    picking the GGA fix sentences, and turning a fix into readings. Text is
    handled as byte strings and fixed 8-byte cells.
- `app/` is the firmware around it: the embassy tasks, the peripherals, the
  queue, and the floating-point work (tilt angles, compass heading,
  coordinates in decimal degrees), which the library does not hold.
- `tests/` runs the library on concrete values.
