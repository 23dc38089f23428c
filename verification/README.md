# mpu6050_validation

Bring-up, acquisition and log-validation logic for MPU-6050-class IMUs,
written in Verus. Every function under `src/` carries a contract; Verus
proves all of them but three small trusted wrappers, whose contracts it takes
as given: two of std (`text::push_char` around `String::push`, and
`bitbang`'s spin wait around `core::hint::spin_loop`) and one of `serde_json`
(`facemap`'s reading of a mapping document, whose result is named as a
function of the text). The properties that span several functions stand as
public proof functions (`lemma_*`).

## Layout

- `src/` — the verified library.
  - Device side: `registers`, `config`, `bus` (the I2C bus trait and the
    transcript of transfers), `device` (the driver handle), `interrupt`,
    `raw` (block reads, suspicious-sample screening, retries), `probe`,
    `startup` (data-ready bring-up, sample-timing configuration, evidence
    score), `bringup` (reset/wake, interrupt-status, averaging and scale
    checks), `acquisition` (pending events, interval statistics, the
    service step), `bitbang` (a software I2C master on two open-drain pins).
  - Output and its reading: `text`, `fields`, `rawline` (the raw sample
    line grammar), `telemetry` (the lines the firmware prints), `frame`
    (binary frames, CRC-16/CCITT-FALSE, the stream decoder), `integrity`,
    `report` (the verification summary), `logtext` and `logcheck` (the
    host's reading and checking of a captured log), `tool` (integer
    decisions of the host tool), `facemap` (the six-face mapping document).
- `tests/` — tests run against the compiled library.
- `app/` — ordinary Rust around the library: serial and file I/O, the
  embedded-hal adapters, and the floating-point analyses (unit conversion,
  stationary, six-face, Allan and PSD reports).

## Outside crates

`src/` calls `serde_json` to parse the six-face mapping document, behind
one trusted wrapper. `embedded-hal`, `serde`, `serialport`, `chrono` and
`libm`, and `serde_json` for the reports, are used by `app/`.
