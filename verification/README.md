# toro

The Toro weather station: an ESP32 station that uploads one reading per
hour, and a web server that stores the readings and serves charts of them
by day, week, month, semester (26 weeks) and triennium (36 months).

This crate is the station's and the server's logic, written in Verus and
proved against its contracts:

- `calendar`, `civil`: the Gregorian calendar in epoch days, and dates as
  chrono reads, computes and writes them;
- `text`: reading and writing decimal numbers;
- `hour_keys`: the hour keys "YYYY-MM-DDTHH" the station names its uploads
  by, and reading the server's clock back from one;
- `periods`: the week, month, semester and triennium a reading belongs to,
  the hour ranges of each period, and the periods a list of dates covers;
- `buckets`: which chart bucket each reading of a period falls in, with the
  bucket labels;
- `auth`, `rate_limit`, `migration`, `pages`: request authentication by a
  bcrypt-hashed token, the per-address rate limiter, the schema check at
  start-up, and the static file paths and day-page script;
- `firmware`, `clock`: the station's decisions (debouncing, pulse counting,
  the simulated clock, upload retries, sensor reads, Wi-Fi retries, LCD
  lines).

`app/` holds what Verus does not see: the Rocket server (routes, database,
JSON files, the floating-point statistics of each bucket) and the station's
ESP-IDF glue, which needs the ESP toolchain and is not part of the server
binary. `tests/` exercises the library on concrete values.
