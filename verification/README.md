# flightlogr

Flight logging from the Open Glider Network: read the APRS stream of aircraft
positions, detect take-offs and landings, and name the aircraft from the OGN
device database.

The library under `src/` is verified with Verus:

- `aprs::parsing` reads an APRS line into a report (header, timestamp,
  uncompressed position, course/speed extension, comments), with the grammar
  stated as spec functions on the line's bytes;
- `aprs::comments` reads the OGN comments (altitude, precision enhancement,
  device id, climb rate, turning rate, flight level);
- `aprs::time` guesses the full date of a timestamp from the current instant;
- `aprs::report` holds the reports and writes their parts as APRS text;
- `aprs::client` holds the client's decisions: the login line, the server's
  answers to it, and which lines are reports;
- `events` detects take-offs and landings from each aircraft's reports;
- `ogn` decodes OGN device identifiers, and `ogn::ddb` reads the device
  database;
- `calendar` and `text` hold the calendar (through chrono) and the byte and
  number helpers.

`app/` is the program around it: command line and configuration, network and
file I/O, floating-point units and coordinates, and notifications.
