# lidar_monitor

Finds people in the scans of a rotating LD19 lidar, shows them in a window with a dog bark alarm, or
serves snapshots of every scan over HTTP.

* `src/` is the library: calibration, motion, tracking, drawing and snapshots, verified with Verus.
* `app/` is the program around it: serial port, window, web server and floating point arithmetic.
  Run it without arguments for the live view, or as `serve` for the server on port 8080. The driver
  and the classifier come from the `lidar_ld19` crate, which is not published.
* `tests/` exercises the library from outside, against plain floating point where that matters.
