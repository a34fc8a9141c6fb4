# wrx

Verified protocol logic of the WRX robot (WhiteSponge Robotics Explorer).

- `src/` is the library, verified with Verus:
  - `wheel_controller`: the wheel controller's command loop (line buffering, the `o` and
    `e` commands, motor duties, encoder counts and the counts report);
  - `motor_node`: what the host's motor node sends and how it reads the replies and
    keeps the encoder counts between readings;
  - `imu_node`: how the host's IMU node collects and splits a reading;
  - `text`, `decimal`: UTF-8 validation, splitting, searching, and decimal integers;
  - `protocol`: laws that tie the two ends of each serial line together.
- `app/` holds the programs around it: the two ROS2 nodes and the two firmware loops,
  with their I/O and floating-point arithmetic.
- `tests/` exercises the library on concrete values.
