//! Verified protocol logic of the WRX robot: the serial command protocol spoken
//! between the host's motor node and the wheel controller, the encoder
//! bookkeeping of the odometry node, and the line protocol of the IMU node.
pub mod decimal;
pub mod imu_node;
pub mod motor_node;
pub mod protocol;
pub mod text;
pub mod wheel_controller;
