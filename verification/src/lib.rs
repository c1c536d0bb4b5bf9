//! Building blocks for small sensor nodes: a byte queue, framing on a serial line, conversations
//! with I2C sensors, and pulses for addressable pixels.

pub mod aht20;
pub mod bmp280;
pub mod bmp280_laws;
pub mod bus;
pub mod bus_laws;
pub mod serial;
pub mod serial_history;
pub mod serial_laws;
pub mod serial_rules;
pub mod tinybuf;
pub mod ws2812;
