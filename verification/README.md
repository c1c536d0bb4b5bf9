# esp_hal_utils

Building blocks for small sensor nodes, verified with Verus.

| Module | What it holds |
| --- | --- |
| `tinybuf` | A byte queue over a fixed array: push, find, advance, copy. |
| `serial` | Frames on a serial byte stream: a writer's encoding and a reader's state machine. |
| `bus` | Conversations with a device on an I2C bus, one request at a time. |
| `aht20` | The AHT20 temperature and humidity sensor: conversations, CRC-8, decoding. |
| `bmp280` | The BMP280 pressure and temperature sensor: registers, settings, conversations. |
| `ws2812` | Pulses for WS2812 pixels, and the steps that send them. |
| `serial_laws`, `serial_history`, `bus_laws`, `bmp280_laws` | What holds of whole streams, conversations and histories. |

`src/` is the library: every function in it is proved to meet its contract. It does no I/O. A
`bus::Session` names the next bus request and takes in the reply, a `serial::FrameReader` takes in
the bytes of one read, and a `ws2812::Ws2812` names the next transmission or pause.

`app/` is ordinary Rust around the library: it performs the requests on an async I2C bus, reads and
writes the serial port, drives the pulse generator, and turns raw readings into degrees, percent and
hectopascals.

The checksum of a serial frame is a parameter: pass the same 16-bit checksum function at both ends.
A pixel's colour comes in as a 24-bit word, laid out as the pixel expects it.
