# ssd1306_driver_rs

A driver for SSD1306 monochrome OLED panels (128x64, 128x32, 96x16), with a
system-information display for the Raspberry Pi built on it.

- `src/` is the verified library: the page-packed frame buffer and its pixel
  operations, the command sequences sent to the controller (initialization,
  flush, contrast, inversion, power), the I2C framing of command and data
  bytes, the reset pulse, and the decisions of the status display (refresh
  waits, message line, load-average field).
- `app/` is the program: the I2C and SPI transports over embedded-hal, the
  embedded-graphics drawing surface, and the status-display main loop on
  rppal.
- `tests/` exercises the library on concrete values.
