//! A verified model of an SSD1315 OLED controller driver: a monochrome
//! 128x64 frame buffer organised in pages, the drawing primitives that paint
//! into it, the command programs sent to the controller over I2C, and the
//! text commands read from a console.

pub mod chars;
pub mod font;
pub mod io_handler;
pub mod line;
pub mod message;
pub mod pixels;
pub mod ssd1315;
pub mod transfer;
