// Escape-time rendering of the Mandelbrot set: parsing of the image size,
// the escape-time iteration, and the row-major grayscale buffer fill.
pub mod escape;
pub mod parse;
pub mod raster;
