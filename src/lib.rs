//! Column statistics for a table: the sample of numeric cell values is reduced
//! to an average, sum, minimum, maximum or median. Numeric values are carried as
//! the bit patterns of 64-bit floating-point numbers; the library selects and
//! orders them, and says which floating-point work (adding, halving, dividing)
//! turns the selection into the displayed number.
pub mod laws;
pub mod order;
pub mod service;
pub mod statistic;
