//! The values that cross the C interface: constants, results, errors and the
//! helper types they are built from.
pub mod constants;
pub mod errors;
pub mod logging;
pub mod utils;
