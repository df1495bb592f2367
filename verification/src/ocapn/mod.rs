pub mod locator;
pub mod session;
pub mod shown;
pub mod syrup;
pub mod types;
