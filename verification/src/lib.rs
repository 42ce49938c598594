pub mod sip;
pub mod traits;
