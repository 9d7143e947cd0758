pub mod apply;
pub mod gatekeeper;
pub mod index;
pub mod ls;
pub mod memory;
pub mod read;
pub mod search;
pub mod standards;
