//! Link extraction, download planning and transfer bookkeeping for a
//! segmented download manager.

pub mod text;
pub mod registry;
pub mod pointer;
pub mod resolve;
pub mod html;
pub mod natural;
pub mod links;
pub mod transfer;
