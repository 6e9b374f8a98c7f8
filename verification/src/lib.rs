//! mentat: the rules a small GPU cluster runs on.

pub mod common;
pub mod daemon;
pub mod serve;
