//! Per-monitor wallpaper profiles: monitor correlation, the fallback protocol
//! for setting a wallpaper, the profile store, schedule decisions and the
//! line-oriented configuration format.

pub mod assoc;
pub mod codec;
pub mod engine;
pub mod model;
pub mod scheduler;
pub mod store;
pub mod text;
