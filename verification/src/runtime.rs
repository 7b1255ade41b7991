pub mod pool;
pub mod ring;
pub mod refs;
pub mod spawn;
pub mod time;
pub mod token;
pub mod erase;
