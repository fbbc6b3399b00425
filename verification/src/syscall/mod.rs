pub mod areas;
pub mod dispatch;
pub mod errno;
pub mod fork;
pub mod kernel;
pub mod uaccess;
pub mod user_mem;
pub mod wait;
