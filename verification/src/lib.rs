pub mod constants;
pub mod digest;
pub mod global_data;
pub mod loader;
pub mod process_info;
pub mod quota;
pub mod registry;
pub mod scheduler;
pub mod simulator_context;
pub mod spawn;
pub mod streams;
pub mod transaction;
pub mod utils;
pub mod vm_info;
