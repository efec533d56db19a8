//! Verified decision logic of a distributed elevator controller: call
//! buttons and sensors, order bookkeeping and assignment, cluster
//! membership and liveness, the reliable-delivery bookkeeping of the
//! network layer, watchdog and restart timers, and the motor state
//! machine. The I/O around these pieces lives in the application.

pub mod elevio;
pub mod types;
pub mod order;
pub mod order_list;
pub mod assignment;
pub mod membership;
pub mod msg;
pub mod manager;
pub mod address;
pub mod motor;
pub mod single_elevator;
pub mod utils;
pub mod peers;
pub mod pending;
pub mod network;
pub mod liveness;
pub mod watchdog;
pub mod poll;
pub mod process;
pub mod process_pair;
pub mod restart;
