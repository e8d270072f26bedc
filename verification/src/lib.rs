//! The core of a parking lot: queues of sleeping threads, each waiting on a key, the operations
//! that put threads into the queues and take them out again, and the search for deadlocked threads
//! among them.

pub mod answer;
pub mod asking;
pub mod bucket;
pub mod circuit;
pub mod cycle;
pub mod deadlock;
pub mod dfs;
pub mod park;
pub mod records;
pub mod ring;
mod search;
pub mod thread_data;
pub mod thread_list;
pub mod tokens;
pub mod unpark_all;
pub mod unpark_filter;
pub mod wait_edges;
pub mod wait_graph;
pub mod waiters;
pub mod waiting;
pub mod with_thread_data;
