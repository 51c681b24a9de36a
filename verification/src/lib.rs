pub mod cli;
pub mod config;
pub mod cpufreq;
pub mod freq;
pub mod game;
pub mod knob;
pub mod path_order;
pub mod proc;
pub mod scx;
pub mod state;
pub mod text;
pub mod turbo;
pub mod ui;
pub mod watcher;
