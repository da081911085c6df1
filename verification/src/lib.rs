pub mod text;
pub mod app;
pub mod ui;
pub mod order;
pub mod paths;
pub mod providers;
pub mod server;
pub mod system;
pub mod domain;
pub mod drm;
pub mod config;
pub mod cpu;
pub mod discovery;
pub mod discovery_llm;
pub mod gpu;
pub mod gpu_map;
pub mod llama;
pub mod cpu_sensors;
pub mod diagnostics;
pub mod ui_state;
