//! Shell discovery, pane environments and panel logic of the nermal terminal workbench.

pub mod calendar;
pub mod cli_install;
pub mod cli_place;
pub mod discord_presence;
pub mod environment;
pub mod floating_terminal;
pub mod git_heatmap;
pub mod git_heatmap_laws;
pub mod gpu_usage;
pub mod numbers;
pub mod offsets;
pub mod paths;
pub mod paths_laws;
pub mod registry;
pub mod search_panel;
pub mod search_path;
pub mod search_state;
pub mod shell_menu;
pub mod shell_menu_laws;
pub mod shells;
pub mod shells_laws;
pub mod shells_windows;
pub mod shells_windows_laws;
pub mod spawn;
pub mod text;
pub mod text_laws;
pub mod update_guard;
pub mod user_path;
pub mod utf16;
pub mod windows_env;
pub mod windows_env_laws;
pub mod windows_env_values;
pub mod winproc;
