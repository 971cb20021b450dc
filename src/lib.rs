//! Colorscheme compilation and template rendering.
//!
//! Colorschemes are named sets of colors that may inherit from and rename
//! the colors of other colorschemes. They are resolved in dependency order,
//! flattened, and then substituted into template text.
mod assoc;
pub mod config;
pub mod definition;
pub mod error;
pub mod name;
pub mod render;
pub mod resolve;
pub mod scheme;

pub use assoc::assoc;
pub use config::{Config, ConfigInput, ConfigIntermediate, Template, TemplateInput, TemplateIntermediate};
pub use definition::{ColorschemeInput, ColorschemeIntermediate, ColorschemeValue, SettingsInput, SettingsIntermediate};
pub use error::ConfigError;
pub use render::render_text;
pub use resolve::compilation_strategy;
pub use scheme::{Color, Colorscheme};
