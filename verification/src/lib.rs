//! A dynamic action-binding engine for interactive applications.
//!
//! Raw input events (keys, buttons, pointer motion) are decoupled from the
//! semantic "actions" an application observes (such as "jump" or "move"), so
//! that device bindings can be reconfigured without touching application
//! logic. A [`Session`] registers the actions; a [`Seat`] stores each
//! action's latest value and a queue of unconsumed values; [`Bindings`]
//! routes inputs to actions with all type checks done once, at bind time;
//! filters derive virtual actions from others and are recomputed through a
//! dependency walk on every change.

pub mod bindings;
pub mod config;
pub mod factory;
pub mod graph;
pub mod input;
pub mod laws;
pub mod seat;
pub mod session;
pub mod types;

pub use bindings::Bindings;
pub use config::Config;
pub use config::SourceConfig;
pub use factory::BindingsFactory;
pub use factory::LoadError;
pub use factory::SourceSpec;
pub use factory::VocabEntry;
pub use graph::DPad;
pub use graph::Filter;
pub use graph::FilterConfig;
pub use graph::FilterLoadError;
pub use input::Input;
pub use seat::CellModel;
pub use seat::Seat;
pub use session::has_type;
pub use session::Session;

pub use types::Action;
pub use types::ActionId;
pub use types::DuplicateAction;
pub use types::TypeError;
pub use types::TypeTag;
pub use types::Value;
pub use types::Vec2;
