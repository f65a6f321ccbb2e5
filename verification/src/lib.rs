//! A reconciliation engine that replays a retained-mode UI's mutation stream
//! onto an entity-based scene graph.
//!
//! An external UI engine diffs its virtual tree and emits an ordered stream
//! of structural mutations (create a node, parent the last few created nodes,
//! replace a node, set an attribute, ...).  This crate interprets that stream:
//! it keeps the per-root mapping from opaque UI node ids to scene entities,
//! maintains the construction stack the stream's pop-style operations work
//! against, looks element kinds and event kinds up in registries populated at
//! startup, and turns every mutation into one deferred command.  Commands are
//! queued during interpretation and executed later, at a safe point of the
//! host's tick, against a scene-graph model whose structural invariants are
//! verified.  Kind-specific behaviour (constructors, initializers, attribute
//! mutators, event installers) stays host-side; executing a command reports
//! which of them must run, in order, as effect descriptions.

pub mod attribute;
pub mod commands;
pub mod error;
pub mod registry;
pub mod renderers;
pub mod root;
pub mod scene;
pub mod template;

pub use attribute::attr;
pub use attribute::convert_attribute;
pub use attribute::AttributeKind;
pub use attribute::AttributeValue;
pub use commands::Command;
pub use commands::DioxusCommands;
pub use commands::Effect;
pub use commands::EventChannels;
pub use error::CoreError;
pub use registry::find_mutator;
pub use registry::ComponentBuilder;
pub use registry::DioxusBuilders;
pub use registry::EventHandlerInstaller;
pub use registry::EventInstallers;
pub use registry::MutatorEntry;
pub use renderers::WorldRenderer;
pub use root::DioxusRoot;
pub use scene::SceneGraph;
pub use template::Template;
pub use template::TemplateAttribute;
pub use template::TemplateNode;
