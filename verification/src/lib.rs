//! A command-template engine: templates contain literal text and `{{name}}`
//! placeholders. The library tokenizes raw template text into segments,
//! derives the ordered variable list, renders a final string from a
//! name-to-value mapping, and reconciles per-variable metadata when a
//! template is edited.

pub mod gadget;
pub mod reconcile;
pub mod template;
pub mod variable;

pub use gadget::Gadget;
pub use gadget::GadgetAddError;
pub use gadget::GadgetStore;
pub use reconcile::sync_variables;
pub use reconcile::update_variable_name_in_place;
pub use template::Command;
pub use template::CommandPart;
pub use template::extract_variables_from_command;
pub use variable::GadgetVariable;
