//! Detection of unused i18n translation keys.
//!
//! The library holds the decision logic of the tool: how locale catalogs
//! are read and flattened into keys and namespaces, how the events met in a
//! source file (calls, JSX elements, bindings, callbacks) become key usages,
//! which locale keys those usages protect, and how unused keys are pruned
//! from a locale document.  Turning a JavaScript syntax tree into those
//! events is left to the program around the library, since it implements
//! the parser's visitor trait.
pub mod cli;
pub mod engine;
pub mod settings;
