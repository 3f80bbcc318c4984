//! The project graph of a monorepo, and the projects that a change affects.
//!
//! Readers of configuration formats contribute projects and edges
//! ([`reader`], [`readers`]); [`builder`] assembles them into a
//! [`ProjectGraph`] in two passes. The graph maps changed files to projects
//! ([`changed`]), finds what depends on them ([`graph`]) and which projects
//! depend on each other in a circle ([`cycles`]), and can be handed on
//! ([`wire`]). [`affected`] and [`run`] are the command that lists the affected
//! projects.
//!
//! The contracts speak of models: [`graph::GraphModel`] for graphs,
//! [`run::RunModel`] for a run of the command. [`laws`], [`build_laws`] and
//! the functions named `law_*` elsewhere state what follows from the
//! contracts. [`digraph`] and [`globs`] hold what is taken on trust of
//! `petgraph` and `globset`.
pub mod affected;
pub mod build_laws;
pub mod builder;
pub mod changed;
pub mod cycles;
pub mod digraph;
pub mod globs;
pub mod graph;
pub mod laws;
pub mod lists;
pub mod messages;
pub mod ordered;
pub mod path;
pub mod project;
pub mod reach;
pub mod reader;
pub mod readers;
pub mod run;
pub mod source;
pub mod text;
pub mod wire;

pub use builder::build_project_graph;
pub use builder::default_readers;
pub use graph::ProjectGraph;
pub use project::project_id_from_path;
pub use project::Project;
pub use project::ProjectId;
pub use reader::ContributedEdge;
pub use reader::ContributedProject;
pub use reader::MonorepoConfigReader;
pub use source::NameCollision;
pub use source::ProjectSource;
pub use wire::WireProjectGraph;
pub use wire::WIRE_SCHEMA_EXPERIMENTAL;
