//! Renders an indentation-structured call-graph text as an ASCII-art
//! UML-style sequence diagram on a fixed character grid.

pub mod callgraph;
pub mod canvas;
pub mod painter;
mod text;

pub use callgraph::CallGraph;
pub use callgraph::ComponentFunctions;
pub use callgraph::FunctionCall;
pub use canvas::Canvas;
pub use canvas::Line;
pub use canvas::Rectangle;
pub use painter::Painter;
