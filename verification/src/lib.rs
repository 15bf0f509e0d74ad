//! A reader for graphs in the DIMACS edge format.
//!
//! An input is a sequence of lines. Lines of at most one byte and lines
//! that start with `c` carry no data. The first line that carries data is
//! the header, `p edge <nodes> <edges>`; each later one is an edge,
//! `e <n1> <n2>`. [`read_graph`] turns such an input into an undirected
//! graph in adjacency form, or says why the input is rejected.
//!
//! What the reader returns is defined by [`reader::read_outcome`], a
//! function from the bytes of the input to the graph that they describe;
//! [`laws`] holds what is proved of every reading.

pub mod error;
pub mod graph;
pub mod laws;
pub mod lines;
pub mod number;
pub mod reader;
pub mod record;
pub mod text;

pub use error::ReadError;
pub use graph::Graph;
pub use reader::read_graph;
pub use record::Header;
