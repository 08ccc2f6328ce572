//! EM / IR-drop power-integrity sign-off: the verified front end.
//!
//! The power delivery network (PDN) is a resistive mesh of supply straps and vias.
//! This library holds the parts of the engine that are about structure rather than
//! arithmetic: the text formats (`.pdn`, `.emir` jobs, DEF special nets, placements,
//! pins and via definitions, tech and cell LEF),
//! the extraction of the grid topology from DEF geometry, the enumeration of the
//! solver's free nodes, and the command line. Numeric values are carried as the
//! exact number tokens of the input; their arithmetic lives with the solver.

pub mod cli;
pub mod def;
pub mod emir;
pub mod emsignoff;
pub mod extract;
pub mod job;
pub mod lef;
pub mod num;
pub mod pdn;
pub mod sections;
pub mod text;
