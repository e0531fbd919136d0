//! What the database promises, told by what goes in and what comes out.
//!
//! The laws here speak of the fields of nodes, of the data in them and of the
//! records of the log, rather than of how the parts of the engine name these.

pub mod declared;
pub mod deleting;
pub mod feed;
pub mod queries;
pub mod reads;
pub mod references;
pub mod transactions;
pub mod values;
pub mod writes;
