//! solver_core: verified scoring, quality reporting, ordering and
//! local-search logic of a school timetabling solver.

#![allow(unused_imports)]

pub mod types;
pub mod positions;
pub mod score;
pub mod lookup;
pub mod arith;
pub mod partition;
pub mod quality;
pub mod index;
pub mod ordering;
pub mod progress;
pub mod error;
pub mod lahc;
pub mod kempe;
pub mod vecmap;
pub mod state;
pub mod repair;
pub mod change;
pub mod block;
pub mod swap;
pub mod rollback;
pub mod laws;
pub mod search;
pub mod scorable;
pub mod kempe_move;
