//! Boolean expressions: variables, packed node identifiers, truth tables,
//! and the small algebra built on top of them.
pub mod bits;
pub mod vid;
pub mod text;
pub mod comb;
pub mod nid;
pub mod nidtext;
pub mod nidfun;
pub mod simp;
pub mod ops;
pub mod bdd;
pub mod reg;
pub mod vhl;
pub mod apl;
pub mod tags;
pub mod bdd32;
pub mod tbl;
pub mod notation;
pub mod base;
pub mod ast;
pub mod sql;
pub mod pack;
pub mod opbase;
pub mod xint;
pub mod cur;
pub mod swap;
pub mod snap;
pub mod swarm;
pub mod anf;
pub mod anf_swarm;
pub mod naf;
pub mod solve;
pub mod ffi;
