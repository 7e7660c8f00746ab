use vstd::prelude::*;

pub mod cli;
pub mod engine;
pub mod geom;
pub mod output;
pub mod par;
pub mod pdfobj;
pub mod pick;
pub mod svgio;
pub mod text;

verus! {
}
