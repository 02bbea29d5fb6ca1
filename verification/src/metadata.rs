//! What the entry of a structure says about it besides its atoms: its title,
//! the authors of its primary citation and the organisms it stems from.

use vstd::prelude::*;

verus! {

/// How an entry names its structure.
#[derive(Clone, Debug)]
pub struct PDBStruct {
    pub title: String,
    pub pdbx_descriptor: Option<String>,
    pub entry_id: Option<String>,
}

/// The primary citation of an entry.
#[derive(Clone, Debug)]
pub struct Citation {
    pub authors: Vec<String>,
}

/// An organism that a structure stems from.
#[derive(Clone, Debug)]
pub struct SourceOrganism {
    pub gene_name: Option<Vec<GeneName>>,
    pub scientific_name: Option<String>,
}

/// The name of a gene.
#[derive(Clone, Debug)]
pub struct GeneName {
    pub value: String,
}

} // verus!
