//! Atom records and the molecule aggregate.

use vstd::prelude::*;
use crate::geom::{point_in_range, Point3};
use crate::elements::ELEMENT_COUNT;
use crate::bonds::{bond_pairs, infer_bonds, lemma_bond_pairs_sound_complete};
use crate::parse::{parse_xyz, parse_xyz_spec, ParseError};

verus! {

/// One parsed atom: an element id indexing the fixed element table, and a
/// position in fixed-point steps.
#[derive(Clone, Copy, PartialEq, Eq, Structural, Debug)]
pub struct Atom {
    pub element_id: u8,
    pub pos: Point3,
}

/// A well-formed atom: its element id indexes the table and its position
/// lies in the representable band.
pub open spec fn atom_wf(a: Atom) -> bool {
    a.element_id < ELEMENT_COUNT && point_in_range(a.pos)
}

/// A loaded structure: the atom records in file order and the inferred
/// bonds, each an ascending pair of atom indices.
pub struct Molecule {
    pub atoms: Vec<Atom>,
    pub bonds: Vec<(usize, usize)>,
}

impl Molecule {
    /// Well-formedness: every atom is well formed and every bond joins
    /// two distinct atoms by ascending in-range indices.
    pub open spec fn wf(self) -> bool {
        (forall|k: int| 0 <= k < self.atoms@.len() ==> atom_wf(#[trigger] self.atoms@[k])) && (
        forall|k: int|
            0 <= k < self.bonds@.len() ==> ((#[trigger] self.bonds@[k]).0 as int) < (
            self.bonds@[k].1 as int) < self.atoms@.len())
    }
}

/// Load a molecule from coordinate-file contents: the parsed atoms in
/// file order together with their inferred bond list, or the file's
/// first error. The result is complete or absent, never partial.
pub fn load_xyz(content: &[u8]) -> (r: Result<Molecule, ParseError>)
    ensures
        r matches Ok(m) ==> parse_xyz_spec(content@) == Ok::<Seq<Atom>, ParseError>(m.atoms@)
            && m.bonds@ == bond_pairs(m.atoms@) && m.wf(),
        r matches Err(e) ==> parse_xyz_spec(content@) == Err::<Seq<Atom>, ParseError>(e),
{
    let atoms = match parse_xyz(content) {
        Err(e) => {
            return Err(e);
        },
        Ok(atoms) => atoms,
    };
    // the concrete length bounds the atom count for the bond lemma
    let n = atoms.len();
    let bonds = infer_bonds(&atoms);
    proof {
        assert(atoms@.len() == n as int);
        lemma_bond_pairs_sound_complete(atoms@);
    }
    Ok(Molecule { atoms, bonds })
}

} // verus!
