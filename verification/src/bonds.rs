//! The bond inference engine: an exhaustive pairwise scan emitting every
//! pair of atoms whose Euclidean distance lies strictly below a single
//! global threshold, in ascending pair order.

use vstd::prelude::*;
use crate::molecule::{atom_wf, Atom};

verus! {

/// The squared bonding threshold in squared fixed-point steps: three
/// file-native units, squared.
pub const BOND_THRESHOLD_SQ: i64 = 9_000_000_000_000;

pub open spec fn sq(v: int) -> int {
    v * v
}

/// Two atoms bond exactly when their squared distance is strictly below
/// the squared threshold; comparing squares is exact, so this matches a
/// strict comparison of the distance against three units.
pub open spec fn close_atoms(a: Atom, b: Atom) -> bool {
    sq(a.pos.x - b.pos.x) + sq(a.pos.y - b.pos.y) + sq(a.pos.z - b.pos.z) < BOND_THRESHOLD_SQ as int
}

/// The bonds of atom `i` against every later atom from `j` up, in
/// ascending order.
pub open spec fn bond_row(atoms: Seq<Atom>, i: int, j: int) -> Seq<(usize, usize)>
    decreases atoms.len() - j,
{
    if j < 0 || j >= atoms.len() {
        Seq::empty()
    } else {
        let rest = bond_row(atoms, i, j + 1);
        if close_atoms(atoms[i], atoms[j]) {
            seq![(i as usize, j as usize)] + rest
        } else {
            rest
        }
    }
}

/// All bonds among pairs whose lower index is `i` or more, visited with
/// ascending lower index, then ascending higher index.
pub open spec fn bond_pairs_from(atoms: Seq<Atom>, i: int) -> Seq<(usize, usize)>
    decreases atoms.len() - i,
{
    if i < 0 || i >= atoms.len() {
        Seq::empty()
    } else {
        bond_row(atoms, i, i + 1) + bond_pairs_from(atoms, i + 1)
    }
}

/// The full ordered bond list of an atom sequence.
pub open spec fn bond_pairs(atoms: Seq<Atom>) -> Seq<(usize, usize)> {
    bond_pairs_from(atoms, 0)
}

/// Whether two atoms lie strictly within the bonding threshold.
fn atoms_close(a: &Atom, b: &Atom) -> (r: bool)
    requires
        atom_wf(*a),
        atom_wf(*b),
    ensures
        r == close_atoms(*a, *b),
{
    let dx = (a.pos.x as i128) - (b.pos.x as i128);
    let dy = (a.pos.y as i128) - (b.pos.y as i128);
    let dz = (a.pos.z as i128) - (b.pos.z as i128);
    proof {
        assert(0 <= dx * dx <= 4_000_000_000_000_000_000_000_000 && dx * dx == sq(
            a.pos.x - b.pos.x,
        )) by (nonlinear_arith)
            requires
                -2_000_000_000_000 <= dx <= 2_000_000_000_000,
                dx == a.pos.x - b.pos.x,
        ;
        assert(0 <= dy * dy <= 4_000_000_000_000_000_000_000_000 && dy * dy == sq(
            a.pos.y - b.pos.y,
        )) by (nonlinear_arith)
            requires
                -2_000_000_000_000 <= dy <= 2_000_000_000_000,
                dy == a.pos.y - b.pos.y,
        ;
        assert(0 <= dz * dz <= 4_000_000_000_000_000_000_000_000 && dz * dz == sq(
            a.pos.z - b.pos.z,
        )) by (nonlinear_arith)
            requires
                -2_000_000_000_000 <= dz <= 2_000_000_000_000,
                dz == a.pos.z - b.pos.z,
        ;
    }
    let d2 = dx * dx + dy * dy + dz * dz;
    d2 < 9_000_000_000_000i128
}

/// Infer the bond list of an atom sequence: the exhaustive pairwise scan
/// with ascending `i`, then ascending `j`.
#[verifier::loop_isolation(false)]
pub fn infer_bonds(atoms: &Vec<Atom>) -> (bonds: Vec<(usize, usize)>)
    requires
        forall|k: int| 0 <= k < atoms@.len() ==> atom_wf(#[trigger] atoms@[k]),
    ensures
        bonds@ == bond_pairs(atoms@),
{
    let n = atoms.len();
    let mut bonds: Vec<(usize, usize)> = Vec::new();
    let mut i: usize = 0;
    while i < n
        invariant
            0 <= i <= n,
            bonds@ + bond_pairs_from(atoms@, i as int) == bond_pairs(atoms@),
        decreases n - i,
    {
        let mut j = i + 1;
        while j < n
            invariant
                i < j <= n,
                bonds@ + (bond_row(atoms@, i as int, j as int) + bond_pairs_from(
                    atoms@,
                    i as int + 1,
                )) == bond_pairs(atoms@),
            decreases n - j,
        {
            let ghost old_bonds = bonds@;
            let ghost row = bond_row(atoms@, i as int, j as int);
            let ghost rest = bond_pairs_from(atoms@, i as int + 1);
            if atoms_close(&atoms[i], &atoms[j]) {
                bonds.push((i, j));
                proof {
                    assert(row == seq![(i, j)] + bond_row(atoms@, i as int, j as int + 1));
                    assert(old_bonds + (row + rest) =~= bonds@ + (bond_row(
                        atoms@,
                        i as int,
                        j as int + 1,
                    ) + rest));
                }
            } else {
                proof {
                    assert(row == bond_row(atoms@, i as int, j as int + 1));
                }
            }
            j += 1;
        }
        proof {
            assert(bond_row(atoms@, i as int, n as int) =~= Seq::<(usize, usize)>::empty());
            assert(bonds@ + (Seq::<(usize, usize)>::empty() + bond_pairs_from(
                atoms@,
                i as int + 1,
            )) =~= bonds@ + bond_pairs_from(atoms@, i as int + 1));
        }
        i += 1;
    }
    proof {
        assert(bond_pairs_from(atoms@, n as int) =~= Seq::<(usize, usize)>::empty());
        assert(bonds@ + Seq::<(usize, usize)>::empty() =~= bonds@);
    }
    bonds
}

/// Every entry of a bond row is a bond of atom `i` with a later atom at
/// or past `j`; every such bond is in the row; and the row ascends.
proof fn lemma_bond_row_props(atoms: Seq<Atom>, i: int, j: int)
    requires
        atoms.len() <= usize::MAX,
        0 <= i < atoms.len(),
        i < j,
    ensures
        forall|k: int| 0 <= k < bond_row(atoms, i, j).len() ==> (#[trigger] bond_row(
            atoms,
            i,
            j,
        )[k]).0 == i as usize && j <= (bond_row(atoms, i, j)[k].1 as int) < atoms.len()
            && close_atoms(atoms[i], atoms[bond_row(atoms, i, j)[k].1 as int]),
        forall|m: int| j <= m < atoms.len() && close_atoms(atoms[i], atoms[m]) ==> bond_row(
            atoms,
            i,
            j,
        ).contains((i as usize, m as usize)),
        forall|k1: int, k2: int| 0 <= k1 < k2 < bond_row(atoms, i, j).len() ==> (
        #[trigger] bond_row(atoms, i, j)[k1]).1 < (#[trigger] bond_row(atoms, i, j)[k2]).1,
    decreases atoms.len() - j,
{
    if j >= atoms.len() {
    } else {
        lemma_bond_row_props(atoms, i, j + 1);
        let row = bond_row(atoms, i, j);
        let rest = bond_row(atoms, i, j + 1);
        if close_atoms(atoms[i], atoms[j]) {
            assert(row == seq![(i as usize, j as usize)] + rest);
            assert forall|m: int| j <= m < atoms.len() && close_atoms(atoms[i], atoms[m])
                implies row.contains((i as usize, m as usize)) by {
                if m == j {
                    assert(row[0] == (i as usize, m as usize));
                } else {
                    let k = choose|k: int|
                        0 <= k < rest.len() && rest[k] == (i as usize, m as usize);
                    assert(row[k + 1] == rest[k]);
                }
            }
        } else {
            assert(row == rest);
            assert forall|m: int| j <= m < atoms.len() && close_atoms(atoms[i], atoms[m])
                implies row.contains((i as usize, m as usize)) by {
                assert(m != j);
            }
        }
    }
}

/// Every entry of the tail scan from `i` is a valid ascending bond, every
/// bond among atoms at or past `i` appears, and the list is strictly
/// ordered by lower index, then higher index.
proof fn lemma_bond_pairs_from_props(atoms: Seq<Atom>, i: int)
    requires
        atoms.len() <= usize::MAX,
        0 <= i,
    ensures
        forall|k: int| 0 <= k < bond_pairs_from(atoms, i).len() ==> i <= ((
        #[trigger] bond_pairs_from(atoms, i)[k]).0 as int) && (bond_pairs_from(atoms, i)[k].0
            as int) < (bond_pairs_from(atoms, i)[k].1 as int) < atoms.len() && close_atoms(
            atoms[bond_pairs_from(atoms, i)[k].0 as int],
            atoms[bond_pairs_from(atoms, i)[k].1 as int],
        ),
        forall|a: int, b: int| i <= a < b < atoms.len() && close_atoms(atoms[a], atoms[b])
            ==> bond_pairs_from(atoms, i).contains((a as usize, b as usize)),
        forall|k1: int, k2: int| 0 <= k1 < k2 < bond_pairs_from(atoms, i).len() ==> ((
        #[trigger] bond_pairs_from(atoms, i)[k1]).0 < (#[trigger] bond_pairs_from(
            atoms,
            i,
        )[k2]).0 || (bond_pairs_from(atoms, i)[k1].0 == bond_pairs_from(atoms, i)[k2].0
            && bond_pairs_from(atoms, i)[k1].1 < bond_pairs_from(atoms, i)[k2].1)),
    decreases atoms.len() - i,
{
    if i >= atoms.len() {
    } else {
        lemma_bond_row_props(atoms, i, i + 1);
        lemma_bond_pairs_from_props(atoms, i + 1);
        let row = bond_row(atoms, i, i + 1);
        let rest = bond_pairs_from(atoms, i + 1);
        let pf = bond_pairs_from(atoms, i);
        assert(pf == row + rest);
        assert forall|a: int, b: int|
            i <= a < b < atoms.len() && close_atoms(atoms[a], atoms[b]) implies pf.contains(
            (a as usize, b as usize),
        ) by {
            if a == i {
                let k = choose|k: int| 0 <= k < row.len() && row[k] == (a as usize, b as usize);
                assert(pf[k] == row[k]);
            } else {
                let k = choose|k: int|
                    0 <= k < rest.len() && rest[k] == (a as usize, b as usize);
                assert(pf[row.len() + k] == rest[k]);
            }
        }
        assert forall|k1: int, k2: int| 0 <= k1 < k2 < pf.len() implies ((#[trigger] pf[k1]).0
            < (#[trigger] pf[k2]).0 || (pf[k1].0 == pf[k2].0 && pf[k1].1 < pf[k2].1)) by {
            if k1 < row.len() && k2 < row.len() {
                assert(pf[k1] == row[k1] && pf[k2] == row[k2]);
            } else if k1 < row.len() {
                assert(pf[k1] == row[k1] && pf[k2] == rest[k2 - row.len()]);
            } else {
                assert(pf[k1] == rest[k1 - row.len()] && pf[k2] == rest[k2 - row.len()]);
            }
        }
    }
}

/// The inferred bond list is sound and complete: every listed pair is an
/// ascending in-range pair strictly within the threshold, every pair
/// strictly within the threshold is listed, no pair at or past the
/// threshold is listed, and the list strictly ascends (so it holds no
/// duplicate and no self-pair).
pub proof fn lemma_bond_pairs_sound_complete(atoms: Seq<Atom>)
    requires
        atoms.len() <= usize::MAX,
    ensures
        forall|k: int| 0 <= k < bond_pairs(atoms).len() ==> 0 <= ((#[trigger] bond_pairs(
            atoms,
        )[k]).0 as int) && (bond_pairs(atoms)[k].0 as int) < (bond_pairs(atoms)[k].1 as int)
            < atoms.len() && close_atoms(
            atoms[bond_pairs(atoms)[k].0 as int],
            atoms[bond_pairs(atoms)[k].1 as int],
        ),
        forall|a: int, b: int| 0 <= a < b < atoms.len() && close_atoms(atoms[a], atoms[b])
            ==> bond_pairs(atoms).contains((a as usize, b as usize)),
        forall|a: int, b: int| 0 <= a < b < atoms.len() && !close_atoms(atoms[a], atoms[b])
            ==> !bond_pairs(atoms).contains((a as usize, b as usize)),
        forall|k1: int, k2: int| 0 <= k1 < k2 < bond_pairs(atoms).len() ==> ((
        #[trigger] bond_pairs(atoms)[k1]).0 < (#[trigger] bond_pairs(atoms)[k2]).0 || (
        bond_pairs(atoms)[k1].0 == bond_pairs(atoms)[k2].0 && bond_pairs(atoms)[k1].1
            < bond_pairs(atoms)[k2].1)),
{
    lemma_bond_pairs_from_props(atoms, 0);
    assert forall|a: int, b: int|
        0 <= a < b < atoms.len() && !close_atoms(atoms[a], atoms[b]) implies !bond_pairs(
        atoms,
    ).contains((a as usize, b as usize)) by {
        if bond_pairs(atoms).contains((a as usize, b as usize)) {
            let k = choose|k: int|
                0 <= k < bond_pairs(atoms).len() && bond_pairs(atoms)[k] == (
                a as usize,
                b as usize,
                );
            assert(close_atoms(
                atoms[bond_pairs(atoms)[k].0 as int],
                atoms[bond_pairs(atoms)[k].1 as int],
            ));
        }
    }
}

/// Bond inference is deterministic: the bond list is a function of the
/// atom sequence alone, so two runs over the same atoms agree entry for
/// entry.
pub proof fn lemma_bond_inference_deterministic(
    atoms: Seq<Atom>,
    bonds1: Seq<(usize, usize)>,
    bonds2: Seq<(usize, usize)>,
)
    requires
        bonds1 == bond_pairs(atoms),
        bonds2 == bond_pairs(atoms),
    ensures
        bonds1 == bonds2,
{
}

} // verus!
