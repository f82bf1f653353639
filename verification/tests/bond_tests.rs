use molview::bonds::infer_bonds;
use molview::elements::{element_color, element_radius, symbol_index};
use molview::geom::Point3;
use molview::molecule::{load_xyz, Atom};

fn atom(element_id: u8, x: i64, y: i64, z: i64) -> Atom {
    Atom { element_id, pos: Point3 { x, y, z } }
}

#[test]
fn close_pair_yields_one_bond() {
    let atoms = vec![atom(8, 0, 0, 0), atom(1, 1_500_000, 0, 0)];
    assert_eq!(infer_bonds(&atoms), vec![(0, 1)]);
}

#[test]
fn far_pair_yields_no_bond() {
    let atoms = vec![atom(8, 0, 0, 0), atom(1, 5_000_000, 0, 0)];
    assert_eq!(infer_bonds(&atoms), Vec::<(usize, usize)>::new());
}

#[test]
fn threshold_is_strict() {
    // exactly three units apart: no bond
    let at = vec![atom(6, 0, 0, 0), atom(6, 3_000_000, 0, 0)];
    assert_eq!(infer_bonds(&at).len(), 0);
    // just inside three units: bonded
    let close = vec![atom(6, 0, 0, 0), atom(6, 2_999_999, 0, 0)];
    assert_eq!(infer_bonds(&close), vec![(0, 1)]);
}

#[test]
fn bond_inference_is_deterministic() {
    let atoms = vec![
        atom(6, 0, 0, 0),
        atom(8, 1_210_000, 0, 0),
        atom(1, -1_000_000, 500_000, 0),
        atom(1, 10_000_000, 0, 0),
    ];
    let first = infer_bonds(&atoms);
    let second = infer_bonds(&atoms);
    assert_eq!(first, second);
}

#[test]
fn every_pair_is_emitted_exactly_when_close() {
    let atoms = vec![
        atom(6, 0, 0, 0),
        atom(8, 1_210_000, 0, 0),
        atom(1, -2_000_000, 2_000_000, 0),
        atom(1, 10_000_000, 0, 0),
        atom(7, 9_000_000, 0, 0),
    ];
    let bonds = infer_bonds(&atoms);
    for i in 0..atoms.len() {
        for j in (i + 1)..atoms.len() {
            let dx = (atoms[i].pos.x - atoms[j].pos.x) as i128;
            let dy = (atoms[i].pos.y - atoms[j].pos.y) as i128;
            let dz = (atoms[i].pos.z - atoms[j].pos.z) as i128;
            let within = dx * dx + dy * dy + dz * dz < 9_000_000_000_000;
            let emitted = bonds.contains(&(i, j));
            assert_eq!(emitted, within);
        }
    }
    // every emitted pair ascends and no pair repeats
    for (k, b) in bonds.iter().enumerate() {
        assert!(b.0 < b.1 && b.1 < atoms.len());
        for later in &bonds[k + 1..] {
            assert!(b != later);
        }
    }
}

#[test]
fn bonds_come_in_scan_order() {
    let atoms = vec![
        atom(6, 0, 0, 0),
        atom(6, 1_000_000, 0, 0),
        atom(6, 2_000_000, 0, 0),
    ];
    assert_eq!(infer_bonds(&atoms), vec![(0, 1), (0, 2), (1, 2)]);
}

#[test]
fn load_builds_atoms_and_bonds_together() {
    let mol = load_xyz("O 0 0 0\nH 0 0 0.96\nH 5 5 5".as_bytes()).unwrap();
    assert_eq!(mol.atoms.len(), 3);
    assert_eq!(mol.bonds, vec![(0, 1)]);
    for b in &mol.bonds {
        assert!(b.0 < b.1 && b.1 < mol.atoms.len());
    }
}

#[test]
fn load_rejects_faulty_file_whole() {
    assert!(load_xyz("O 0 0 0\nH zero 0 0".as_bytes()).is_err());
}

#[test]
fn element_table_lookup() {
    let syms = ["X", "H", "He", "Li", "Be", "B", "C", "N", "O", "F", "Ne", "Na", "Mg"];
    for (i, s) in syms.iter().enumerate() {
        assert_eq!(symbol_index(s.as_bytes()), Some(i as u8));
    }
    assert_eq!(symbol_index(b"Zz"), None);
    assert_eq!(symbol_index(b"h"), None);
    assert_eq!(symbol_index(b""), None);
}

#[test]
fn element_display_data() {
    assert_eq!(element_color(1), 0xFFFFFFFF); // hydrogen: white
    assert_eq!(element_color(7), 0x0079F1FF); // nitrogen: blue
    assert_eq!(element_color(8), 0xE62937FF); // oxygen: red
    assert_eq!(element_color(6), 0x000000FF); // carbon: black
    for id in 0..13u8 {
        assert_eq!(element_radius(id), 1_000_000);
    }
}
