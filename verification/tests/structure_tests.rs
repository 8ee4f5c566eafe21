use molterm::structure::{
    classify_record, infer_connections, is_backbone_name, Atom, Model, RecordKind,
};

fn atom(chain_id: char, res_seq: i32, name: &str) -> Atom {
    Atom {
        serial: 1,
        name: String::from(name),
        res_name: String::from("ALA"),
        chain_id,
        res_seq,
    }
}

#[test]
fn sequential_residues_same_chain_bond() {
    let atoms = vec![atom('A', 1, "N"), atom('A', 2, "N")];
    assert_eq!(infer_connections(&atoms), vec![true]);
}

#[test]
fn same_residue_same_chain_bond() {
    let atoms = vec![atom('A', 7, "N"), atom('A', 7, "CA")];
    assert_eq!(infer_connections(&atoms), vec![true]);
}

#[test]
fn chain_mismatch_no_bond() {
    let atoms = vec![atom('A', 1, "C"), atom('B', 2, "N")];
    assert_eq!(infer_connections(&atoms), vec![false]);
}

#[test]
fn residue_gap_no_bond() {
    let atoms = vec![atom('A', 1, "C"), atom('A', 3, "N")];
    assert_eq!(infer_connections(&atoms), vec![false]);
}

#[test]
fn decreasing_residue_no_bond() {
    let atoms = vec![atom('A', 2, "C"), atom('A', 1, "N")];
    assert_eq!(infer_connections(&atoms), vec![false]);
}

#[test]
fn connection_count_is_one_less_than_atoms() {
    let atoms = vec![
        atom('A', 1, "N"),
        atom('A', 1, "CA"),
        atom('A', 1, "C"),
        atom('A', 2, "N"),
    ];
    let conns = infer_connections(&atoms);
    assert_eq!(conns.len(), 3);
    assert_eq!(conns, vec![true, true, true]);
}

#[test]
fn no_atoms_no_connections() {
    let atoms: Vec<Atom> = Vec::new();
    assert_eq!(infer_connections(&atoms).len(), 0);
    let single = vec![atom('A', 1, "N")];
    assert_eq!(infer_connections(&single).len(), 0);
}

#[test]
fn model_from_atoms_infers_bonds() {
    // A minimal two-atom chain with sequential residues bonds as [true].
    let m = Model::from_atoms(vec![atom('A', 1, "CA"), atom('A', 2, "CA")]);
    assert_eq!(m.connections, vec![true]);
    assert_eq!(m.atoms.len(), 2);
    let m2 = Model::from_atoms(vec![atom('A', 1, "CA"), atom('A', 2, "CA")]);
    assert_eq!(m2.connections, vec![true]);
}

#[test]
fn model_new_is_empty() {
    let m = Model::new();
    assert_eq!(m.atoms.len(), 0);
    assert_eq!(m.connections.len(), 0);
}

#[test]
fn record_lines_classified() {
    assert_eq!(classify_record(b"MODEL     1".as_slice()), RecordKind::ModelBoundary);
    assert_eq!(classify_record(b"ENDMDL".as_slice()), RecordKind::ModelBoundary);
    assert_eq!(
        classify_record(b"ATOM      1  N   ALA A   1".as_slice()),
        RecordKind::AtomRecord
    );
    assert_eq!(classify_record(b"HETATM    9  P".as_slice()), RecordKind::AtomRecord);
    assert_eq!(classify_record(b"REMARK something".as_slice()), RecordKind::Other);
    assert_eq!(classify_record(b"".as_slice()), RecordKind::Other);
    assert_eq!(classify_record(b"ATO".as_slice()), RecordKind::Other);
    assert_eq!(classify_record(b"TER".as_slice()), RecordKind::Other);
}

#[test]
fn backbone_names_accepted() {
    for name in ["N", "CA", "C", "P", "O5'", "C5'", "C4'", "C3'", "O3'"] {
        assert!(is_backbone_name(name.as_bytes()), "{}", name);
    }
}

#[test]
fn non_backbone_names_rejected() {
    for name in ["", "CB", "O", "OXT", "H", "C2'", "O4'", "CA2", "XYZW"] {
        assert!(!is_backbone_name(name.as_bytes()), "{}", name);
    }
}
