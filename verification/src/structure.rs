//! The molecular model as the renderer reads it: ordered backbone atoms
//! with their chain and residue identifiers, and the inferred bond flag
//! between each pair of consecutive atoms. Positions are geometric data
//! the transform pipeline owns; the bond rule never reads them.

use vstd::prelude::*;

verus! {

/// One backbone atom's identifying fields.
pub struct Atom {
    pub serial: i32,
    pub name: String,
    pub res_name: String,
    pub chain_id: char,
    pub res_seq: i32,
}

/// Two consecutive atoms are bonded iff they share a chain id and the
/// second one's residue number equals the first one's or exceeds it by
/// exactly one.
pub open spec fn bonded_spec(c1: char, r1: int, c2: char, r2: int) -> bool {
    c1 == c2 && (r2 == r1 || r2 == r1 + 1)
}

/// Whether consecutive atoms `a` then `b` are bonded.
pub fn bonded(a: &Atom, b: &Atom) -> (r: bool)
    ensures
        r == bonded_spec(a.chain_id, a.res_seq as int, b.chain_id, b.res_seq as int),
{
    a.chain_id == b.chain_id && (b.res_seq == a.res_seq || (a.res_seq < i32::MAX && b.res_seq
        == a.res_seq + 1))
}

/// The bond flags of an ordered atom list: flag `i` says atom `i` bonds
/// to atom `i + 1`, so there is one flag fewer than there are atoms.
pub fn infer_connections(atoms: &Vec<Atom>) -> (r: Vec<bool>)
    ensures
        atoms@.len() == 0 ==> r@.len() == 0,
        atoms@.len() > 0 ==> r@.len() == atoms@.len() - 1,
        forall|i: int|
            0 <= i < r@.len() ==> r@[i] == bonded_spec(
                atoms@[i].chain_id,
                atoms@[i].res_seq as int,
                atoms@[i + 1].chain_id,
                atoms@[i + 1].res_seq as int,
            ),
{
    let mut r: Vec<bool> = Vec::new();
    if atoms.len() == 0 {
        return r;
    }
    let mut i: usize = 0;
    while i < atoms.len() - 1
        invariant
            atoms@.len() > 0,
            i <= atoms@.len() - 1,
            r@.len() == i,
            forall|j: int|
                0 <= j < i ==> r@[j] == bonded_spec(
                    atoms@[j].chain_id,
                    atoms@[j].res_seq as int,
                    atoms@[j + 1].chain_id,
                    atoms@[j + 1].res_seq as int,
                ),
        decreases atoms@.len() - 1 - i,
    {
        let c = bonded(&atoms[i], &atoms[i + 1]);
        r.push(c);
        i += 1;
    }
    r
}

/// An ordered atom list with its inferred bond flags.
pub struct Model {
    pub atoms: Vec<Atom>,
    pub connections: Vec<bool>,
}

impl Model {
    /// The bond flags are exactly what the bond rule infers from the
    /// atoms, one flag per consecutive pair.
    pub open spec fn wf(self) -> bool {
        &&& self.atoms@.len() == 0 ==> self.connections@.len() == 0
        &&& self.atoms@.len() > 0 ==> self.connections@.len() == self.atoms@.len() - 1
        &&& forall|i: int|
            0 <= i < self.connections@.len() ==> self.connections@[i] == bonded_spec(
                self.atoms@[i].chain_id,
                self.atoms@[i].res_seq as int,
                self.atoms@[i + 1].chain_id,
                self.atoms@[i + 1].res_seq as int,
            )
    }

    /// An empty model.
    pub fn new() -> (r: Model)
        ensures
            r.wf(),
            r.atoms@.len() == 0,
            r.connections@.len() == 0,
    {
        Model { atoms: Vec::new(), connections: Vec::new() }
    }

    /// Builds a model from its ordered atoms, inferring the bond flags.
    pub fn from_atoms(atoms: Vec<Atom>) -> (r: Model)
        ensures
            r.wf(),
            r.atoms@ == atoms@,
    {
        let connections = infer_connections(&atoms);
        Model { atoms, connections }
    }
}

/// What a structure-file line means to the model grouping: a model
/// boundary flushes the atoms gathered so far into a model, an atom
/// record may contribute an atom, and every other line is skipped.
#[derive(Clone, Copy, PartialEq, Eq, Structural, Debug)]
pub enum RecordKind {
    ModelBoundary,
    AtomRecord,
    Other,
}

/// Whether `p` is a prefix of `s`.
pub open spec fn starts_with_bytes(s: Seq<u8>, p: Seq<u8>) -> bool {
    p.len() <= s.len() && s.subrange(0, p.len() as int) == p
}

fn has_prefix(s: &[u8], p: &[u8]) -> (r: bool)
    ensures
        r == starts_with_bytes(s@, p@),
{
    if p.len() > s.len() {
        proof {
            assert(!starts_with_bytes(s@, p@));
        }
        return false;
    }
    let mut i: usize = 0;
    while i < p.len()
        invariant
            p@.len() <= s@.len(),
            i <= p@.len(),
            forall|j: int| 0 <= j < i ==> s@[j] == p@[j],
        decreases p@.len() - i,
    {
        if s[i] != p[i] {
            proof {
                assert(s@.subrange(0, p@.len() as int)[i as int] != p@[i as int]);
            }
            return false;
        }
        i += 1;
    }
    proof {
        assert(s@.subrange(0, p@.len() as int) =~= p@);
    }
    true
}

/// Classifies one structure-file line: the model-boundary records, the
/// two atom-record kinds, or anything else.
pub fn classify_record(line: &[u8]) -> (r: RecordKind)
    ensures
        (r == RecordKind::ModelBoundary) == (starts_with_bytes(
            line@,
            seq![77u8, 79u8, 68u8, 69u8, 76u8],
        ) || starts_with_bytes(line@, seq![69u8, 78u8, 68u8, 77u8, 68u8, 76u8])),
        (r == RecordKind::AtomRecord) == (!starts_with_bytes(
            line@,
            seq![77u8, 79u8, 68u8, 69u8, 76u8],
        ) && !starts_with_bytes(line@, seq![69u8, 78u8, 68u8, 77u8, 68u8, 76u8]) && (
        starts_with_bytes(line@, seq![65u8, 84u8, 79u8, 77u8]) || starts_with_bytes(
            line@,
            seq![72u8, 69u8, 84u8, 65u8, 84u8, 77u8],
        ))),
{
    // MODEL, ENDMDL, ATOM, HETATM in their byte spellings.
    let model_tag: Vec<u8> = vec![77u8, 79u8, 68u8, 69u8, 76u8];
    let endmdl_tag: Vec<u8> = vec![69u8, 78u8, 68u8, 77u8, 68u8, 76u8];
    let atom_tag: Vec<u8> = vec![65u8, 84u8, 79u8, 77u8];
    let hetatm_tag: Vec<u8> = vec![72u8, 69u8, 84u8, 65u8, 84u8, 77u8];
    if has_prefix(line, model_tag.as_slice()) || has_prefix(line, endmdl_tag.as_slice()) {
        RecordKind::ModelBoundary
    } else if has_prefix(line, atom_tag.as_slice()) || has_prefix(line, hetatm_tag.as_slice()) {
        RecordKind::AtomRecord
    } else {
        RecordKind::Other
    }
}

/// Whether a trimmed atom name, as bytes, is one of the
/// backbone-representative names kept at load time: the protein
/// backbone set or the nucleic-acid backbone set.
pub open spec fn backbone_spec(s: Seq<u8>) -> bool {
    ||| s == seq![78u8]
    ||| s == seq![67u8, 65u8]
    ||| s == seq![67u8]
    ||| s == seq![80u8]
    ||| s == seq![79u8, 53u8, 39u8]
    ||| s == seq![67u8, 53u8, 39u8]
    ||| s == seq![67u8, 52u8, 39u8]
    ||| s == seq![67u8, 51u8, 39u8]
    ||| s == seq![79u8, 51u8, 39u8]
}

/// Whether an atom name (already trimmed of surrounding blanks) is a
/// backbone-representative name.
pub fn is_backbone_name(name: &[u8]) -> (r: bool)
    ensures
        r == backbone_spec(name@),
{
    if name.len() == 1 {
        let c = name[0];
        proof {
            assert(name@ =~= seq![name@[0]]);
        }
        c == 78u8 || c == 67u8 || c == 80u8
    } else if name.len() == 2 {
        proof {
            assert(name@ =~= seq![name@[0], name@[1]]);
        }
        name[0] == 67u8 && name[1] == 65u8
    } else if name.len() == 3 {
        let a = name[0];
        let b = name[1];
        let c = name[2];
        proof {
            assert(name@ =~= seq![name@[0], name@[1], name@[2]]);
        }
        c == 39u8 && ((a == 79u8 && (b == 53u8 || b == 51u8)) || (a == 67u8 && (b == 53u8 || b
            == 52u8 || b == 51u8)))
    } else {
        false
    }
}

} // verus!
