use vstd::prelude::*;
use crate::number::Decimal;

verus! {

/// The fields that atom and anisotropic-factor lines share.
#[derive(Clone, Copy, Debug)]
pub struct AtomBasics {
    pub serial: usize,
    pub name: [char; 4],
    pub alternate_location: char,
    pub residue_name: [char; 3],
    pub chain: char,
    pub residue_serial: usize,
    pub insertion: char,
    pub segment: [char; 4],
    pub element: [char; 2],
    pub charge: i64,
}

/// An atom with its coordinates.
#[derive(Clone, Copy, Debug)]
pub struct AtomRecord {
    pub hetero: bool,
    pub basics: AtomBasics,
    pub x: Decimal,
    pub y: Decimal,
    pub z: Decimal,
    pub occupancy: Decimal,
    pub b_factor: Decimal,
}

/// The six anisotropic temperature factors of an atom.
#[derive(Clone, Copy, Debug)]
pub struct AnisouRecord {
    pub basics: AtomBasics,
    pub factors: [Decimal; 6],
}

/// A numbering range: start, its insertion code, end, its insertion code.
#[derive(Clone, Copy, Debug, PartialEq, Eq, Structural)]
pub struct SequencePosition {
    pub start: usize,
    pub start_insert: char,
    pub end: usize,
    pub end_insert: char,
}

/// The unit cell and the space group.
#[derive(Debug)]
pub struct CrystalRecord {
    pub a: Decimal,
    pub b: Decimal,
    pub c: Decimal,
    pub alpha: Decimal,
    pub beta: Decimal,
    pub gamma: Decimal,
    pub space_group: String,
    pub z: usize,
}

/// A mapping of a chain's numbering onto a sequence database.
#[derive(Debug)]
pub struct DbrefRecord {
    pub id_code: [char; 4],
    pub chain: char,
    pub local: SequencePosition,
    pub database: String,
    pub accession: String,
    pub database_id: String,
    pub database_position: SequencePosition,
}

/// A residue where the structure differs from the referenced database.
#[derive(Debug)]
pub struct SeqadvRecord {
    pub id_code: [char; 4],
    pub residue_name: [char; 3],
    pub chain: char,
    pub serial: usize,
    pub insertion: char,
    pub database: String,
    pub accession: String,
    pub database_residue: Option<([char; 3], usize)>,
    pub comment: String,
}

/// An observed residue that is a modified form of a standard one.
#[derive(Debug)]
pub struct ModresRecord {
    pub id_code: [char; 4],
    pub residue_name: [char; 3],
    pub chain: char,
    pub serial: usize,
    pub insertion: char,
    pub standard_name: [char; 3],
    pub comment: String,
}

/// One lexed line.
#[derive(Debug)]
pub enum Record {
    Remark { number: usize, text: String },
    Atom(AtomRecord),
    Anisou(AnisouRecord),
    Model { serial: usize },
    /// A row, 0 to 2, of the identity transform.
    OrigX { row: usize, values: [Decimal; 4] },
    /// A row, 0 to 2, of the scale transform.
    Scale { row: usize, values: [Decimal; 4] },
    /// A row, 0 to 2, of a symmetry operator.
    MtriX { row: usize, serial: usize, values: [Decimal; 4], given: bool },
    Crystal(CrystalRecord),
    Seqres { serial: usize, chain: char, total: usize, codes: Vec<[char; 3]> },
    Dbref(DbrefRecord),
    Seqadv(SeqadvRecord),
    Modres(ModresRecord),
    /// The aggregate trailer's twelve counts.
    Master { counts: [usize; 12] },
    EndModel,
    Ter,
    End,
    Empty,
}

} // verus!
