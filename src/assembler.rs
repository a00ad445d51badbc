use vstd::prelude::*;
use crate::error::{any_fails, run_fails, Diagnostic, Issue, Location, Severity, StrictnessLevel};
use crate::lexer::{chars_of, lex_line, line_lexed};
use crate::reconcile::{
    add_modifications, modification_diagnostics, modifications_applied, same_layout, seqres_diagnostics,
    sequences_reconciled, validate_seqres, ChainSequence, SequenceFragment,
};
use crate::record::{AtomRecord, ModresRecord, Record, SeqadvRecord};
use crate::reference::{recognised_space_group, space_group_recognised};
use crate::columns::{trim, trim_of};
use crate::structure::{
    all_printable, anisotropy_set, chains_atoms, has_serial, holds_chain, is_latest, is_first_chain, is_printable, model_wf, models_atoms, pdb_wf, saturated,
    transform_rows, Atom, DatabaseReference, Model, MtriX, Pdb, SequenceDifference, Symmetry,
    Transform, UnitCell,
};

verus! {

/// The diagnostics of the aggregate trailer's checks, given its twelve counts
/// and the structure read so far.
pub open spec fn master_checks(p: Pdb, counts: Seq<usize>) -> Seq<Diagnostic> {
    let remarks = p.remarks@.len();
    let rows = saturated(transform_rows(p));
    let atoms = saturated(models_atoms(p.models@) as int);
    (if counts[0] != remarks {
        seq![
            Diagnostic {
                severity: Severity::StrictWarning,
                issue: Issue::RemarkCountMismatch { found: remarks as usize, declared: counts[0] },
                location: Location::Whole,
            },
        ]
    } else {
        Seq::empty()
    }) + (if counts[1] != 0 {
        seq![
            Diagnostic {
                severity: Severity::LooseWarning,
                issue: Issue::EmptyCountNotZero { value: counts[1] },
                location: Location::Whole,
            },
        ]
    } else {
        Seq::empty()
    }) + (if counts[7] != rows {
        seq![
            Diagnostic {
                severity: Severity::StrictWarning,
                issue: Issue::TransformCountMismatch { found: rows, declared: counts[7] },
                location: Location::Whole,
            },
        ]
    } else {
        Seq::empty()
    }) + (if counts[8] != atoms {
        seq![
            Diagnostic {
                severity: Severity::StrictWarning,
                issue: Issue::AtomCountMismatch { found: atoms, declared: counts[8] },
                location: Location::Whole,
            },
        ]
    } else {
        Seq::empty()
    })
}

/// The state of a scan: the structure so far, the model being filled, the
/// records kept for after the scan, and the diagnostics.
#[derive(Debug)]
pub struct Assembler {
    pub pdb: Pdb,
    pub current: Model,
    /// The reference sequences, one entry per chain id, in order of first appearance.
    pub sequences: Vec<ChainSequence>,
    /// The database references with their chain ids, in the order read.
    pub references: Vec<(char, DatabaseReference)>,
    /// The residue modifications with the lines they were read on.
    pub modifications: Vec<(usize, ModresRecord)>,
    pub errors: Vec<Diagnostic>,
}

/// Each chain id has at most one entry.
pub open spec fn sequence_keys_unique(s: Seq<ChainSequence>) -> bool {
    forall|i: int, j: int| 0 <= i < j < s.len() ==> #[trigger] s[i].chain != #[trigger] s[j].chain
}


/// Each part of the state whose flag is set is the same in `old` and `new`:
/// the comments, the models, the unit cell and symmetry, the three kinds of
/// transform, the current model, and the three kinds of kept records.
pub open spec fn kept(
    old: Assembler,
    new: Assembler,
    remarks: bool,
    models: bool,
    cell: bool,
    origx: bool,
    scale: bool,
    mtrix: bool,
    current: bool,
    sequences: bool,
    references: bool,
    modifications: bool,
) -> bool {
    &&& remarks ==> new.pdb.remarks == old.pdb.remarks
    &&& models ==> new.pdb.models == old.pdb.models
    &&& cell ==> new.pdb.unit_cell == old.pdb.unit_cell && new.pdb.symmetry == old.pdb.symmetry
    &&& origx ==> new.pdb.origx == old.pdb.origx
    &&& scale ==> new.pdb.scale == old.pdb.scale
    &&& mtrix ==> new.pdb.mtrix == old.pdb.mtrix
    &&& current ==> new.current == old.current
    &&& sequences ==> new.sequences == old.sequences
    &&& references ==> new.references == old.references
    &&& modifications ==> new.modifications == old.modifications
}

/// What folding `record`, read on line `n`, into the state `old` gives as
/// `new`, where `errs0` stands for the diagnostics before the record.
pub open spec fn record_step(old: Assembler, errs0: Seq<Diagnostic>, record: Record, n: usize, new: Assembler) -> bool {
    match record {
        Record::Remark { number, text } => (new.pdb.remarks@ == old.pdb.remarks@.push((number, text))
            && new.errors@ == errs0)
            && kept(old, new, false, true, true, true, true, true, true, true, true, true),
        Record::Atom(a) => (new.pdb.models == old.pdb.models && if all_printable(a.basics.name@)
            && all_printable(a.basics.element@) {
            chains_atoms(new.current.chains@) == chains_atoms(old.current.chains@) + 1
                && new.errors@ == errs0 && atom_placed(new.current, a, old.current.inserted)
                && new.current.chains@.len() == old.current.chains@.len() + if holds_chain(
                old.current.chains@,
                a.basics.chain,
            ) {
                0int
            } else {
                1int
            }
        } else {
            new.current == old.current && new.errors@ == errs0.push(
                Diagnostic {
                    severity: Severity::InvalidatingError,
                    issue: Issue::InvalidCharacters,
                    location: Location::Line { line: n },
                },
            )
        })
            && kept(old, new, true, true, true, true, true, true, false, true, true, true),
        Record::Anisou(a) => ({
            &&& new.pdb.models == old.pdb.models
            &&& chains_atoms(new.current.chains@) == chains_atoms(old.current.chains@)
            &&& new.current.serial == old.current.serial
            &&& if has_serial(old.current, a.basics.serial) {
                &&& new.errors@ == errs0
                &&& exists|c: int, s: int, k: int| #[trigger] is_latest(old.current, a.basics.serial, c, s, k)
                    && anisotropy_set(old.current, new.current, a.factors, c, s, k)
            } else {
                new.errors@ == errs0.push(
                    Diagnostic {
                        severity: Severity::GeneralWarning,
                        issue: Issue::AnisotropyWithoutAtom { serial: a.basics.serial },
                        location: Location::Line { line: n },
                    },
                )
            }
        })
            && kept(old, new, true, true, true, true, true, true, false, true, true, true),
        Record::OrigX { row, values } => ({
            &&& row < 3 ==> (new.pdb.origx matches Some(t) && t.rows@[row as int] == values && t.set@[row as int])
            &&& new.errors@ == errs0
            &&& new.pdb.models == old.pdb.models
        })
            && kept(old, new, true, true, true, false, true, true, true, true, true, true),
        Record::Scale { row, values } => ({
            &&& row < 3 ==> (new.pdb.scale matches Some(t) && t.rows@[row as int] == values && t.set@[row as int])
            &&& new.errors@ == errs0
            &&& new.pdb.models == old.pdb.models
        })
            && kept(old, new, true, true, true, true, false, true, true, true, true, true),
        Record::MtriX { row, serial, values, given } => ({
            &&& row < 3 ==> exists|i: int| 0 <= i < new.pdb.mtrix@.len() && (#[trigger] new.pdb.mtrix@[i]).serial == serial
                && new.pdb.mtrix@[i].given == given && new.pdb.mtrix@[i].transform.set@[row as int]
                && new.pdb.mtrix@[i].transform.rows@[row as int] == values
            &&& new.errors@ == errs0
            &&& new.pdb.models == old.pdb.models
        })
            && kept(old, new, true, true, true, true, true, false, true, true, true, true),
        Record::Seqres { serial, chain, total, codes } => ({
            &&& exists|i: int| 0 <= i < new.sequences@.len() && (#[trigger] new.sequences@[i]).chain == chain
                && new.sequences@[i].fragments@.len() > 0
                && new.sequences@[i].fragments@.last().serial == serial
                && new.sequences@[i].fragments@.last().total == total
                && new.sequences@[i].fragments@.last().codes@ == codes@
            &&& new.errors@ == errs0
            &&& new.pdb.models == old.pdb.models
        })
            && kept(old, new, true, true, true, true, true, true, true, false, true, true),
        Record::Dbref(d) => ({
            &&& new.references@.len() == old.references@.len() + 1
            &&& new.references@.last().0 == d.chain
            &&& new.references@.last().1.pdb_position == d.local
            &&& new.references@.last().1.database_position == d.database_position
            &&& new.references@.last().1.differences@.len() == 0
            &&& new.references@.last().1.database@ == d.database@
            &&& new.references@.last().1.accession@ == d.accession@
            &&& new.references@.last().1.database_id@ == d.database_id@
            &&& new.errors@ == errs0
        })
            && kept(old, new, true, true, true, true, true, true, true, true, false, true),
        Record::Model { serial } => ({
            &&& new.current.serial == serial
            &&& new.current.chains@.len() == 0
            &&& chains_atoms(old.current.chains@) > 0 ==> new.pdb.models@
                == old.pdb.models@.push(old.current)
            &&& chains_atoms(old.current.chains@) == 0 ==> new.pdb.models@
                == old.pdb.models@
            &&& new.errors@ == errs0
        })
            && kept(old, new, true, false, true, true, true, true, false, true, true, true),
        Record::Master { counts } => ({
            let flushed = if chains_atoms(old.current.chains@) > 0 {
                old.pdb.models@.push(old.current)
            } else {
                old.pdb.models@
            };
            &&& new.pdb.models@ == flushed
            &&& new.errors@ == errs0 + master_checks(new.pdb, counts@)
        })
            && kept(old, new, true, false, true, true, true, true, false, true, true, true),
        Record::Crystal(c) => ({
            let symbol = trim(c.space_group@);
            &&& new.pdb.unit_cell == Some(
                UnitCell { a: c.a, b: c.b, c: c.c, alpha: c.alpha, beta: c.beta, gamma: c.gamma },
            )
            &&& if space_group_recognised(symbol) {
                new.pdb.symmetry matches Some(s) && s.symbol@ == symbol
                    && new.errors@ == errs0
            } else {
                new.errors@ == errs0.push(
                    Diagnostic {
                        severity: Severity::InvalidatingError,
                        issue: Issue::InvalidSpaceGroup,
                        location: Location::Line { line: n },
                    },
                )
            }
        })
            && kept(old, new, true, true, false, true, true, true, true, true, true, true),
        Record::Seqadv(d) => (if forall|i: int| 0 <= i < old.references@.len() ==> (#[trigger] old.references@[i]).0 != d.chain {
            new.errors@ == errs0.push(
                Diagnostic {
                    severity: Severity::StrictWarning,
                    issue: Issue::DifferenceWithoutReference { chain: d.chain },
                    location: Location::Whole,
                },
            )
        } else {
            new.errors@ == errs0 && difference_attached(old.references@, new.references@, d)
        })
            && kept(old, new, true, true, true, true, true, true, true, true, false, true),
        Record::Modres(m) => (new.modifications@ == old.modifications@.push((n, m))
            && new.errors@ == errs0)
            && kept(old, new, true, true, true, true, true, true, true, true, true, false),
        Record::EndModel | Record::Ter | Record::End | Record::Empty => (new.pdb == old.pdb
            && new.current == old.current && new.errors@ == errs0)
            && kept(old, new, true, true, true, true, true, true, true, true, true, true),
    }
}

/// The atom that an atom record makes.
pub open spec fn atom_of(a: AtomRecord, order: usize) -> Atom {
    Atom {
        serial: a.basics.serial,
        name: a.basics.name,
        hetero: a.hetero,
        x: a.x,
        y: a.y,
        z: a.z,
        occupancy: a.occupancy,
        b_factor: a.b_factor,
        element: a.basics.element,
        charge: a.basics.charge,
        anisotropic: None,
        order,
    }
}

/// The model holds, in a chain of the record's chain id, a residue of the
/// record's residue serial whose last atom is the record's atom, received
/// as number `order`.
pub open spec fn atom_placed(m: Model, a: AtomRecord, order: usize) -> bool {
    exists|i: int, k: int| 0 <= i < m.chains@.len() && (#[trigger] m.chains@[i]).id == a.basics.chain
        && 0 <= k < m.chains@[i].residues@.len() && (#[trigger] m.chains@[i].residues@[k]).serial == a.basics.residue_serial
        && m.chains@[i].residues@[k].atoms@.len() > 0 && m.chains@[i].residues@[k].atoms@.last() == atom_of(a, order)
}

/// What reading line `n` into the state `old` gives as `new`: the line is
/// lexed; a line that gives no record adds its one diagnostic and changes
/// nothing else; otherwise its diagnostics are added and its record folded in.
pub open spec fn line_step(old: Assembler, line: Seq<char>, n: usize, new: Assembler) -> bool {
    exists|r: Result<(Record, Vec<Diagnostic>), Diagnostic>|
        #[trigger] line_lexed(line, n, r) && match r {
            Err(d) => {
                &&& new.pdb == old.pdb
                &&& new.current == old.current
                &&& new.sequences == old.sequences
                &&& new.references == old.references
                &&& new.modifications == old.modifications
                &&& new.errors@ == old.errors@.push(d)
            },
            Ok((record, errs)) => record_step(old, old.errors@ + errs@, record, n, new),
        }
}

/// A record's step reads the state it starts from only through its
/// structure, current model and kept records.
pub proof fn lemma_record_step_frame(a: Assembler, b: Assembler, errs0: Seq<Diagnostic>, record: Record, n: usize, new: Assembler)
    requires
        a.pdb == b.pdb,
        a.current == b.current,
        a.sequences == b.sequences,
        a.references == b.references,
        a.modifications == b.modifications,
        record_step(a, errs0, record, n, new),
    ensures
        record_step(b, errs0, record, n, new),
{
    match record {
        Record::Atom(x) => {
            assert(has_serial(a.current, x.basics.serial) == has_serial(b.current, x.basics.serial));
        },
        Record::Anisou(x) => {
            assert(has_serial(a.current, x.basics.serial) == has_serial(b.current, x.basics.serial));
        },
        _ => {},
    }
}

/// The sequence difference that a sequence-difference record makes.
pub open spec fn difference_of(d: SeqadvRecord) -> SequenceDifference {
    SequenceDifference {
        residue: (d.residue_name, d.serial),
        database_residue: d.database_residue,
        comment: d.comment,
    }
}

/// The first reference of the record's chain receives its difference; the
/// other references are unchanged.
pub open spec fn difference_attached(
    before: Seq<(char, DatabaseReference)>,
    after: Seq<(char, DatabaseReference)>,
    d: SeqadvRecord,
) -> bool {
    &&& after.len() == before.len()
    &&& exists|i: int| 0 <= i < before.len() && (#[trigger] before[i]).0 == d.chain && (forall|j: int| 0 <= j < i ==> (#[trigger] before[j]).0 != d.chain)
        && after[i].0 == d.chain && after[i].1.pdb_position == before[i].1.pdb_position
        && after[i].1.database_position == before[i].1.database_position
        && after[i].1.differences@ == before[i].1.differences@.push(difference_of(d))
        && forall|j: int| 0 <= j < before.len() && j != i ==> #[trigger] after[j] == before[j]
}

/// The state at the start of a scan.
pub open spec fn initial(s: Assembler) -> bool {
    &&& s.pdb.remarks@.len() == 0
    &&& s.pdb.models@.len() == 0
    &&& s.pdb.unit_cell is None
    &&& s.pdb.symmetry is None
    &&& s.pdb.origx is None
    &&& s.pdb.scale is None
    &&& s.pdb.mtrix@.len() == 0
    &&& s.current.serial == 0
    &&& s.current.chains@.len() == 0
    &&& s.sequences@.len() == 0
    &&& s.references@.len() == 0
    &&& s.modifications@.len() == 0
    &&& s.errors@.len() == 0
}

/// The structure `p` is the one of state `s` with its current model kept
/// when that model holds an atom.
pub open spec fn flushed(s: Assembler, p: Pdb) -> bool {
    &&& p.models@ == if chains_atoms(s.current.chains@) > 0 {
        s.pdb.models@.push(s.current)
    } else {
        s.pdb.models@
    }
    &&& p.remarks == s.pdb.remarks
    &&& p.unit_cell == s.pdb.unit_cell
    &&& p.symmetry == s.pdb.symmetry
    &&& p.origx == s.pdb.origx
    &&& p.scale == s.pdb.scale
    &&& p.mtrix == s.pdb.mtrix
}

/// What ending the scan in state `s` gives: the last model kept when it
/// holds an atom, then the references attached, the declared sequences
/// reconciled and the modifications applied, in that order; the diagnostics
/// are those of the scan followed by those of the last two steps. Every kept
/// model holds an atom.
pub open spec fn assembled(s: Assembler, pdb: Pdb, errs: Seq<Diagnostic>) -> bool {
    &&& exists|p0: Pdb, p1: Pdb, p2: Pdb|
        flushed(s, p0) && #[trigger] references_attached(p0, s.references@, p1) && #[trigger] sequences_reconciled(
            p1,
            s.sequences@,
            p2,
            seqres_diagnostics(p1, s.sequences@),
        ) && modifications_applied(p2, s.modifications@, pdb, modification_diagnostics(p2, s.modifications@))
            && errs == s.errors@ + seqres_diagnostics(p1, s.sequences@) + modification_diagnostics(
            p2,
            s.modifications@,
        )
    &&& pdb_wf(pdb)
    &&& forall|m: int| 0 <= m < pdb.models@.len() ==> chains_atoms(#[trigger] pdb.models@[m].chains@) > 0
}

impl Assembler {
    /// The state's invariant: chains keep residues in order, every kept
    /// model holds an atom, and each chain has one sequence entry at most.
    pub open spec fn wf(&self) -> bool {
        &&& pdb_wf(self.pdb)
        &&& model_wf(self.current)
        &&& forall|i: int| 0 <= i < self.pdb.models@.len() ==> chains_atoms(#[trigger] self.pdb.models@[i].chains@) > 0
        &&& sequence_keys_unique(self.sequences@)
    }

    pub fn new() -> (r: Assembler)
        ensures
            r.wf(),
            initial(r),
    {
        Assembler {
            pdb: Pdb::new(),
            current: Model::new(0),
            sequences: Vec::new(),
            references: Vec::new(),
            modifications: Vec::new(),
            errors: Vec::new(),
        }
    }

    /// Keeps the current model when it holds an atom, and starts a new one.
    pub fn flush(&mut self, serial: usize)
        requires
            old(self).wf(),
        ensures
            final(self).wf(),
            final(self).current.serial == serial,
            final(self).current.chains@.len() == 0,
            chains_atoms(old(self).current.chains@) > 0 ==> final(self).pdb.models@ == old(self).pdb.models@.push(old(self).current),
            chains_atoms(old(self).current.chains@) == 0 ==> final(self).pdb.models@ == old(self).pdb.models@,
            final(self).pdb.remarks == old(self).pdb.remarks,
            final(self).pdb.unit_cell == old(self).pdb.unit_cell,
            final(self).pdb.symmetry == old(self).pdb.symmetry,
            final(self).pdb.origx == old(self).pdb.origx,
            final(self).pdb.scale == old(self).pdb.scale,
            final(self).pdb.mtrix == old(self).pdb.mtrix,
            final(self).errors == old(self).errors,
            final(self).sequences == old(self).sequences,
            final(self).references == old(self).references,
            final(self).modifications == old(self).modifications,
    {
        let mut fresh = Model::new(serial);
        if self.current.has_atoms() {
            std::mem::swap(&mut self.current, &mut fresh);
            self.pdb.models.push(fresh);
        } else {
            self.current = fresh;
        }
    }

    fn add_atom(&mut self, a: crate::record::AtomRecord, n: usize)
        requires
            old(self).wf(),
        ensures
            final(self).wf(),
            final(self).pdb == old(self).pdb,
            final(self).current.serial == old(self).current.serial,
            if all_printable(a.basics.name@) && all_printable(a.basics.element@) {
                &&& chains_atoms(final(self).current.chains@) == chains_atoms(old(self).current.chains@) + 1
                &&& final(self).errors == old(self).errors
                &&& atom_placed(final(self).current, a, old(self).current.inserted)
                &&& final(self).current.chains@.len() == old(self).current.chains@.len() + if holds_chain(
                    old(self).current.chains@,
                    a.basics.chain,
                ) {
                    0int
                } else {
                    1int
                }
            } else {
                &&& final(self).current == old(self).current
                &&& final(self).errors@ == old(self).errors@.push(
                    Diagnostic {
                        severity: Severity::InvalidatingError,
                        issue: Issue::InvalidCharacters,
                        location: Location::Line { line: n },
                    },
                )
            },
            final(self).sequences == old(self).sequences,
            final(self).references == old(self).references,
            final(self).modifications == old(self).modifications,
    {
        let b = a.basics;
        if !is_printable(&b.name) || !is_printable(&b.element) {
            self.errors.push(Diagnostic::new(Severity::InvalidatingError, Issue::InvalidCharacters, Location::Line { line: n }));
            return;
        }
        let atom = Atom {
            serial: b.serial,
            name: b.name,
            hetero: a.hetero,
            x: a.x,
            y: a.y,
            z: a.z,
            occupancy: a.occupancy,
            b_factor: a.b_factor,
            element: b.element,
            charge: b.charge,
            anisotropic: None,
            order: self.current.inserted,
        };
        assert(atom == atom_of(a, old(self).current.inserted));
        self.current.add_atom(atom, b.chain, b.residue_serial, b.residue_name);
        self.current.inserted = self.current.inserted.saturating_add(1);
    }

    /// Runs the aggregate trailer's checks: comments, the field that must be
    /// zero, transform rows and atoms.
    pub fn check_master(&mut self, counts: [usize; 12])
        ensures
            final(self).errors@ == old(self).errors@ + master_checks(old(self).pdb, counts@),
            final(self).pdb == old(self).pdb,
            final(self).current == old(self).current,
            final(self).sequences == old(self).sequences,
            final(self).references == old(self).references,
            final(self).modifications == old(self).modifications,
    {
        let ghost start = self.errors@;
        let remarks = self.pdb.remarks.len();
        if counts[0] != remarks {
            self.errors.push(Diagnostic::new(Severity::StrictWarning, Issue::RemarkCountMismatch { found: remarks, declared: counts[0] }, Location::Whole));
        }
        let ghost e1 = self.errors@;
        if counts[1] != 0 {
            self.errors.push(Diagnostic::new(Severity::LooseWarning, Issue::EmptyCountNotZero { value: counts[1] }, Location::Whole));
        }
        let ghost e2 = self.errors@;
        let rows = self.pdb.transform_row_count();
        if counts[7] != rows {
            self.errors.push(Diagnostic::new(Severity::StrictWarning, Issue::TransformCountMismatch { found: rows, declared: counts[7] }, Location::Whole));
        }
        let ghost e3 = self.errors@;
        let atoms = self.pdb.total_atom_count();
        if counts[8] != atoms {
            self.errors.push(Diagnostic::new(Severity::StrictWarning, Issue::AtomCountMismatch { found: atoms, declared: counts[8] }, Location::Whole));
        }
        assert(self.errors@ =~= start + master_checks(old(self).pdb, counts@));
    }

    /// Folds one record, read on line `n`, into the state.
    pub fn add_record(&mut self, record: Record, n: usize)
        requires
            old(self).wf(),
        ensures
            final(self).wf(),
            old(self).errors@.len() <= final(self).errors@.len(),
            forall|i: int| 0 <= i < old(self).errors@.len() ==> final(self).errors@[i] == old(self).errors@[i],
            record_step(*old(self), old(self).errors@, record, n, *final(self)),
    {
        match record {
            Record::Remark { number, text } => {
                self.pdb.remarks.push((number, text));
            },
            Record::Atom(a) => {
                self.add_atom(a, n);
            },
            Record::Anisou(a) => {
                let found = self.current.set_anisotropic(a.basics.serial, a.factors);
                if !found {
                    self.errors.push(Diagnostic::new(Severity::GeneralWarning, Issue::AnisotropyWithoutAtom { serial: a.basics.serial }, Location::Line { line: n }));
                }
            },
            Record::Model { serial } => {
                self.flush(serial);
            },
            Record::OrigX { row, values } => {
                if row < 3 {
                    let mut t = match self.pdb.origx {
                        Some(t) => t,
                        None => Transform::new(),
                    };
                    t.set_row(row, values);
                    self.pdb.origx = Some(t);
                }
            },
            Record::Scale { row, values } => {
                if row < 3 {
                    let mut t = match self.pdb.scale {
                        Some(t) => t,
                        None => Transform::new(),
                    };
                    t.set_row(row, values);
                    self.pdb.scale = Some(t);
                }
            },
            Record::MtriX { row, serial, values, given } => {
                if row < 3 {
                    self.add_mtrix_row(row, serial, values, given);
                }
            },
            Record::Crystal(c) => {
                self.pdb.unit_cell = Some(UnitCell { a: c.a, b: c.b, c: c.c, alpha: c.alpha, beta: c.beta, gamma: c.gamma });
                let chars = chars_of(c.space_group.as_str());
                let symbol = trim_of(&chars);
                proof {
                    crate::columns::lemma_trim_idempotent(chars@);
                }
                if recognised_space_group(&symbol) {
                    self.pdb.symmetry = Some(Symmetry { symbol: crate::lexer::text_of(&symbol) });
                } else {
                    self.errors.push(Diagnostic::new(Severity::InvalidatingError, Issue::InvalidSpaceGroup, Location::Line { line: n }));
                }
            },
            Record::Seqres { serial, chain, total, codes } => {
                self.add_sequence(chain, SequenceFragment { serial, total, codes });
            },
            Record::Dbref(d) => {
                self.references.push((d.chain, DatabaseReference {
                    database: d.database,
                    accession: d.accession,
                    database_id: d.database_id,
                    pdb_position: d.local,
                    database_position: d.database_position,
                    differences: Vec::new(),
                }));
            },
            Record::Seqadv(d) => {
                self.add_difference(d);
            },
            Record::Modres(m) => {
                self.modifications.push((n, m));
            },
            Record::Master { counts } => {
                if self.current.has_atoms() {
                    self.flush(0);
                }
                self.check_master(counts);
            },
            Record::EndModel | Record::Ter | Record::End | Record::Empty => {},
        }
    }

    fn add_mtrix_row(&mut self, row: usize, serial: usize, values: [crate::number::Decimal; 4], given: bool)
        requires
            row < 3,
        ensures
            final(self).pdb.models == old(self).pdb.models,
            final(self).pdb.remarks == old(self).pdb.remarks,
            final(self).pdb.unit_cell == old(self).pdb.unit_cell,
            final(self).pdb.symmetry == old(self).pdb.symmetry,
            final(self).pdb.origx == old(self).pdb.origx,
            final(self).pdb.scale == old(self).pdb.scale,
            final(self).current == old(self).current,
            final(self).errors == old(self).errors,
            final(self).sequences == old(self).sequences,
            final(self).references == old(self).references,
            final(self).modifications == old(self).modifications,
            exists|i: int| 0 <= i < final(self).pdb.mtrix@.len() && (#[trigger] final(self).pdb.mtrix@[i]).serial == serial
                && final(self).pdb.mtrix@[i].given == given && final(self).pdb.mtrix@[i].transform.set@[row as int]
                && final(self).pdb.mtrix@[i].transform.rows@[row as int] == values,
    {
        let mut i: usize = 0;
        while i < self.pdb.mtrix.len()
            invariant
                i <= self.pdb.mtrix@.len(),
                row < 3,
                *self == *old(self),
            decreases self.pdb.mtrix@.len() - i,
        {
            if self.pdb.mtrix[i].serial == serial {
                let mut m = self.pdb.mtrix[i];
                m.transform.set_row(row, values);
                m.given = given;
                self.pdb.mtrix.set(i, m);
                assert(self.pdb.mtrix@[i as int] == m);
                return;
            }
            i += 1;
        }
        let mut t = Transform::new();
        t.set_row(row, values);
        self.pdb.mtrix.push(MtriX { serial, transform: t, given });
        assert(self.pdb.mtrix@[self.pdb.mtrix@.len() - 1].serial == serial);
    }

    fn add_sequence(&mut self, chain: char, fragment: SequenceFragment)
        requires
            sequence_keys_unique(old(self).sequences@),
        ensures
            sequence_keys_unique(final(self).sequences@),
            exists|i: int| 0 <= i < final(self).sequences@.len() && (#[trigger] final(self).sequences@[i]).chain == chain
                && final(self).sequences@[i].fragments@ == (if exists|j: int| 0 <= j < old(self).sequences@.len() && (#[trigger] old(self).sequences@[j]).chain == chain {
                    old(self).sequences@[i].fragments@.push(fragment)
                } else {
                    seq![fragment]
                }),
            final(self).pdb == old(self).pdb,
            final(self).current == old(self).current,
            final(self).errors == old(self).errors,
            final(self).references == old(self).references,
            final(self).modifications == old(self).modifications,
    {
        let mut i: usize = 0;
        while i < self.sequences.len()
            invariant
                i <= self.sequences@.len(),
                *self == *old(self),
                sequence_keys_unique(old(self).sequences@),
                forall|k: int| 0 <= k < i ==> (#[trigger] self.sequences@[k]).chain != chain,
            decreases self.sequences@.len() - i,
        {
            if self.sequences[i].chain == chain {
                let ghost before = self.sequences@;
                let mut entry = self.sequences.remove(i);
                entry.fragments.push(fragment);
                self.sequences.insert(i, entry);
                assert(self.sequences@ =~= before.update(i as int, entry));
                assert forall|a: int, b: int| 0 <= a < b < self.sequences@.len() implies #[trigger] self.sequences@[a].chain
                    != #[trigger] self.sequences@[b].chain by {
                    assert(self.sequences@[a].chain == before[a].chain);
                    assert(self.sequences@[b].chain == before[b].chain);
                }
                assert(self.sequences@[i as int].chain == chain);
                return;
            }
            i += 1;
        }
        let mut fragments: Vec<SequenceFragment> = Vec::new();
        fragments.push(fragment);
        assert(fragments@ =~= seq![fragment]);
        let ghost before = self.sequences@;
        self.sequences.push(ChainSequence { chain, fragments });
        assert(self.sequences@[before.len() as int].chain == chain);
    }

    fn add_difference(&mut self, d: crate::record::SeqadvRecord)
        ensures
            final(self).pdb == old(self).pdb,
            final(self).current == old(self).current,
            final(self).sequences == old(self).sequences,
            final(self).modifications == old(self).modifications,
            final(self).references@.len() == old(self).references@.len(),
            if forall|i: int| 0 <= i < old(self).references@.len() ==> (#[trigger] old(self).references@[i]).0 != d.chain {
                final(self).errors@ == old(self).errors@.push(
                    Diagnostic {
                        severity: Severity::StrictWarning,
                        issue: Issue::DifferenceWithoutReference { chain: d.chain },
                        location: Location::Whole,
                    },
                )
            } else {
                final(self).errors == old(self).errors && difference_attached(old(self).references@, final(self).references@, d)
            },
    {
        let mut i: usize = 0;
        while i < self.references.len()
            invariant
                i <= self.references@.len(),
                *self == *old(self),
                forall|k: int| 0 <= k < i ==> (#[trigger] self.references@[k]).0 != d.chain,
            decreases self.references@.len() - i,
        {
            if self.references[i].0 == d.chain {
                let ghost before = self.references@;
                let (id, mut reference) = self.references.remove(i);
                reference.differences.push(SequenceDifference {
                    residue: (d.residue_name, d.serial),
                    database_residue: d.database_residue,
                    comment: d.comment,
                });
                self.references.insert(i, (id, reference));
                assert(before[i as int].0 == d.chain);
                assert(self.references@ =~= before.update(i as int, (id, reference)));
                assert(difference_attached(before, self.references@, d)) by {
                    assert(self.references@[i as int].1.differences@ =~= before[i as int].1.differences@.push(
                        difference_of(d),
                    ));
                }
                return;
            }
            i += 1;
        }
        self.errors.push(Diagnostic::new(Severity::StrictWarning, Issue::DifferenceWithoutReference { chain: d.chain }, Location::Whole));
    }
}


impl Assembler {
    /// Lexes line `n` and folds what it gives into the state. A line that
    /// gives no record adds its one diagnostic and changes nothing else.
    pub fn add_line(&mut self, line: &Vec<char>, n: usize)
        requires
            old(self).wf(),
        ensures
            final(self).wf(),
            old(self).errors@.len() <= final(self).errors@.len(),
            forall|i: int| 0 <= i < old(self).errors@.len() ==> final(self).errors@[i] == old(self).errors@[i],
            line_step(*old(self), line@, n, *final(self)),
            line@.len() > 6 && (line@.subrange(0, 6) == seq!['A', 'T', 'O', 'M', ' ', ' ']
                || line@.subrange(0, 6) == seq!['H', 'E', 'T', 'A', 'T', 'M']) && line@.len() < 54 ==> {
                &&& final(self).pdb == old(self).pdb
                &&& final(self).current == old(self).current
                &&& final(self).errors@ == old(self).errors@.push(
                    Diagnostic {
                        severity: Severity::BreakingError,
                        issue: Issue::AtomLineTooShort,
                        location: Location::Line { line: n },
                    },
                )
            },
    {
        let lexed = lex_line(line, n);
        let ghost seen = lexed;
        match lexed {
            Ok((record, mut errors)) => {
                let ghost before = self.errors@;
                let ghost errs = errors@;
                self.errors.append(&mut errors);
                assert forall|i: int| 0 <= i < before.len() implies self.errors@[i] == before[i] by {}
                let ghost mid = *self;
                let ghost rec = record;
                self.add_record(record, n);
                proof {
                    lemma_record_step_frame(mid, *old(self), old(self).errors@ + errs, rec, n, *self);
                }
                assert(line_lexed(line@, n, seen));
                assert(record_step(*old(self), old(self).errors@ + errs, rec, n, *self));
            },
            Err(d) => {
                self.errors.push(d);
                assert(line_lexed(line@, n, seen));
            },
        }
    }

    /// Ends the scan: keeps the last model when it holds an atom, attaches
    /// each database reference to the first chain of its id (a later one
    /// replaces an earlier one; those of chains not read are dropped),
    /// reconciles the declared sequences, and applies the modifications.
    pub fn finish(self) -> (r: (Pdb, Vec<Diagnostic>))
        requires
            self.wf(),
        ensures
            assembled(self, r.0, r.1@),
    {
        let mut state = self;
        state.flush(0);
        let Assembler { mut pdb, current: _, sequences, references, modifications, mut errors } = state;
        let ghost p0 = pdb;
        assert(flushed(self, p0));
        attach_references(&mut pdb, references);
        let ghost p1 = pdb;
        proof {
            assert forall|m: int| 0 <= m < p1.models@.len() implies chains_atoms(#[trigger] p1.models@[m].chains@) > 0 by {
                assert(p0.models@[m].chains@.len() == p1.models@[m].chains@.len());
                assert forall|c: int| 0 <= c < p0.models@[m].chains@.len() implies crate::structure::residues_atoms((#[trigger] p0.models@[m].chains@[c]).residues@)
                    == crate::structure::residues_atoms(p1.models@[m].chains@[c].residues@) by {
                    assert(p1.models@[m].chains@[c].residues == p0.models@[m].chains@[c].residues);
                }
                crate::reconcile::lemma_chains_same_atoms(p0.models@[m].chains@, p1.models@[m].chains@);
                if chains_atoms(self.current.chains@) > 0 && m == p0.models@.len() - 1 {
                } else {
                    assert(p0.models@[m] == self.pdb.models@[m]);
                }
            }
        }
        let mut found = validate_seqres(&mut pdb, &sequences);
        let ghost p2 = pdb;
        let ghost d1 = found@;
        errors.append(&mut found);
        let mut applied = add_modifications(&mut pdb, &modifications);
        let ghost d2 = applied@;
        errors.append(&mut applied);
        proof {
            assert forall|m: int| 0 <= m < pdb.models@.len() implies chains_atoms(#[trigger] pdb.models@[m].chains@) > 0 by {
                assert(chains_atoms(p2.models@[m].chains@) == chains_atoms(p1.models@[m].chains@));
            }
            assert(errors@ =~= self.errors@ + d1 + d2);
            assert(flushed(self, p0));
        }
        (pdb, errors)
    }
}

/// The last of the first `i` references that names chain `id`.
pub open spec fn last_reference(all: Seq<(char, DatabaseReference)>, i: int, id: char) -> Option<DatabaseReference>
    decreases i,
{
    if i <= 0 {
        None
    } else if all[i - 1].0 == id {
        Some(all[i - 1].1)
    } else {
        last_reference(all, i - 1, id)
    }
}

/// What attaching the database references `refs` in order to `before` gives.
pub open spec fn references_attached(before: Pdb, refs: Seq<(char, DatabaseReference)>, after: Pdb) -> bool {
    &&& pdb_wf(after)
    &&& models_atoms(after.models@) == models_atoms(before.models@)
    &&& same_layout(before, after)
    &&& after.remarks == before.remarks
    &&& forall|m: int, c: int| 0 <= m < before.models@.len() && 0 <= c < before.models@[m].chains@.len() ==> {
        let was = before.models@[m].chains@[c];
        let now = #[trigger] after.models@[m].chains@[c];
        &&& now.residues == was.residues
        &&& now.database_reference == if is_first_chain(before, was.id, m, c) && last_reference(
            refs,
            refs.len() as int,
            was.id,
        ) is Some {
            last_reference(refs, refs.len() as int, was.id)
        } else {
            was.database_reference
        }
    }
}

/// Attaches each database reference, in order, to the first chain of its id:
/// that chain ends with the last reference of its id; references of chains
/// that were not read are dropped. Nothing else changes.
pub fn attach_references(pdb: &mut Pdb, references: Vec<(char, DatabaseReference)>)
    requires
        pdb_wf(*old(pdb)),
    ensures
        references_attached(*old(pdb), references@, *final(pdb)),
{
    let ghost start = *pdb;
    let ghost all = references@;
    let total = references.len();
    let mut rest = references;
    let mut i: usize = 0;
    while rest.len() > 0
        invariant
            start == *old(pdb),
            i <= all.len(),
            all.len() == total,
            rest@ == all.subrange(i as int, all.len() as int),
            pdb_wf(*pdb),
            models_atoms(pdb.models@) == models_atoms(start.models@),
            same_layout(start, *pdb),
            pdb.remarks == start.remarks,
            forall|m: int, c: int| 0 <= m < start.models@.len() && 0 <= c < start.models@[m].chains@.len() ==> {
                let before = start.models@[m].chains@[c];
                let after = #[trigger] pdb.models@[m].chains@[c];
                &&& after.residues == before.residues
                &&& after.database_reference == if is_first_chain(start, before.id, m, c) && last_reference(all, i as int, before.id) is Some {
                    last_reference(all, i as int, before.id)
                } else {
                    before.database_reference
                }
            },
        decreases rest@.len(),
    {
        let (id, reference) = rest.remove(0);
        assert(all[i as int] == (id, reference));
        assert(rest@ =~= all.subrange(i as int + 1, all.len() as int));
        let ghost prev = *pdb;
        match pdb.find_chain(id) {
            Some((m, c)) => {
                proof {
                    lemma_layout_symmetric(start, prev);
                    crate::reconcile::lemma_first_chain_layout(prev, start, id, m as int, c as int);
                }
                let mut chain = pdb.swap_chain(m, c, crate::structure::Chain::new(id));
                chain.database_reference = Some(reference);
                let _ = pdb.swap_chain(m, c, chain);
                proof {
                    let old_model = prev.models@[m as int];
                    let new_model = pdb.models@[m as int];
                    assert(new_model.chains@ =~= old_model.chains@.update(c as int, chain));
                    crate::structure::lemma_chains_update(old_model.chains@, c as int, chain);
                    crate::structure::lemma_models_update(prev.models@, m as int, new_model);
                    assert(pdb.models@ =~= prev.models@.update(m as int, new_model));
                    assert(model_wf(prev.models@[m as int]));
                    assert(model_wf(new_model));
                    assert forall|m2: int, c2: int| 0 <= m2 < start.models@.len() && 0 <= c2 < start.models@[m2].chains@.len() implies {
                        let before = start.models@[m2].chains@[c2];
                        let after = #[trigger] pdb.models@[m2].chains@[c2];
                        &&& after.residues == before.residues
                        &&& after.database_reference == if is_first_chain(start, before.id, m2, c2) && last_reference(all, i as int + 1, before.id) is Some {
                            last_reference(all, i as int + 1, before.id)
                        } else {
                            before.database_reference
                        }
                    } by {
                        assert(start.models@[m2].chains@.len() == prev.models@[m2].chains@.len());
                        if m2 == m && c2 == c {
                            assert(start.models@[m2].chains@[c2].id == id);
                        } else {
                            if m2 == m {
                                assert(pdb.models@[m2].chains@[c2] == prev.models@[m2].chains@[c2]);
                            } else {
                                assert(pdb.models@[m2] == prev.models@[m2]);
                            }
                            if start.models@[m2].chains@[c2].id == id && is_first_chain(start, id, m2, c2) {
                                crate::structure::lemma_first_chain_unique(start, id, m as int, c as int, m2, c2);
                            }
                        }
                    }
                    assert(same_layout(start, *pdb)) by {
                        assert forall|m2: int| 0 <= m2 < start.models@.len() implies (#[trigger] start.models@[m2]).chains@.len() == pdb.models@[m2].chains@.len() by {
                            assert(start.models@[m2].chains@.len() == prev.models@[m2].chains@.len());
                        }
                        assert forall|m2: int, c2: int| 0 <= m2 < start.models@.len() && 0 <= c2 < start.models@[m2].chains@.len()
                            implies (#[trigger] start.models@[m2].chains@[c2]).id == pdb.models@[m2].chains@[c2].id by {
                            assert(start.models@[m2].chains@.len() == prev.models@[m2].chains@.len());
                            assert(start.models@[m2].chains@[c2].id == prev.models@[m2].chains@[c2].id);
                        }
                    }
                }
            },
            None => {
                proof {
                    assert forall|m2: int, c2: int| 0 <= m2 < start.models@.len() && 0 <= c2 < start.models@[m2].chains@.len() implies
                        start.models@[m2].chains@[c2].id != id by {
                        assert(start.models@[m2].chains@.len() == prev.models@[m2].chains@.len());
                        assert(start.models@[m2].chains@[c2].id == prev.models@[m2].chains@[c2].id);
                    }
                }
            },
        }
        i += 1;
    }
    assert(all.subrange(i as int, all.len() as int).len() == 0);
}

proof fn lemma_layout_symmetric(a: Pdb, b: Pdb)
    requires
        same_layout(a, b),
    ensures
        same_layout(b, a),
{
    assert forall|m: int| 0 <= m < b.models@.len() implies (#[trigger] b.models@[m]).chains@.len() == a.models@[m].chains@.len() by {
        assert(a.models@[m].chains@.len() == b.models@[m].chains@.len());
    }
    assert forall|m: int, c: int| 0 <= m < b.models@.len() && 0 <= c < b.models@[m].chains@.len()
        implies (#[trigger] b.models@[m].chains@[c]).id == a.models@[m].chains@[c].id by {
        assert(a.models@[m].chains@.len() == b.models@[m].chains@.len());
        assert(a.models@[m].chains@[c].id == b.models@[m].chains@[c].id);
    }
}

/// Reads a whole input, given as its lines in order, at a strictness level:
/// each line is folded into the state from the start, numbered from 1, then
/// the scan is ended. The decision is made once, over the complete list of
/// diagnostics: with a diagnostic that fails the level only that list is
/// returned, otherwise the structure with it.
pub fn parse(lines: &Vec<String>, level: StrictnessLevel) -> (r: Result<(Pdb, Vec<Diagnostic>), Vec<Diagnostic>>)
    ensures
        exists|states: Seq<Assembler>, pdb: Pdb, errs: Seq<Diagnostic>| {
            &&& states.len() == lines@.len() + 1
            &&& initial(states[0])
            &&& forall|i: int| 0 <= i < lines@.len() ==> #[trigger] line_step(states[i], lines@[i]@, (i + 1) as usize, states[i + 1])
            &&& assembled(states.last(), pdb, errs)
            &&& match r {
                Ok((p, e)) => p == pdb && e@ == errs && !any_fails(errs, level),
                Err(e) => e@ == errs && any_fails(errs, level),
            }
        },
{
    let mut state = Assembler::new();
    let ghost mut states: Seq<Assembler> = seq![state];
    let mut i: usize = 0;
    while i < lines.len()
        invariant
            i <= lines@.len(),
            state.wf(),
            states.len() == i + 1,
            initial(states[0]),
            states.last() == state,
            forall|j: int| 0 <= j < i ==> #[trigger] line_step(states[j], lines@[j]@, (j + 1) as usize, states[j + 1]),
        decreases lines@.len() - i,
    {
        let chars = chars_of(lines[i].as_str());
        let ghost prev = states;
        state.add_line(&chars, i + 1);
        proof {
            states = states.push(state);
            assert(states[i as int] == prev[i as int]);
            assert forall|j: int| 0 <= j < i + 1 implies #[trigger] line_step(states[j], lines@[j]@, (j + 1) as usize, states[j + 1]) by {
                if j < i {
                    assert(states[j] == prev[j]);
                    assert(states[j + 1] == prev[j + 1]);
                }
            }
        }
        i += 1;
    }
    let (pdb, errors) = state.finish();
    if run_fails(&errors, level) {
        Err(errors)
    } else {
        Ok((pdb, errors))
    }
}

} // verus!
