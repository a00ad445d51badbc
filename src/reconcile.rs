use vstd::prelude::*;
use crate::error::{Diagnostic, Issue, Location, Severity};
use crate::lexer::chars_of;
use crate::record::ModresRecord;
use crate::structure::{
    all_printable, ascending, chains_atoms, is_first_chain, is_printable, lemma_chains_update,
    lemma_first_chain_unique, lemma_models_update, lemma_residues_insert, lemma_residues_update,
    model_wf, models_atoms, pdb_wf, residues_atoms, Chain, DatabaseReference, Pdb, Residue,
    SequenceDifference,
};

verus! {

/// One reference-sequence line of a chain.
#[derive(Debug)]
pub struct SequenceFragment {
    pub serial: usize,
    /// The chain's residue total that this line declares.
    pub total: usize,
    pub codes: Vec<[char; 3]>,
}

/// The reference-sequence lines of one chain, in the order read.
#[derive(Debug)]
pub struct ChainSequence {
    pub chain: char,
    pub fragments: Vec<SequenceFragment>,
}

/// The declared codes of the fragments, concatenated in order.
pub open spec fn declared_codes(fs: Seq<SequenceFragment>) -> Seq<[char; 3]>
    decreases fs.len(),
{
    if fs.len() == 0 {
        Seq::empty()
    } else {
        declared_codes(fs.drop_last()) + fs.last().codes@
    }
}

/// A residue synthesised from the declared sequence: no atoms, no
/// modification, and the code declared at its position.
pub open spec fn synthesised(r: Residue, declared: Seq<[char; 3]>, offset: int) -> bool {
    &&& r.atoms@.len() == 0
    &&& r.modification is None
    &&& exists|k: int| 0 <= k < declared.len() && k + offset == r.serial && #[trigger] declared[k] == r.name
}

/// The outcome of merging a declared sequence into a chain: the order is
/// kept, every observed residue stays, and every other residue was
/// synthesised from the declared sequence.
pub open spec fn merged(old_rs: Seq<Residue>, new_rs: Seq<Residue>, declared: Seq<[char; 3]>, offset: int) -> bool {
    &&& ascending(new_rs)
    &&& residues_atoms(new_rs) == residues_atoms(old_rs)
    &&& forall|j: int| 0 <= j < old_rs.len() ==> present(new_rs, #[trigger] old_rs[j])
    &&& forall|i: int| 0 <= i < new_rs.len() ==> present(old_rs, #[trigger] new_rs[i])
        || synthesised(new_rs[i], declared, offset)
}

/// Whether `r` stands in `rs`.
pub open spec fn present(rs: Seq<Residue>, r: Residue) -> bool {
    exists|i: int| 0 <= i < rs.len() && #[trigger] rs[i] == r
}

proof fn lemma_insert_merged(
    old_rs: Seq<Residue>,
    before: Seq<Residue>,
    cursor: int,
    res: Residue,
    declared: Seq<[char; 3]>,
    offset: int,
)
    requires
        merged(old_rs, before, declared, offset),
        0 <= cursor < before.len(),
        forall|i: int| 0 <= i < cursor ==> (#[trigger] before[i]).serial < res.serial,
        res.serial < before[cursor].serial,
        res.atoms@.len() == 0,
        res.modification is None,
        exists|k: int| 0 <= k < declared.len() && k + offset == res.serial && #[trigger] declared[k] == res.name,
    ensures
        merged(old_rs, before.insert(cursor, res), declared, offset),
{
    let after = before.insert(cursor, res);
    lemma_residues_insert(before, cursor, res);
    assert(forall|i: int| 0 <= i < after.len() ==> #[trigger] after[i] == if i < cursor {
        before[i]
    } else if i == cursor {
        res
    } else {
        before[i - 1]
    });
    assert forall|a: int, b: int| 0 <= a < b < after.len() implies #[trigger] after[a].serial < #[trigger] after[b].serial by {
        if a < cursor && b > cursor {
            assert(before[a].serial < before[cursor].serial);
            if b - 1 > cursor {
                assert(before[cursor].serial < before[b - 1].serial);
            }
        }
        if a == cursor && b > cursor + 1 {
            assert(before[cursor].serial < before[b - 1].serial);
        }
    }
    assert forall|j: int| 0 <= j < old_rs.len() implies present(after, #[trigger] old_rs[j]) by {
        assert(present(before, old_rs[j]));
        let i0 = choose|i: int| 0 <= i < before.len() && #[trigger] before[i] == old_rs[j];
        if i0 < cursor {
            assert(after[i0] == old_rs[j]);
        } else {
            assert(after[i0 + 1] == old_rs[j]);
        }
    }
    assert forall|i: int| 0 <= i < after.len() implies present(old_rs, #[trigger] after[i])
        || synthesised(after[i], declared, offset) by {
        if i < cursor {
            assert(after[i] == before[i]);
        } else if i > cursor {
            assert(after[i] == before[i - 1]);
        }
    }
}

/// What the merge reads of a residue: its serial, its name, its atom count.
pub open spec fn shape(r: Residue) -> (usize, [char; 3], nat) {
    (r.serial, r.name, r.atoms@.len())
}

pub open spec fn shapes(rs: Seq<Residue>) -> Seq<(usize, [char; 3], nat)> {
    rs.map_values(|r: Residue| shape(r))
}

/// The walk of the declared codes from index `k` against the residues from
/// index `j`: the residues (by shape) from there on, and the diagnostics.
/// Declared position `k + offset` against the residue's serial: equal, the
/// codes are compared and both move on; smaller, a residue without atoms is
/// made there (when the position is not negative and the code printable) and
/// the declared side moves on; larger, a warning, and the declared side moves
/// on. The walk ends when either side runs out.
pub open spec fn merge_walk(
    declared: Seq<[char; 3]>,
    offset: int,
    id: char,
    rs: Seq<(usize, [char; 3], nat)>,
    k: int,
    j: int,
) -> (Seq<(usize, [char; 3], nat)>, Seq<Diagnostic>)
    decreases declared.len() - k,
{
    if k < 0 || j < 0 || k >= declared.len() || j >= rs.len() {
        (rs.subrange(j, rs.len() as int), Seq::empty())
    } else {
        let p = k + offset;
        let (serial, name, _) = rs[j];
        if p == serial {
            let rest = merge_walk(declared, offset, id, rs, k + 1, j + 1);
            (
                seq![rs[j]] + rest.0,
                (if declared[k]@ != name@ {
                    seq![
                        Diagnostic {
                            severity: Severity::StrictWarning,
                            issue: Issue::SequenceResidueMismatch { chain: id, position: serial },
                            location: Location::Whole,
                        },
                    ]
                } else {
                    Seq::empty()
                }) + rest.1,
            )
        } else if p < serial {
            let rest = merge_walk(declared, offset, id, rs, k + 1, j);
            if p < 0 {
                rest
            } else if all_printable(declared[k]@) {
                (seq![(p as usize, declared[k], 0nat)] + rest.0, rest.1)
            } else {
                (
                    rest.0,
                    seq![
                        Diagnostic {
                            severity: Severity::InvalidatingError,
                            issue: Issue::InvalidCharacters,
                            location: Location::Whole,
                        },
                    ] + rest.1,
                )
            }
        } else {
            let rest = merge_walk(declared, offset, id, rs, k + 1, j);
            (
                rest.0,
                seq![
                    Diagnostic {
                        severity: Severity::StrictWarning,
                        issue: Issue::ResidueOutOfOrder { chain: id, serial },
                        location: Location::Whole,
                    },
                ] + rest.1,
            )
        }
    }
}

pub open spec fn strict_spec(issue: Issue) -> Diagnostic {
    Diagnostic { severity: Severity::StrictWarning, issue, location: Location::Whole }
}

fn strict(issue: Issue) -> (r: Diagnostic)
    ensures
        r == strict_spec(issue),
{
    Diagnostic::new(Severity::StrictWarning, issue, Location::Whole)
}

/// Walks the declared codes against the chain's residues in ascending order,
/// from declared position `offset`. A position equal to the next residue's
/// serial compares the codes (a strict warning when they differ) and moves on
/// to the next residue; a position before it synthesises a residue there; a
/// position after it gives a strict warning and keeps the residue. The walk
/// stops when the residues run out.
#[verifier::rlimit(60)]
#[verifier::spinoff_prover]
pub fn merge_sequence(chain: &mut Chain, declared: &Vec<[char; 3]>, offset: i128, errors: &mut Vec<Diagnostic>)
    requires
        ascending(old(chain).residues@),
        -0x1_0000_0000_0000_0000 <= offset <= 0x1_0000_0000_0000_0000,
    ensures
        merged(old(chain).residues@, final(chain).residues@, declared@, offset as int),
        shapes(final(chain).residues@) == merge_walk(declared@, offset as int, old(chain).id, shapes(old(chain).residues@), 0, 0).0,
        final(errors)@ == old(errors)@ + merge_walk(declared@, offset as int, old(chain).id, shapes(old(chain).residues@), 0, 0).1,
        final(chain).id == old(chain).id,
        final(chain).database_reference == old(chain).database_reference,
{
    let ghost old_rs = chain.residues@;
    let ghost old_errors = errors@;
    let ghost rs = shapes(old_rs);
    let ghost whole = merge_walk(declared@, offset as int, chain.id, rs, 0, 0);
    let ghost mut j: int = 0;
    let mut cursor: usize = 0;
    let mut k: usize = 0;
    assert(old_rs.subrange(0, old_rs.len() as int) =~= old_rs);
    assert(shapes(chain.residues@.subrange(0, 0)) + whole.0 =~= whole.0);
    assert(errors@.subrange(old_errors.len() as int, errors@.len() as int) + whole.1 =~= whole.1);
    assert forall|j: int| 0 <= j < old_rs.len() implies present(old_rs, #[trigger] old_rs[j]) by {
        assert(old_rs[j] == old_rs[j]);
    }
    while k < declared.len()
        invariant
            k <= declared@.len(),
            -0x1_0000_0000_0000_0000 <= offset <= 0x1_0000_0000_0000_0000,
            cursor <= chain.residues@.len(),
            chain.id == old(chain).id,
            chain.database_reference == old(chain).database_reference,
            merged(old_rs, chain.residues@, declared@, offset as int),
            forall|i: int| 0 <= i < cursor ==> (#[trigger] chain.residues@[i]).serial < k + offset,
            old_errors.len() <= errors@.len(),
            forall|i: int| 0 <= i < old_errors.len() ==> errors@[i] == old_errors[i],
            0 <= j <= old_rs.len(),
            rs == shapes(old_rs),
            whole == merge_walk(declared@, offset as int, old(chain).id, rs, 0, 0),
            chain.residues@.subrange(cursor as int, chain.residues@.len() as int) == old_rs.subrange(j, old_rs.len() as int),
            shapes(chain.residues@.subrange(0, cursor as int)) + merge_walk(declared@, offset as int, old(chain).id, rs, k as int, j).0 == whole.0,
            errors@.subrange(old_errors.len() as int, errors@.len() as int) + merge_walk(declared@, offset as int, old(chain).id, rs, k as int, j).1 == whole.1,
        ensures
            merged(old_rs, chain.residues@, declared@, offset as int),
            chain.id == old(chain).id,
            chain.database_reference == old(chain).database_reference,
            old_errors.len() <= errors@.len(),
            forall|i: int| 0 <= i < old_errors.len() ==> errors@[i] == old_errors[i],
            0 <= j <= old_rs.len(),
            cursor <= chain.residues@.len(),
            k >= declared@.len() || cursor >= chain.residues@.len(),
            chain.residues@.subrange(cursor as int, chain.residues@.len() as int) == old_rs.subrange(j, old_rs.len() as int),
            shapes(chain.residues@.subrange(0, cursor as int)) + merge_walk(declared@, offset as int, old(chain).id, rs, k as int, j).0 == whole.0,
            errors@.subrange(old_errors.len() as int, errors@.len() as int) + merge_walk(declared@, offset as int, old(chain).id, rs, k as int, j).1 == whole.1,
        decreases declared@.len() - k,
    {
        let ghost cur = chain.residues@;
        let ghost rest_before = merge_walk(declared@, offset as int, old(chain).id, rs, k as int, j);
        let ghost errs_before = errors@;
        if cursor >= chain.residues.len() {
            break;
        }
        proof {
            assert(cur.subrange(cursor as int, cur.len() as int).len() == old_rs.subrange(j, old_rs.len() as int).len());
            assert(old_rs[j] == cur[cursor as int]) by {
                assert(cur.subrange(cursor as int, cur.len() as int)[0] == old_rs.subrange(j, old_rs.len() as int)[0]);
            }
            assert(rs[j] == shape(cur[cursor as int]));
        }
        let position: i128 = k as i128 + offset;
        let serial = chain.residues[cursor].serial;
        let code = declared[k];
        let ghost next = merge_walk(declared@, offset as int, old(chain).id, rs, k as int + 1, j + 1);
        let ghost stay = merge_walk(declared@, offset as int, old(chain).id, rs, k as int + 1, j);
        if position == serial as i128 {
            let name = chain.residues[cursor].name;
            let differs = code[0] != name[0] || code[1] != name[1] || code[2] != name[2];
            if differs {
                errors.push(strict(Issue::SequenceResidueMismatch { chain: chain.id, position: serial }));
            }
            proof {
                if !differs {
                    assert(code@ =~= name@);
                } else {
                    assert(code@ != name@) by {
                        if code@ == name@ {
                            assert(code@[0] == name@[0] && code@[1] == name@[1] && code@[2] == name@[2]);
                        }
                    }
                }
                assert(declared@[k as int] == code);
                assert(rest_before.0 == seq![rs[j]] + next.0);
                assert(shapes(cur.subrange(0, cursor as int + 1)) =~= shapes(cur.subrange(0, cursor as int)) + seq![rs[j]]);
                assert(shapes(cur.subrange(0, cursor as int + 1)) + next.0 =~= shapes(cur.subrange(0, cursor as int)) + rest_before.0);
                assert(errors@.subrange(old_errors.len() as int, errors@.len() as int) + next.1 =~= errs_before.subrange(old_errors.len() as int, errs_before.len() as int) + rest_before.1);
                assert(cur.subrange(cursor as int + 1, cur.len() as int) =~= old_rs.subrange(j + 1, old_rs.len() as int)) by {
                    assert(cur.subrange(cursor as int + 1, cur.len() as int) =~= cur.subrange(cursor as int, cur.len() as int).drop_first());
                    assert(old_rs.subrange(j + 1, old_rs.len() as int) =~= old_rs.subrange(j, old_rs.len() as int).drop_first());
                }
                j = j + 1;
            }
            cursor += 1;
        } else if position < serial as i128 {
            if position >= 0 {
                match Residue::new(position as usize, code) {
                    Some(res) => {
                        let ghost before = chain.residues@;
                        proof {
                            assert(declared@[k as int] == code);
                            lemma_insert_merged(old_rs, before, cursor as int, res, declared@, offset as int);
                        }
                        chain.residues.insert(cursor, res);
                        proof {
                            let after = chain.residues@;
                            assert(rest_before.0 == seq![(position as usize, code, 0nat)] + stay.0);
                            assert(shape(res) == (position as usize, code, 0nat));
                            assert(after.subrange(0, cursor as int + 1) =~= cur.subrange(0, cursor as int).push(res));
                            assert(shapes(after.subrange(0, cursor as int + 1)) =~= shapes(cur.subrange(0, cursor as int)) + seq![shape(res)]);
                            assert(shapes(after.subrange(0, cursor as int + 1)) + stay.0 =~= shapes(cur.subrange(0, cursor as int)) + rest_before.0);
                            assert(after.subrange(cursor as int + 1, after.len() as int) =~= cur.subrange(cursor as int, cur.len() as int));
                        }
                        cursor += 1;
                    },
                    None => {
                        errors.push(Diagnostic::new(Severity::InvalidatingError, Issue::InvalidCharacters, Location::Whole));
                        proof {
                            assert(declared@[k as int] == code);
                            assert(errors@.subrange(old_errors.len() as int, errors@.len() as int) + stay.1 =~= errs_before.subrange(old_errors.len() as int, errs_before.len() as int) + rest_before.1);
                        }
                    },
                }
            }
        } else {
            errors.push(strict(Issue::ResidueOutOfOrder { chain: chain.id, serial }));
            proof {
                assert(errors@.subrange(old_errors.len() as int, errors@.len() as int) + stay.1 =~= errs_before.subrange(old_errors.len() as int, errs_before.len() as int) + rest_before.1);
            }
        }
        k += 1;
    }
    proof {
        let cur = chain.residues@;
        let rest = merge_walk(declared@, offset as int, old(chain).id, rs, k as int, j);
        assert(cur.subrange(cursor as int, cur.len() as int).len() == old_rs.subrange(j, old_rs.len() as int).len());
        assert(rest.1 =~= Seq::<Diagnostic>::empty());
        assert(rest.0 =~= shapes(cur.subrange(cursor as int, cur.len() as int)));
        assert(shapes(cur) =~= shapes(cur.subrange(0, cursor as int)) + shapes(cur.subrange(cursor as int, cur.len() as int)));
        assert(errors@ =~= old_errors + errors@.subrange(old_errors.len() as int, errors@.len() as int));
        assert(errors@.subrange(old_errors.len() as int, errors@.len() as int) =~= whole.1);
    }
}


/// The number of differences that insert a residue ahead of the database span.
pub open spec fn leading_insertions(ds: Seq<SequenceDifference>, start: usize) -> int
    decreases ds.len(),
{
    if ds.len() == 0 {
        0
    } else {
        leading_insertions(ds.drop_last(), start) + if ds.last().database_residue is None
            && ds.last().residue.1 < start {
            1int
        } else {
            0int
        }
    }
}

/// The position of the first declared code: the database span's start less
/// the residues inserted ahead of it, or 1 without a database reference.
pub open spec fn sequence_offset(r: Option<DatabaseReference>) -> int {
    match r {
        Some(db) => db.pdb_position.start - leading_insertions(db.differences@, db.pdb_position.start),
        None => 1,
    }
}

fn offset_of(reference: &Option<DatabaseReference>) -> (r: i128)
    ensures
        r == sequence_offset(*reference),
        -0x1_0000_0000_0000_0000 <= r <= 0x1_0000_0000_0000_0000,
{
    match reference {
        None => 1,
        Some(db) => {
            let start = db.pdb_position.start;
            let mut offset: i128 = start as i128;
            let mut i: usize = 0;
            while i < db.differences.len()
                invariant
                    i <= db.differences@.len(),
                    offset == start - leading_insertions(db.differences@.subrange(0, i as int), start),
                    0 <= leading_insertions(db.differences@.subrange(0, i as int), start) <= i,
                decreases db.differences@.len() - i,
            {
                assert(db.differences@.subrange(0, i as int + 1).drop_last() =~= db.differences@.subrange(0, i as int));
                let d = &db.differences[i];
                if d.database_residue.is_none() && d.residue.1 < start {
                    offset = offset - 1;
                }
                i += 1;
            }
            assert(db.differences@.subrange(0, i as int) =~= db.differences@);
            offset
        },
    }
}

/// The checks of a chain's fragments, in order: each serial must be its
/// place counted from 1, and each declared total must equal the first
/// fragment's. Gives that total and the diagnostics.
pub open spec fn fragment_checks(id: char, fs: Seq<SequenceFragment>) -> (usize, Seq<Diagnostic>)
    decreases fs.len(),
{
    if fs.len() == 0 {
        (0, Seq::empty())
    } else {
        let (total, found) = fragment_checks(id, fs.drop_last());
        let f = fs.last();
        let gap = if f.serial != fs.len() {
            seq![
                Diagnostic {
                    severity: Severity::StrictWarning,
                    issue: Issue::SequenceSerialGap { chain: id, serial: f.serial },
                    location: Location::Whole,
                },
            ]
        } else {
            Seq::empty()
        };
        if fs.len() == 1 {
            (f.total, found + gap)
        } else if total != f.total {
            (
                total,
                found + gap + seq![
                    Diagnostic {
                        severity: Severity::StrictWarning,
                        issue: Issue::SequenceTotalInconsistent { chain: id, serial: f.serial },
                        location: Location::Whole,
                    },
                ],
            )
        } else {
            (total, found + gap)
        }
    }
}

/// A strict warning, for the whole input, when `failed` holds.
pub open spec fn warn_if(failed: bool, issue: Issue) -> Seq<Diagnostic> {
    if failed {
        seq![Diagnostic { severity: Severity::StrictWarning, issue, location: Location::Whole }]
    } else {
        Seq::empty()
    }
}

/// All the diagnostics of reconciling a chain, given its residues before
/// and after.
pub open spec fn reconcile_diagnostics(
    id: char,
    fs: Seq<SequenceFragment>,
    reference: Option<DatabaseReference>,
    before: Seq<Residue>,
    after_len: nat,
) -> Seq<Diagnostic> {
    let declared = declared_codes(fs);
    let (total, checks) = fragment_checks(id, fs);
    let offset = sequence_offset(reference);
    checks + warn_if(declared.len() != total, Issue::SequenceLengthMismatch { chain: id })
        + warn_if(
        reference matches Some(db) && db.pdb_position.end - offset + 1 != total,
        Issue::SequenceReferenceMismatch { chain: id },
    ) + merge_walk(declared, offset, id, shapes(before), 0, 0).1 + warn_if(
        declared.len() != after_len,
        Issue::SequenceChainLengthMismatch {
            chain: id,
            declared: declared.len() as usize,
            found: after_len as usize,
        },
    )
}

/// Reconciles a chain with its declared sequence: checks the fragments'
/// serials and totals, the declared length, the database span, merges the
/// declared codes into the chain, and checks the chain's final length.
pub fn reconcile_chain(chain: &mut Chain, sequence: &ChainSequence, errors: &mut Vec<Diagnostic>)
    requires
        ascending(old(chain).residues@),
    ensures
        merged(
            old(chain).residues@,
            final(chain).residues@,
            declared_codes(sequence.fragments@),
            sequence_offset(old(chain).database_reference),
        ),
        shapes(final(chain).residues@) == merge_walk(
            declared_codes(sequence.fragments@),
            sequence_offset(old(chain).database_reference),
            old(chain).id,
            shapes(old(chain).residues@),
            0,
            0,
        ).0,
        final(errors)@ == old(errors)@ + reconcile_diagnostics(
            old(chain).id,
            sequence.fragments@,
            old(chain).database_reference,
            old(chain).residues@,
            final(chain).residues@.len(),
        ),
        final(chain).id == old(chain).id,
        final(chain).database_reference == old(chain).database_reference,
{
    let id = chain.id;
    let fragments = &sequence.fragments;
    let mut declared: Vec<[char; 3]> = Vec::new();
    let mut total: usize = 0;
    let ghost old_errors = errors@;
    let mut i: usize = 0;
    while i < fragments.len()
        invariant
            i <= fragments@.len(),
            declared@ == declared_codes(fragments@.subrange(0, i as int)),
            (total, errors@) == (fragment_checks(id, fragments@.subrange(0, i as int)).0, old_errors + fragment_checks(id, fragments@.subrange(0, i as int)).1),
        decreases fragments@.len() - i,
    {
        let f = &fragments[i];
        let ghost prev = errors@;
        assert(fragments@.subrange(0, i as int + 1).drop_last() =~= fragments@.subrange(0, i as int));
        assert(fragments@.subrange(0, i as int + 1).last() == *f);
        if f.serial != i + 1 {
            errors.push(strict(Issue::SequenceSerialGap { chain: id, serial: f.serial }));
        }
        let ghost mid = errors@;
        if i == 0 {
            total = f.total;
        } else if total != f.total {
            errors.push(strict(Issue::SequenceTotalInconsistent { chain: id, serial: f.serial }));
        }
        proof {
            let gap = if f.serial != i + 1 {
                seq![strict_spec(Issue::SequenceSerialGap { chain: id, serial: f.serial })]
            } else {
                Seq::<Diagnostic>::empty()
            };
            assert(mid =~= prev + gap);
            assert(errors@ =~= old_errors + fragment_checks(id, fragments@.subrange(0, i as int + 1)).1);
        }
        let ghost before = declared@;
        let mut j: usize = 0;
        while j < f.codes.len()
            invariant
                j <= f.codes@.len(),
                declared@ == before + f.codes@.subrange(0, j as int),
            decreases f.codes@.len() - j,
        {
            declared.push(f.codes[j]);
            assert(declared@ =~= before + f.codes@.subrange(0, j as int + 1));
            j += 1;
        }
        assert(f.codes@.subrange(0, j as int) =~= f.codes@);
        i += 1;
    }
    assert(fragments@.subrange(0, i as int) =~= fragments@);
    let ghost e0 = errors@;
    if declared.len() != total {
        errors.push(strict(Issue::SequenceLengthMismatch { chain: id }));
    }
    let ghost e1 = errors@;
    let offset = offset_of(&chain.database_reference);
    match &chain.database_reference {
        Some(db) => {
            if db.pdb_position.end as i128 - offset + 1 != total as i128 {
                errors.push(strict(Issue::SequenceReferenceMismatch { chain: id }));
            }
        },
        None => {},
    }
    let ghost e2 = errors@;
    merge_sequence(chain, &declared, offset, errors);
    let ghost e3 = errors@;
    if declared.len() != chain.residues.len() {
        errors.push(
            strict(
                Issue::SequenceChainLengthMismatch {
                    chain: id,
                    declared: declared.len(),
                    found: chain.residues.len(),
                },
            ),
        );
    }
    proof {
        assert(e1 =~= e0 + warn_if(declared@.len() != total, Issue::SequenceLengthMismatch { chain: id }));
        assert(e2 =~= e1 + warn_if(
            old(chain).database_reference matches Some(db) && db.pdb_position.end - offset + 1 != total,
            Issue::SequenceReferenceMismatch { chain: id },
        ));
        assert(errors@ =~= old_errors + reconcile_diagnostics(
            id,
            sequence.fragments@,
            old(chain).database_reference,
            old(chain).residues@,
            chain.residues@.len(),
        ));
    }
}

/// The residues, by shape, that reconciling the declared sequence `e` with
/// `chain` leaves.
pub open spec fn reconciled_shapes(e: ChainSequence, chain: Chain) -> Seq<(usize, [char; 3], nat)> {
    merge_walk(
        declared_codes(e.fragments@),
        sequence_offset(chain.database_reference),
        chain.id,
        shapes(chain.residues@),
        0,
        0,
    ).0
}

/// The diagnostics of reconciling the declared sequence `e` with the first
/// chain of its id in `p`; none when `p` has no such chain.
pub open spec fn entry_diagnostics(p: Pdb, e: ChainSequence) -> Seq<Diagnostic> {
    if exists|m: int, c: int| is_first_chain(p, e.chain, m, c) {
        let (m, c) = choose|m: int, c: int| is_first_chain(p, e.chain, m, c);
        let chain = p.models@[m].chains@[c];
        reconcile_diagnostics(
            e.chain,
            e.fragments@,
            chain.database_reference,
            chain.residues@,
            reconciled_shapes(e, chain).len(),
        )
    } else {
        Seq::empty()
    }
}

/// The diagnostics of reconciling each declared sequence in order.
pub open spec fn seqres_diagnostics(p: Pdb, es: Seq<ChainSequence>) -> Seq<Diagnostic>
    decreases es.len(),
{
    if es.len() == 0 {
        Seq::empty()
    } else {
        seqres_diagnostics(p, es.drop_last()) + entry_diagnostics(p, es.last())
    }
}

/// The two structures have the same models and chains, with the same ids.
pub open spec fn same_layout(a: Pdb, b: Pdb) -> bool {
    &&& a.models@.len() == b.models@.len()
    &&& forall|m: int| 0 <= m < a.models@.len() ==> (#[trigger] a.models@[m]).chains@.len() == b.models@[m].chains@.len()
    &&& forall|m: int, c: int| 0 <= m < a.models@.len() && 0 <= c < a.models@[m].chains@.len()
        ==> (#[trigger] a.models@[m].chains@[c]).id == b.models@[m].chains@[c].id
}

pub proof fn lemma_first_chain_layout(a: Pdb, b: Pdb, id: char, m: int, c: int)
    requires
        same_layout(a, b),
        is_first_chain(a, id, m, c),
    ensures
        is_first_chain(b, id, m, c),
{
    assert forall|m2: int, c2: int|
        0 <= m2 < b.models@.len() && 0 <= c2 < b.models@[m2].chains@.len() && (m2 < m || (m2 == m
            && c2 < c)) implies (#[trigger] b.models@[m2].chains@[c2]).id != id by {
        assert(a.models@[m2].chains@.len() == b.models@[m2].chains@.len());
        assert(a.models@[m2].chains@[c2].id == b.models@[m2].chains@[c2].id);
    }
    assert(a.models@[m].chains@.len() == b.models@[m].chains@.len());
    assert(a.models@[m].chains@[c].id == b.models@[m].chains@[c].id);
}

/// What reconciling the declared sequences `seqs` with `before` gives:
/// the structure `after` and the diagnostics `diags`.
pub open spec fn sequences_reconciled(before: Pdb, seqs: Seq<ChainSequence>, after: Pdb, diags: Seq<Diagnostic>) -> bool {
    &&& pdb_wf(after)
    &&& models_atoms(after.models@) == models_atoms(before.models@)
    &&& same_layout(before, after)
    &&& after.remarks == before.remarks
    &&& diags == seqres_diagnostics(before, seqs)
    &&& forall|i: int, m: int, c: int|
            0 <= i < seqs.len() && is_first_chain(before, #[trigger] seqs[i].chain, m, c)
                ==> shapes(#[trigger] after.models@[m].chains@[c].residues@) == reconciled_shapes(
                seqs[i],
                before.models@[m].chains@[c],
            ) && merged(
                before.models@[m].chains@[c].residues@,
                after.models@[m].chains@[c].residues@,
                declared_codes(seqs[i].fragments@),
                sequence_offset(before.models@[m].chains@[c].database_reference),
            ) && after.models@[m].chains@[c].database_reference == before.models@[m].chains@[c].database_reference
    &&& forall|m: int, c: int|
            0 <= m < before.models@.len() && 0 <= c < before.models@[m].chains@.len() && (forall|i: int|
                0 <= i < seqs.len() ==> !is_first_chain(before, #[trigger] seqs[i].chain, m, c))
                ==> #[trigger] after.models@[m].chains@[c] == before.models@[m].chains@[c]
    &&& forall|m: int| 0 <= m < before.models@.len() ==> chains_atoms(#[trigger] after.models@[m].chains@)
            == chains_atoms(before.models@[m].chains@)
}

/// Reconciles each declared sequence with the first chain of its id, over
/// the models in order. Sequences of chains that were not read are passed over.
pub fn validate_seqres(pdb: &mut Pdb, sequences: &Vec<ChainSequence>) -> (r: Vec<Diagnostic>)
    requires
        pdb_wf(*old(pdb)),
        forall|i: int, j: int| 0 <= i < j < sequences@.len() ==> #[trigger] sequences@[i].chain != #[trigger] sequences@[j].chain,
    ensures
        sequences_reconciled(*old(pdb), sequences@, *final(pdb), r@),
{
    let ghost start = *pdb;
    let mut errors: Vec<Diagnostic> = Vec::new();
    let mut i: usize = 0;
    while i < sequences.len()
        invariant
            i <= sequences@.len(),
            start == *old(pdb),
            forall|a: int, b: int| 0 <= a < b < sequences@.len() ==> #[trigger] sequences@[a].chain != #[trigger] sequences@[b].chain,
            pdb_wf(*pdb),
            models_atoms(pdb.models@) == models_atoms(start.models@),
            same_layout(start, *pdb),
            pdb.remarks == start.remarks,
            errors@ == seqres_diagnostics(start, sequences@.subrange(0, i as int)),
            forall|i2: int, m: int, c: int|
                0 <= i2 < i && is_first_chain(start, #[trigger] sequences@[i2].chain, m, c)
                    ==> shapes(#[trigger] pdb.models@[m].chains@[c].residues@) == reconciled_shapes(
                    sequences@[i2],
                    start.models@[m].chains@[c],
                ) && merged(
                    start.models@[m].chains@[c].residues@,
                    pdb.models@[m].chains@[c].residues@,
                    declared_codes(sequences@[i2].fragments@),
                    sequence_offset(start.models@[m].chains@[c].database_reference),
                ) && pdb.models@[m].chains@[c].database_reference == start.models@[m].chains@[c].database_reference,
            forall|m: int| 0 <= m < start.models@.len() ==> chains_atoms(#[trigger] pdb.models@[m].chains@)
                == chains_atoms(start.models@[m].chains@),
            forall|m: int, c: int|
                0 <= m < start.models@.len() && 0 <= c < start.models@[m].chains@.len() && (forall|i2: int|
                    0 <= i2 < i ==> !is_first_chain(start, #[trigger] sequences@[i2].chain, m, c))
                    ==> #[trigger] pdb.models@[m].chains@[c] == start.models@[m].chains@[c],
        decreases sequences@.len() - i,
    {
        let sequence = &sequences[i];
        assert(sequences@.subrange(0, i as int + 1).drop_last() =~= sequences@.subrange(0, i as int));
        assert(sequences@.subrange(0, i as int + 1).last() == *sequence);
        match pdb.find_chain(sequence.chain) {
            Some((m, c)) => {
                let ghost before = *pdb;
                proof {
                    assert(same_layout(before, start)) by {
                        assert forall|m2: int| 0 <= m2 < before.models@.len() implies (#[trigger] before.models@[m2]).chains@.len() == start.models@[m2].chains@.len() by {
                            assert(start.models@[m2].chains@.len() == before.models@[m2].chains@.len());
                        }
                        assert forall|m2: int, c2: int| 0 <= m2 < before.models@.len() && 0 <= c2 < before.models@[m2].chains@.len()
                            implies (#[trigger] before.models@[m2].chains@[c2]).id == start.models@[m2].chains@[c2].id by {
                            assert(start.models@[m2].chains@.len() == before.models@[m2].chains@.len());
                            assert(start.models@[m2].chains@[c2].id == before.models@[m2].chains@[c2].id);
                        }
                    }
                    lemma_first_chain_layout(before, start, sequence.chain, m as int, c as int);
                    assert forall|i2: int| 0 <= i2 < i implies !is_first_chain(start, #[trigger] sequences@[i2].chain, m as int, c as int) by {
                        assert(sequences@[i2].chain != sequences@[i as int].chain);
                    }
                    assert(before.models@[m as int].chains@[c as int] == start.models@[m as int].chains@[c as int]);
                    let (m3, c3) = choose|m3: int, c3: int| is_first_chain(start, sequence.chain, m3, c3);
                    lemma_first_chain_unique(start, sequence.chain, m as int, c as int, m3, c3);
                }
                let mut chain = pdb.swap_chain(m, c, Chain::new(sequence.chain));
                assert(model_wf(before.models@[m as int]));
                let ghost old_errors = errors@;
                reconcile_chain(&mut chain, sequence, &mut errors);
                let _ = pdb.swap_chain(m, c, chain);
                proof {
                    let old_model = before.models@[m as int];
                    let new_model = pdb.models@[m as int];
                    assert(new_model.chains@ =~= old_model.chains@.update(c as int, chain));
                    lemma_chains_update(old_model.chains@, c as int, chain);
                    lemma_models_update(before.models@, m as int, new_model);
                    assert(pdb.models@ =~= before.models@.update(m as int, new_model));
                    assert(model_wf(new_model));
                    assert(shapes(chain.residues@).len() == chain.residues@.len());
                    assert forall|m2: int| 0 <= m2 < start.models@.len() implies chains_atoms(#[trigger] pdb.models@[m2].chains@)
                        == chains_atoms(start.models@[m2].chains@) by {
                        if m2 != m {
                            assert(pdb.models@[m2] == before.models@[m2]);
                        }
                    }
                    assert(errors@ =~= seqres_diagnostics(start, sequences@.subrange(0, i as int + 1)));
                    assert forall|i2: int, m2: int, c2: int|
                        0 <= i2 < i + 1 && is_first_chain(start, #[trigger] sequences@[i2].chain, m2, c2)
                            implies shapes(#[trigger] pdb.models@[m2].chains@[c2].residues@) == reconciled_shapes(
                            sequences@[i2],
                            start.models@[m2].chains@[c2],
                        ) by {
                        if i2 == i {
                            lemma_first_chain_unique(start, sequence.chain, m as int, c as int, m2, c2);
                        } else {
                            assert(sequences@[i2].chain != sequences@[i as int].chain);
                            assert(!(m2 == m && c2 == c));
                            if m2 != m {
                                assert(pdb.models@[m2] == before.models@[m2]);
                            } else {
                                assert(pdb.models@[m2].chains@[c2] == before.models@[m2].chains@[c2]);
                            }
                        }
                    }
                    assert forall|m2: int, c2: int|
                        0 <= m2 < start.models@.len() && 0 <= c2 < start.models@[m2].chains@.len() && (forall|i2: int|
                            0 <= i2 < i + 1 ==> !is_first_chain(start, #[trigger] sequences@[i2].chain, m2, c2))
                            implies #[trigger] pdb.models@[m2].chains@[c2] == start.models@[m2].chains@[c2] by {
                        assert(!is_first_chain(start, sequences@[i as int].chain, m2, c2));
                        assert(!(m2 == m && c2 == c));
                        assert(forall|i2: int| 0 <= i2 < i ==> !is_first_chain(start, #[trigger] sequences@[i2].chain, m2, c2));
                        if m2 != m {
                            assert(pdb.models@[m2] == before.models@[m2]);
                        } else {
                            assert(pdb.models@[m2].chains@[c2] == before.models@[m2].chains@[c2]);
                        }
                    }
                    assert(same_layout(start, *pdb)) by {
                        assert forall|m2: int| 0 <= m2 < start.models@.len() implies (#[trigger] start.models@[m2]).chains@.len() == pdb.models@[m2].chains@.len() by {
                            assert(start.models@[m2].chains@.len() == before.models@[m2].chains@.len());
                        }
                        assert forall|m2: int, c2: int| 0 <= m2 < start.models@.len() && 0 <= c2 < start.models@[m2].chains@.len()
                            implies (#[trigger] start.models@[m2].chains@[c2]).id == pdb.models@[m2].chains@[c2].id by {
                            assert(start.models@[m2].chains@.len() == before.models@[m2].chains@.len());
                            assert(start.models@[m2].chains@[c2].id == before.models@[m2].chains@[c2].id);
                        }
                    }
                }
            },
            None => {
                proof {
                    assert(!exists|m: int, c: int| is_first_chain(start, sequence.chain, m, c)) by {
                        if exists|m: int, c: int| is_first_chain(start, sequence.chain, m, c) {
                            let (m, c) = choose|m: int, c: int| is_first_chain(start, sequence.chain, m, c);
                            assert(start.models@[m].chains@.len() == pdb.models@[m].chains@.len());
                            assert(start.models@[m].chains@[c].id == pdb.models@[m].chains@[c].id);
                        }
                    }
                    assert(errors@ =~= seqres_diagnostics(start, sequences@.subrange(0, i as int + 1)));
                    assert forall|m2: int, c2: int|
                        0 <= m2 < start.models@.len() && 0 <= c2 < start.models@[m2].chains@.len() && (forall|i2: int|
                            0 <= i2 < i + 1 ==> !is_first_chain(start, #[trigger] sequences@[i2].chain, m2, c2))
                            implies #[trigger] pdb.models@[m2].chains@[c2] == start.models@[m2].chains@[c2] by {
                        assert(forall|i2: int| 0 <= i2 < i ==> !is_first_chain(start, #[trigger] sequences@[i2].chain, m2, c2));
                    }
                }
            },
        }
        i += 1;
    }
    assert(sequences@.subrange(0, i as int) =~= sequences@);
    errors
}

/// The two structures have the same chains, holding residues of the same
/// serials and names in the same places.
pub open spec fn same_residues(a: Pdb, b: Pdb) -> bool {
    &&& same_layout(a, b)
    &&& forall|m: int, c: int| 0 <= m < a.models@.len() && 0 <= c < a.models@[m].chains@.len()
        ==> (#[trigger] a.models@[m].chains@[c]).residues@.len() == b.models@[m].chains@[c].residues@.len()
    &&& forall|m: int, c: int, k: int| 0 <= m < a.models@.len() && 0 <= c < a.models@[m].chains@.len() && 0 <= k < a.models@[m].chains@[c].residues@.len()
        ==> (#[trigger] a.models@[m].chains@[c].residues@[k]).serial == b.models@[m].chains@[c].residues@[k].serial
        && a.models@[m].chains@[c].residues@[k].name == b.models@[m].chains@[c].residues@[k].name
}

/// Whether chain `c` of model `m` holds a residue of this serial and name.
pub open spec fn holds_residue(p: Pdb, m: int, c: int, serial: usize, name: [char; 3]) -> bool {
    exists|k: int| 0 <= k < p.models@[m].chains@[c].residues@.len()
        && (#[trigger] p.models@[m].chains@[c].residues@[k]).serial == serial
        && p.models@[m].chains@[c].residues@[k].name == name
}

/// What applying a modification read on line `n` to `p` reports: the chain
/// or the residue it names is missing, or its standard name or comment holds
/// characters outside printable ASCII; nothing when it applies.
pub open spec fn modification_outcome(p: Pdb, n: usize, md: ModresRecord) -> Option<Diagnostic> {
    if !exists|m: int, c: int| is_first_chain(p, md.chain, m, c) {
        Some(
            Diagnostic {
                severity: Severity::InvalidatingError,
                issue: Issue::ModifiedChainNotFound { chain: md.chain },
                location: Location::Line { line: n },
            },
        )
    } else {
        let (m, c) = choose|m: int, c: int| is_first_chain(p, md.chain, m, c);
        if !holds_residue(p, m, c, md.serial, md.residue_name) {
            Some(
                Diagnostic {
                    severity: Severity::InvalidatingError,
                    issue: Issue::ModifiedResidueNotFound { chain: md.chain, serial: md.serial },
                    location: Location::Line { line: n },
                },
            )
        } else if !(all_printable(md.standard_name@) && all_printable(md.comment@)) {
            Some(
                Diagnostic {
                    severity: Severity::InvalidatingError,
                    issue: Issue::InvalidCharacters,
                    location: Location::Line { line: n },
                },
            )
        } else {
            None
        }
    }
}

proof fn lemma_outcome_same(a: Pdb, b: Pdb, n: usize, md: ModresRecord)
    requires
        same_residues(a, b),
    ensures
        modification_outcome(a, n, md) == modification_outcome(b, n, md),
{
    assert(same_layout(b, a)) by {
        assert forall|m: int| 0 <= m < b.models@.len() implies (#[trigger] b.models@[m]).chains@.len() == a.models@[m].chains@.len() by {
            assert(a.models@[m].chains@.len() == b.models@[m].chains@.len());
        }
        assert forall|m: int, c: int| 0 <= m < b.models@.len() && 0 <= c < b.models@[m].chains@.len()
            implies (#[trigger] b.models@[m].chains@[c]).id == a.models@[m].chains@[c].id by {
            assert(a.models@[m].chains@.len() == b.models@[m].chains@.len());
            assert(a.models@[m].chains@[c].id == b.models@[m].chains@[c].id);
        }
    }
    if exists|m: int, c: int| is_first_chain(a, md.chain, m, c) {
        let (m, c) = choose|m: int, c: int| is_first_chain(a, md.chain, m, c);
        lemma_first_chain_layout(a, b, md.chain, m, c);
        let (m2, c2) = choose|m2: int, c2: int| is_first_chain(b, md.chain, m2, c2);
        lemma_first_chain_unique(b, md.chain, m, c, m2, c2);
        assert(a.models@[m].chains@[c].residues@.len() == b.models@[m].chains@[c].residues@.len());
        if holds_residue(a, m, c, md.serial, md.residue_name) {
            let k = choose|k: int| 0 <= k < a.models@[m].chains@[c].residues@.len()
                && (#[trigger] a.models@[m].chains@[c].residues@[k]).serial == md.serial
                && a.models@[m].chains@[c].residues@[k].name == md.residue_name;
            assert(b.models@[m].chains@[c].residues@[k].serial == md.serial);
        }
        if holds_residue(b, m, c, md.serial, md.residue_name) {
            let k = choose|k: int| 0 <= k < b.models@[m].chains@[c].residues@.len()
                && (#[trigger] b.models@[m].chains@[c].residues@[k]).serial == md.serial
                && b.models@[m].chains@[c].residues@[k].name == md.residue_name;
            assert(a.models@[m].chains@[c].residues@[k].serial == md.serial);
        }
    } else {
        if exists|m: int, c: int| is_first_chain(b, md.chain, m, c) {
            let (m, c) = choose|m: int, c: int| is_first_chain(b, md.chain, m, c);
            lemma_first_chain_layout(b, a, md.chain, m, c);
        }
    }
}

/// Residue `k` of chain `c` of model `m` carries the modification in `after`
/// (keeping its serial, name and atoms), that chain is the first of the
/// modification's chain id, and every other residue is as in `before`.
pub open spec fn modified_at(before: Pdb, after: Pdb, md: ModresRecord, m: int, c: int, k: int) -> bool {
    &&& is_first_chain(before, md.chain, m, c)
    &&& 0 <= k < before.models@[m].chains@[c].residues@.len()
    &&& carries(after, md, m, c, k)
    &&& after.models@[m].chains@[c].residues@[k].atoms == before.models@[m].chains@[c].residues@[k].atoms
    &&& forall|m2: int, c2: int, k2: int|
        0 <= m2 < before.models@.len() && 0 <= c2 < before.models@[m2].chains@.len() && 0 <= k2
            < before.models@[m2].chains@[c2].residues@.len() && !(m2 == m && c2 == c && k2 == k)
            ==> #[trigger] after.models@[m2].chains@[c2].residues@[k2] == before.models@[m2].chains@[c2].residues@[k2]
}

/// Residue `k` of chain `c` of model `m` has the serial and name that the
/// modification names, and carries its standard name and comment.
pub open spec fn carries(p: Pdb, md: ModresRecord, m: int, c: int, k: int) -> bool {
    &&& 0 <= m < p.models@.len()
    &&& 0 <= c < p.models@[m].chains@.len()
    &&& 0 <= k < p.models@[m].chains@[c].residues@.len()
    &&& p.models@[m].chains@[c].id == md.chain
    &&& p.models@[m].chains@[c].residues@[k].serial == md.serial
    &&& p.models@[m].chains@[c].residues@[k].name == md.residue_name
    &&& p.models@[m].chains@[c].residues@[k].modification matches Some((standard, comment)) && standard
        == md.standard_name && comment@ == md.comment@
}

/// Applies one residue modification read on line `n`: to the residue of that
/// serial and name in the first chain of that id. Returns the diagnostic when
/// the chain or the residue is missing, or when the standard name or the
/// comment holds characters outside printable ASCII.
pub fn apply_modification(pdb: &mut Pdb, n: usize, modification: &ModresRecord) -> (r: Option<Diagnostic>)
    requires
        pdb_wf(*old(pdb)),
    ensures
        pdb_wf(*final(pdb)),
        models_atoms(final(pdb).models@) == models_atoms(old(pdb).models@),
        same_residues(*old(pdb), *final(pdb)),
        final(pdb).remarks == old(pdb).remarks,
        r == modification_outcome(*old(pdb), n, *modification),
        r is Some ==> *final(pdb) == *old(pdb),
        r is None ==> exists|m: int, c: int, k: int| #[trigger] modified_at(*old(pdb), *final(pdb), *modification, m, c, k),
{
    let ghost start = *pdb;
    proof {
        assert(same_residues(start, start));
    }
    let (m, c) = match pdb.find_chain(modification.chain) {
        Some(found) => found,
        None => {
            proof {
                if exists|m: int, c: int| is_first_chain(start, modification.chain, m, c) {
                    let (m, c) = choose|m: int, c: int| is_first_chain(start, modification.chain, m, c);
                    assert(start.models@[m].chains@[c].id == modification.chain);
                }
            }
            return Some(
                Diagnostic::new(
                    Severity::InvalidatingError,
                    Issue::ModifiedChainNotFound { chain: modification.chain },
                    Location::Line { line: n },
                ),
            );
        },
    };
    proof {
        let (m3, c3) = choose|m3: int, c3: int| is_first_chain(start, modification.chain, m3, c3);
        lemma_first_chain_unique(start, modification.chain, m as int, c as int, m3, c3);
    }
    assert(model_wf(pdb.models@[m as int]));
    let (k, found) = pdb.models[m].chains[c].position_of(modification.serial);
    let name = modification.residue_name;
    let ghost rs0 = start.models@[m as int].chains@[c as int].residues@;
    if !found || {
        let have = pdb.models[m].chains[c].residues[k].name;
        have[0] != name[0] || have[1] != name[1] || have[2] != name[2]
    } {
        proof {
            if holds_residue(start, m as int, c as int, modification.serial, name) {
                let k2 = choose|k2: int| 0 <= k2 < rs0.len() && (#[trigger] rs0[k2]).serial == modification.serial && rs0[k2].name == name;
                assert(ascending(rs0));
                if k2 < k {
                    assert(rs0[k2].serial < modification.serial);
                } else if k2 > k {
                    if found {
                        assert(rs0[k as int].serial < rs0[k2].serial);
                    }
                } else {
                    assert(rs0[k as int].name@ == name@);
                    assert(rs0[k as int].name@[0] == name@[0]);
                }
            }
        }
        return Some(
            Diagnostic::new(
                Severity::InvalidatingError,
                Issue::ModifiedResidueNotFound { chain: modification.chain, serial: modification.serial },
                Location::Line { line: n },
            ),
        );
    }
    proof {
        assert(rs0[k as int].name@ =~= name@);
        assert(rs0[k as int].name == name);
        assert(holds_residue(start, m as int, c as int, modification.serial, name));
    }
    let comment_chars = chars_of(modification.comment.as_str());
    if !is_printable(&modification.standard_name) || !is_printable(comment_chars.as_slice()) {
        return Some(
            Diagnostic::new(Severity::InvalidatingError, Issue::InvalidCharacters, Location::Line { line: n }),
        );
    }
    let ghost before = *pdb;
    let mut chain = pdb.swap_chain(m, c, Chain::new(modification.chain));
    let ghost rs = chain.residues@;
    let mut residue = chain.residues.remove(k);
    residue.modification = Some((modification.standard_name, modification.comment.clone()));
    let ghost new_res = residue;
    chain.residues.insert(k, residue);
    assert(chain.residues@ =~= rs.update(k as int, new_res));
    let _ = pdb.swap_chain(m, c, chain);
    proof {
        lemma_residues_update(rs, k as int, new_res);
        assert(ascending(chain.residues@)) by {
            assert(ascending(rs));
            assert(forall|i: int| 0 <= i < rs.len() ==> #[trigger] chain.residues@[i].serial == rs[i].serial);
        }
        let old_model = before.models@[m as int];
        let new_model = pdb.models@[m as int];
        assert(new_model.chains@ =~= old_model.chains@.update(c as int, chain));
        lemma_chains_update(old_model.chains@, c as int, chain);
        lemma_models_update(before.models@, m as int, new_model);
        assert(pdb.models@ =~= before.models@.update(m as int, new_model));
        assert(model_wf(new_model));
        assert(pdb.models@[m as int].chains@[c as int].residues@[k as int] == new_res);
        assert forall|m2: int, c2: int, k2: int|
            0 <= m2 < start.models@.len() && 0 <= c2 < start.models@[m2].chains@.len() && 0 <= k2
                < start.models@[m2].chains@[c2].residues@.len() && !(m2 == m && c2 == c && k2 == k)
                implies #[trigger] pdb.models@[m2].chains@[c2].residues@[k2] == start.models@[m2].chains@[c2].residues@[k2] by {
            if m2 == m && c2 == c {
                assert(pdb.models@[m2].chains@[c2].residues@ == rs.update(k as int, new_res));
            } else if m2 == m {
                assert(pdb.models@[m2].chains@[c2] == start.models@[m2].chains@[c2]);
            }
        }
        assert(modified_at(start, *pdb, *modification, m as int, c as int, k as int));
        assert(same_residues(start, *pdb)) by {
            assert forall|m2: int| 0 <= m2 < start.models@.len() implies (#[trigger] start.models@[m2]).chains@.len() == pdb.models@[m2].chains@.len() by {}
            assert forall|m2: int, c2: int| 0 <= m2 < start.models@.len() && 0 <= c2 < start.models@[m2].chains@.len()
                implies (#[trigger] start.models@[m2].chains@[c2]).id == pdb.models@[m2].chains@[c2].id by {
                if m2 == m && c2 == c {
                } else if m2 == m {
                    assert(pdb.models@[m2].chains@[c2] == start.models@[m2].chains@[c2]);
                }
            }
            assert forall|m2: int, c2: int| 0 <= m2 < start.models@.len() && 0 <= c2 < start.models@[m2].chains@.len()
                implies (#[trigger] start.models@[m2].chains@[c2]).residues@.len() == pdb.models@[m2].chains@[c2].residues@.len() by {
                if m2 == m && c2 == c {
                } else if m2 == m {
                    assert(pdb.models@[m2].chains@[c2] == start.models@[m2].chains@[c2]);
                }
            }
            assert forall|m2: int, c2: int, k2: int| 0 <= m2 < start.models@.len() && 0 <= c2 < start.models@[m2].chains@.len() && 0 <= k2 < start.models@[m2].chains@[c2].residues@.len()
                implies (#[trigger] start.models@[m2].chains@[c2].residues@[k2]).serial == pdb.models@[m2].chains@[c2].residues@[k2].serial
                && start.models@[m2].chains@[c2].residues@[k2].name == pdb.models@[m2].chains@[c2].residues@[k2].name by {
                if m2 == m && c2 == c {
                    assert(pdb.models@[m2].chains@[c2].residues@ == rs.update(k as int, new_res));
                } else if m2 == m {
                    assert(pdb.models@[m2].chains@[c2] == start.models@[m2].chains@[c2]);
                }
            }
        }
    }
    None
}

/// The diagnostics of applying the modifications in order.
pub open spec fn modification_diagnostics(p: Pdb, ms: Seq<(usize, ModresRecord)>) -> Seq<Diagnostic>
    decreases ms.len(),
{
    if ms.len() == 0 {
        Seq::empty()
    } else {
        modification_diagnostics(p, ms.drop_last()) + match modification_outcome(p, ms.last().0, ms.last().1) {
            Some(d) => seq![d],
            None => Seq::empty(),
        }
    }
}

proof fn lemma_same_residues_trans(a: Pdb, b: Pdb, c: Pdb)
    requires
        same_residues(a, b),
        same_residues(b, c),
    ensures
        same_residues(a, c),
{
    assert forall|m: int| 0 <= m < a.models@.len() implies (#[trigger] a.models@[m]).chains@.len() == c.models@[m].chains@.len() by {
        assert(b.models@[m].chains@.len() == c.models@[m].chains@.len());
    }
    assert forall|m: int, k: int| 0 <= m < a.models@.len() && 0 <= k < a.models@[m].chains@.len()
        implies (#[trigger] a.models@[m].chains@[k]).id == c.models@[m].chains@[k].id
        && a.models@[m].chains@[k].residues@.len() == c.models@[m].chains@[k].residues@.len() by {
        assert(b.models@[m].chains@.len() == c.models@[m].chains@.len());
        assert(b.models@[m].chains@[k].id == c.models@[m].chains@[k].id);
        assert(b.models@[m].chains@[k].residues@.len() == c.models@[m].chains@[k].residues@.len());
    }
    assert forall|m: int, k: int, j: int| 0 <= m < a.models@.len() && 0 <= k < a.models@[m].chains@.len() && 0 <= j < a.models@[m].chains@[k].residues@.len()
        implies (#[trigger] a.models@[m].chains@[k].residues@[j]).serial == c.models@[m].chains@[k].residues@[j].serial
        && a.models@[m].chains@[k].residues@[j].name == c.models@[m].chains@[k].residues@[j].name by {
        assert(b.models@[m].chains@.len() == c.models@[m].chains@.len());
        assert(b.models@[m].chains@[k].residues@.len() == c.models@[m].chains@[k].residues@.len());
        assert(b.models@[m].chains@[k].residues@[j].serial == c.models@[m].chains@[k].residues@[j].serial);
        assert(b.models@[m].chains@[k].residues@[j].name == c.models@[m].chains@[k].residues@[j].name);
    }
}

pub proof fn lemma_residues_same_atoms(a: Seq<Residue>, b: Seq<Residue>)
    requires
        a.len() == b.len(),
        forall|k: int| 0 <= k < a.len() ==> (#[trigger] a[k]).atoms@.len() == b[k].atoms@.len(),
    ensures
        residues_atoms(a) == residues_atoms(b),
    decreases a.len(),
{
    if a.len() > 0 {
        lemma_residues_same_atoms(a.drop_last(), b.drop_last());
    }
}

pub proof fn lemma_chains_same_atoms(a: Seq<Chain>, b: Seq<Chain>)
    requires
        a.len() == b.len(),
        forall|c: int| 0 <= c < a.len() ==> residues_atoms((#[trigger] a[c]).residues@) == residues_atoms(b[c].residues@),
    ensures
        chains_atoms(a) == chains_atoms(b),
    decreases a.len(),
{
    if a.len() > 0 {
        lemma_chains_same_atoms(a.drop_last(), b.drop_last());
    }
}

/// Modifying one residue keeps every model's atom count.
proof fn lemma_same_atoms(before: Pdb, after: Pdb, m: int)
    requires
        same_residues(before, after),
        0 <= m < before.models@.len(),
        forall|c: int, k: int| 0 <= c < before.models@[m].chains@.len() && 0 <= k < before.models@[m].chains@[c].residues@.len()
            ==> (#[trigger] after.models@[m].chains@[c].residues@[k]).atoms == before.models@[m].chains@[c].residues@[k].atoms,
    ensures
        chains_atoms(after.models@[m].chains@) == chains_atoms(before.models@[m].chains@),
{
    let a = before.models@[m].chains@;
    let b = after.models@[m].chains@;
    assert forall|c: int| 0 <= c < a.len() implies residues_atoms((#[trigger] a[c]).residues@) == residues_atoms(b[c].residues@) by {
        assert(a[c].residues@.len() == b[c].residues@.len());
        assert forall|k: int| 0 <= k < a[c].residues@.len() implies (#[trigger] a[c].residues@[k]).atoms@.len() == b[c].residues@[k].atoms@.len() by {
            assert(after.models@[m].chains@[c].residues@[k].atoms == before.models@[m].chains@[c].residues@[k].atoms);
        }
        lemma_residues_same_atoms(a[c].residues@, b[c].residues@);
    }
    lemma_chains_same_atoms(a, b);
}

/// No modification after the `i`-th names the same chain and serial.
pub open spec fn last_naming(ms: Seq<(usize, ModresRecord)>, i: int) -> bool {
    forall|j: int| i < j < ms.len() ==> !((#[trigger] ms[j]).1.chain == ms[i].1.chain && ms[j].1.serial == ms[i].1.serial)
}

proof fn lemma_apply_keeps(start: Pdb, before: Pdb, after: Pdb, ms: Seq<(usize, ModresRecord)>, i: int, applied: bool)
    requires
        0 <= i < ms.len(),
        same_residues(start, before),
        same_residues(before, after),
        pdb_wf(before),
        applied ==> exists|m: int, c: int, k: int| #[trigger] modified_at(before, after, ms[i].1, m, c, k),
        !applied ==> after == before,
        forall|j: int| 0 <= j < i && modification_outcome(start, (#[trigger] ms[j]).0, ms[j].1) is None
            && last_naming(ms.subrange(0, i), j) ==> exists|m: int, c: int, k: int| #[trigger] carries(before, ms[j].1, m, c, k),
    ensures
        forall|j: int| 0 <= j < i && modification_outcome(start, (#[trigger] ms[j]).0, ms[j].1) is None
            && last_naming(ms.subrange(0, i + 1), j) ==> exists|m: int, c: int, k: int| #[trigger] carries(after, ms[j].1, m, c, k),
        applied ==> exists|m: int, c: int, k: int| #[trigger] carries(after, ms[i].1, m, c, k),
{
    if applied {
        let (m, c, k) = choose|m: int, c: int, k: int| #[trigger] modified_at(before, after, ms[i].1, m, c, k);
        assert(carries(after, ms[i].1, m, c, k));
        assert forall|j: int| 0 <= j < i && modification_outcome(start, (#[trigger] ms[j]).0, ms[j].1) is None
            && last_naming(ms.subrange(0, i + 1), j) implies exists|m2: int, c2: int, k2: int| #[trigger] carries(after, ms[j].1, m2, c2, k2) by {
            assert(last_naming(ms.subrange(0, i), j)) by {
                assert forall|l: int| j < l < ms.subrange(0, i).len() implies !((#[trigger] ms.subrange(0, i)[l]).1.chain == ms.subrange(0, i)[j].1.chain
                    && ms.subrange(0, i)[l].1.serial == ms.subrange(0, i)[j].1.serial) by {
                    assert(ms.subrange(0, i)[l] == ms.subrange(0, i + 1)[l]);
                }
            }
            let (mj, cj, kj) = choose|m2: int, c2: int, k2: int| #[trigger] carries(before, ms[j].1, m2, c2, k2);
            assert(ms.subrange(0, i + 1)[i] == ms[i]);
            assert(ms.subrange(0, i + 1)[j] == ms[j]);
            if mj == m && cj == c && kj == k {
                assert(false);
            }
            assert(after.models@[mj].chains@[cj].residues@[kj] == before.models@[mj].chains@[cj].residues@[kj]);
            assert(before.models@[mj].chains@.len() == after.models@[mj].chains@.len());
            assert(before.models@[mj].chains@[cj].id == after.models@[mj].chains@[cj].id);
            assert(before.models@[mj].chains@[cj].residues@.len() == after.models@[mj].chains@[cj].residues@.len());
            assert(carries(after, ms[j].1, mj, cj, kj));
        }
    } else {
        assert forall|j: int| 0 <= j < i && modification_outcome(start, (#[trigger] ms[j]).0, ms[j].1) is None
            && last_naming(ms.subrange(0, i + 1), j) implies exists|m2: int, c2: int, k2: int| #[trigger] carries(after, ms[j].1, m2, c2, k2) by {
            assert(last_naming(ms.subrange(0, i), j)) by {
                assert forall|l: int| j < l < ms.subrange(0, i).len() implies !((#[trigger] ms.subrange(0, i)[l]).1.chain == ms.subrange(0, i)[j].1.chain
                    && ms.subrange(0, i)[l].1.serial == ms.subrange(0, i)[j].1.serial) by {
                    assert(ms.subrange(0, i)[l] == ms.subrange(0, i + 1)[l]);
                }
            }
        }
    }
}

/// What applying the modifications `mods` in order to `before` gives: the
/// structure `after` and the diagnostics `diags`.
pub open spec fn modifications_applied(before: Pdb, mods: Seq<(usize, ModresRecord)>, after: Pdb, diags: Seq<Diagnostic>) -> bool {
    &&& pdb_wf(after)
    &&& models_atoms(after.models@) == models_atoms(before.models@)
    &&& same_residues(before, after)
    &&& after.remarks == before.remarks
    &&& diags == modification_diagnostics(before, mods)
    &&& forall|m: int| 0 <= m < before.models@.len() ==> chains_atoms(#[trigger] after.models@[m].chains@)
            == chains_atoms(before.models@[m].chains@)
    &&& (forall|i: int| 0 <= i < mods.len() ==> #[trigger] modification_outcome(before, mods[i].0, mods[i].1) is Some)
            ==> after == before
    &&& forall|i: int| 0 <= i < mods.len() && modification_outcome(before, (#[trigger] mods[i]).0, mods[i].1) is None
            && last_naming(mods, i) ==> exists|m: int, c: int, k: int| #[trigger] carries(after, mods[i].1, m, c, k)
}

/// Applies the residue modifications in order, each with the line it was read on.
pub fn add_modifications(pdb: &mut Pdb, modifications: &Vec<(usize, ModresRecord)>) -> (r: Vec<Diagnostic>)
    requires
        pdb_wf(*old(pdb)),
    ensures
        modifications_applied(*old(pdb), modifications@, *final(pdb), r@),
{
    let ghost start = *pdb;
    let mut errors: Vec<Diagnostic> = Vec::new();
    let mut i: usize = 0;
    proof {
        assert(same_residues(start, start));
    }
    while i < modifications.len()
        invariant
            i <= modifications@.len(),
            start == *old(pdb),
            pdb_wf(*pdb),
            models_atoms(pdb.models@) == models_atoms(start.models@),
            same_residues(start, *pdb),
            pdb.remarks == start.remarks,
            errors@ == modification_diagnostics(start, modifications@.subrange(0, i as int)),
            forall|m: int| 0 <= m < start.models@.len() ==> chains_atoms(#[trigger] pdb.models@[m].chains@)
                == chains_atoms(start.models@[m].chains@),
            (forall|j: int| 0 <= j < i ==> #[trigger] modification_outcome(start, modifications@[j].0, modifications@[j].1) is Some)
                ==> *pdb == start,
            forall|j: int| 0 <= j < i && modification_outcome(start, (#[trigger] modifications@[j]).0, modifications@[j].1) is None
                && last_naming(modifications@.subrange(0, i as int), j) ==> exists|m: int, c: int, k: int| #[trigger] carries(*pdb, modifications@[j].1, m, c, k),
        decreases modifications@.len() - i,
    {
        let (n, modification) = &modifications[i];
        let ghost before = *pdb;
        assert(modifications@.subrange(0, i as int + 1).drop_last() =~= modifications@.subrange(0, i as int));
        assert(modifications@.subrange(0, i as int + 1).last() == modifications@[i as int]);
        let outcome = apply_modification(pdb, *n, modification);
        proof {
            lemma_outcome_same(start, before, *n, *modification);
            lemma_same_residues_trans(start, before, *pdb);
            lemma_apply_keeps(start, before, *pdb, modifications@, i as int, outcome is None);
        }
        match outcome {
            Some(d) => errors.push(d),
            None => {},
        }
        assert(errors@ =~= modification_diagnostics(start, modifications@.subrange(0, i as int + 1)));
        proof {
            if outcome is None {
                let (m, c, k) = choose|m: int, c: int, k: int| #[trigger] modified_at(before, *pdb, *modification, m, c, k);
                assert forall|m2: int| 0 <= m2 < start.models@.len() implies chains_atoms(#[trigger] pdb.models@[m2].chains@)
                    == chains_atoms(start.models@[m2].chains@) by {
                    assert forall|c2: int, k2: int| 0 <= c2 < before.models@[m2].chains@.len() && 0 <= k2 < before.models@[m2].chains@[c2].residues@.len()
                        implies (#[trigger] pdb.models@[m2].chains@[c2].residues@[k2]).atoms == before.models@[m2].chains@[c2].residues@[k2].atoms by {
                        if !(m2 == m && c2 == c && k2 == k) {
                            assert(pdb.models@[m2].chains@[c2].residues@[k2] == before.models@[m2].chains@[c2].residues@[k2]);
                        }
                    }
                    lemma_same_atoms(before, *pdb, m2);
                }
            }
        }
        i += 1;
    }
    assert(modifications@.subrange(0, i as int) =~= modifications@);
    errors
}

} // verus!
