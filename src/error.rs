use vstd::prelude::*;

verus! {

/// How serious a diagnostic is, from the mildest to the most severe.
#[derive(Clone, Copy, Debug, PartialEq, Eq, Structural)]
pub enum Severity {
    /// Input that was not understood, such as an unknown record tag.
    GeneralWarning,
    /// A formatting nit.
    LooseWarning,
    /// A mismatch between records, such as a failed checksum.
    StrictWarning,
    /// A field whose value cannot be used.
    InvalidatingError,
    /// The input cannot be used meaningfully.
    BreakingError,
}

/// The position of a severity in the total order, mildest first.
pub open spec fn severity_rank(s: Severity) -> nat {
    match s {
        Severity::GeneralWarning => 0,
        Severity::LooseWarning => 1,
        Severity::StrictWarning => 2,
        Severity::InvalidatingError => 3,
        Severity::BreakingError => 4,
    }
}

/// How much a caller tolerates before the whole parse counts as failed.
#[derive(Clone, Copy, Debug, PartialEq, Eq, Structural)]
pub enum StrictnessLevel {
    /// Everything but unrecognised input fails.
    Strict,
    /// Strict warnings and worse fail.
    Medium,
    /// Only errors fail.
    Loose,
}

/// The lowest severity rank that fails under the given level.
pub open spec fn failing_rank(level: StrictnessLevel) -> nat {
    match level {
        StrictnessLevel::Strict => 1,
        StrictnessLevel::Medium => 2,
        StrictnessLevel::Loose => 3,
    }
}

impl Severity {
    /// Whether a diagnostic of this severity fails a parse run at `level`.
    pub fn fails(self, level: StrictnessLevel) -> (r: bool)
        ensures
            r == (severity_rank(self) >= failing_rank(level)),
    {
        let rank: u8 = match self {
            Severity::GeneralWarning => 0,
            Severity::LooseWarning => 1,
            Severity::StrictWarning => 2,
            Severity::InvalidatingError => 3,
            Severity::BreakingError => 4,
        };
        let bar: u8 = match level {
            StrictnessLevel::Strict => 1,
            StrictnessLevel::Medium => 2,
            StrictnessLevel::Loose => 3,
        };
        rank >= bar
    }
}


/// Where in the input a diagnostic points.
#[derive(Clone, Copy, Debug, PartialEq, Eq, Structural)]
pub enum Location {
    /// The input as a whole.
    Whole,
    /// One line, numbered from 1.
    Line { line: usize },
    /// A run of `length` columns from column `start` (0-based) on one line.
    Span { line: usize, start: usize, length: usize },
}

/// What a diagnostic is about; each kind carries the values it cites.
#[derive(Clone, Copy, Debug, PartialEq, Eq, Structural)]
pub enum Issue {
    /// The input file could not be opened.
    CouldNotOpen,
    /// A line of the input could not be read.
    CouldNotReadLine,
    /// A record tag that this reader does not know.
    UnrecognisedTag,
    /// A numeric field that does not hold a number of the right kind.
    NotANumber,
    /// A comment whose type number is not among the defined ones.
    RemarkTypeInvalid,
    /// A comment whose text runs past the allowed width.
    RemarkTooLong,
    /// An atom line that ends before the `z` coordinate.
    AtomLineTooShort,
    /// A charge whose first column is not a digit.
    ChargeNotNumeric,
    /// A charge whose second column is not `+` or `-`.
    ChargeNotSigned,
    /// A name or element with characters outside printable ASCII.
    InvalidCharacters,
    /// A space group symbol that is not recognised.
    InvalidSpaceGroup,
    /// An anisotropic record with no earlier atom of the same serial number.
    AnisotropyWithoutAtom { serial: usize },
    /// A sequence difference whose chain has no earlier database reference.
    DifferenceWithoutReference { chain: char },
    /// The trailer's comment count differs from the comments read.
    RemarkCountMismatch { found: usize, declared: usize },
    /// The trailer's field that must be zero is not.
    EmptyCountNotZero { value: usize },
    /// The trailer's transform-row count differs from the complete transforms read.
    TransformCountMismatch { found: usize, declared: usize },
    /// The trailer's atom count differs from the atoms read.
    AtomCountMismatch { found: usize, declared: usize },
    /// A reference-sequence fragment whose serial does not follow the previous one.
    SequenceSerialGap { chain: char, serial: usize },
    /// A fragment whose declared total differs from the chain's first fragment.
    SequenceTotalInconsistent { chain: char, serial: usize },
    /// The declared total differs from the number of codes in the fragments.
    SequenceLengthMismatch { chain: char },
    /// The declared total differs from the database reference's span.
    SequenceReferenceMismatch { chain: char },
    /// A declared code differs from the observed residue at its position.
    SequenceResidueMismatch { chain: char, position: usize },
    /// An observed residue comes before the position the sequence expects.
    ResidueOutOfOrder { chain: char, serial: usize },
    /// The declared sequence and the chain end up with different lengths.
    SequenceChainLengthMismatch { chain: char, declared: usize, found: usize },
    /// A modification names a chain that was not read.
    ModifiedChainNotFound { chain: char },
    /// A modification names a residue that its chain does not hold.
    ModifiedResidueNotFound { chain: char, serial: usize },
}

/// One finding of a parse run.
#[derive(Clone, Copy, Debug, PartialEq, Eq, Structural)]
pub struct Diagnostic {
    pub severity: Severity,
    pub issue: Issue,
    pub location: Location,
}

impl Diagnostic {
    pub fn new(severity: Severity, issue: Issue, location: Location) -> (r: Diagnostic)
        ensures
            r == (Diagnostic { severity, issue, location }),
    {
        Diagnostic { severity, issue, location }
    }

    /// Whether this diagnostic fails a parse run at `level`.
    pub fn fails(&self, level: StrictnessLevel) -> (r: bool)
        ensures
            r == (severity_rank(self.severity) >= failing_rank(level)),
    {
        self.severity.fails(level)
    }

    /// A short title for the diagnostic.
    pub fn title(&self) -> &'static str {
        match self.issue {
            Issue::CouldNotOpen => "Could not open file",
            Issue::CouldNotReadLine => "Could not read line",
            Issue::UnrecognisedTag => "Could not recognise tag",
            Issue::NotANumber => "Not a number",
            Issue::RemarkTypeInvalid => "Remark type number invalid",
            Issue::RemarkTooLong => "Remark too long",
            Issue::AtomLineTooShort => "Atom line too short",
            Issue::ChargeNotNumeric | Issue::ChargeNotSigned => "Atom charge is not correct",
            Issue::InvalidCharacters => "Invalid characters",
            Issue::InvalidSpaceGroup => "Invalid space group",
            Issue::AnisotropyWithoutAtom { .. } => "Atom for temperature factors not found",
            Issue::DifferenceWithoutReference { .. } => "Sequence difference database not found",
            Issue::RemarkCountMismatch { .. } | Issue::EmptyCountNotZero { .. }
            | Issue::TransformCountMismatch { .. }
            | Issue::AtomCountMismatch { .. } => "MASTER checksum failed",
            Issue::SequenceSerialGap { .. } => "SEQRES serial number invalid",
            Issue::SequenceTotalInconsistent { .. } | Issue::SequenceLengthMismatch { .. }
            | Issue::SequenceReferenceMismatch { .. }
            | Issue::SequenceChainLengthMismatch { .. } => "SEQRES residue total invalid",
            Issue::SequenceResidueMismatch { .. } => "SEQRES residue invalid",
            Issue::ResidueOutOfOrder { .. } => "Chain residue invalid",
            Issue::ModifiedChainNotFound { .. } | Issue::ModifiedResidueNotFound { .. } => "Modified residue could not be found",
        }
    }
}

/// Whether any diagnostic of the list fails a parse run at `level`.
pub open spec fn any_fails(diagnostics: Seq<Diagnostic>, level: StrictnessLevel) -> bool {
    exists|i: int|
        0 <= i < diagnostics.len() && severity_rank(#[trigger] diagnostics[i].severity)
            >= failing_rank(level)
}

/// Decides a parse run: it fails when any diagnostic reaches the level's bar.
pub fn run_fails(diagnostics: &Vec<Diagnostic>, level: StrictnessLevel) -> (r: bool)
    ensures
        r == any_fails(diagnostics@, level),
{
    let mut i: usize = 0;
    while i < diagnostics.len()
        invariant
            i <= diagnostics@.len(),
            forall|j: int|
                0 <= j < i ==> severity_rank(#[trigger] diagnostics@[j].severity) < failing_rank(
                    level,
                ),
        decreases diagnostics@.len() - i,
    {
        if diagnostics[i].fails(level) {
            return true;
        }
        i += 1;
    }
    false
}

/// A run whose diagnostics are all unrecognised input passes at every level;
/// one that holds a breaking error fails at every level; and one whose worst
/// diagnostic is a strict warning fails exactly at the levels whose bar is at
/// or below a strict warning.
pub proof fn lemma_strictness_gate(diagnostics: Seq<Diagnostic>, level: StrictnessLevel)
    ensures
        (forall|i: int|
            0 <= i < diagnostics.len() ==> (#[trigger] diagnostics[i]).severity
                == Severity::GeneralWarning) ==> !any_fails(diagnostics, level),
        (exists|i: int|
            0 <= i < diagnostics.len() && (#[trigger] diagnostics[i]).severity
                == Severity::BreakingError) ==> any_fails(diagnostics, level),
        (diagnostics.len() > 0 && forall|i: int|
            0 <= i < diagnostics.len() ==> (#[trigger] diagnostics[i]).severity
                == Severity::StrictWarning) ==> (any_fails(diagnostics, level) <==> failing_rank(
            level,
        ) <= severity_rank(Severity::StrictWarning)),
{
    if diagnostics.len() > 0 && forall|i: int|
        0 <= i < diagnostics.len() ==> (#[trigger] diagnostics[i]).severity
            == Severity::StrictWarning {
        assert(diagnostics[0].severity == Severity::StrictWarning);
    }
}

} // verus!
