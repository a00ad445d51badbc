use pdbtbx::lexer::lex_line;
use pdbtbx::number::{parse_decimal, parse_i64, parse_usize};
use pdbtbx::record::Record;
use pdbtbx::{parse, Assembler, Decimal, Diagnostic, Issue, Location, Pdb, Severity, StrictnessLevel};

fn atom_line(tag: &str, serial: usize, name: &str, residue: &str, chain: char, seq: usize, xyz: [&str; 3]) -> String {
    format!(
        "{:<6}{:>5} {:<4} {:<3} {}{:>4}    {:>8}{:>8}{:>8}{:>6}{:>6}          {:>2}  ",
        tag, serial, name, residue, chain, seq, xyz[0], xyz[1], xyz[2], "1.00", "0.00", "N"
    )
}

fn padded(s: &str) -> String {
    format!("{:<80}", s)
}

fn master_line(remarks: usize, xform: usize, coord: usize) -> String {
    format!(
        "MASTER    {:>5}{:>5}{:>5}{:>5}{:>5}{:>5}{:>5}{:>5}{:>5}{:>5}{:>5}{:>5}",
        remarks, 0, 0, 0, 0, 0, 0, xform, coord, 0, 0, 0
    )
}

fn chars(s: &str) -> Vec<char> {
    s.chars().collect()
}

fn to_f64(d: Decimal) -> f64 {
    d.mantissa as f64 / 10f64.powi(d.scale as i32)
}

fn run(lines: &[String], level: StrictnessLevel) -> Result<(Pdb, Vec<Diagnostic>), Vec<Diagnostic>> {
    let lines: Vec<String> = lines.to_vec();
    parse(&lines, level)
}

fn issues(errors: &[Diagnostic]) -> Vec<Issue> {
    errors.iter().map(|d| d.issue).collect()
}

#[test]
fn single_atom_line_builds_one_atom() {
    let line = atom_line("ATOM", 1, "N", "ALA", 'A', 1, ["11.104", "6.134", "-6.504"]);
    let (pdb, errors) = run(&[line], StrictnessLevel::Strict).unwrap();
    assert!(errors.is_empty());
    assert_eq!(pdb.models.len(), 1);
    let model = &pdb.models[0];
    assert_eq!(model.chains.len(), 1);
    assert_eq!(model.chains[0].id, 'A');
    assert_eq!(model.chains[0].residues.len(), 1);
    let residue = &model.chains[0].residues[0];
    assert_eq!(residue.serial, 1);
    assert_eq!(residue.name, ['A', 'L', 'A']);
    assert_eq!(residue.atoms.len(), 1);
    let atom = residue.atoms[0];
    assert_eq!(atom.serial, 1);
    assert_eq!(atom.name, ['N', ' ', ' ', ' ']);
    assert_eq!(atom.x, Decimal::new(11104, 3));
    assert_eq!(atom.y, Decimal::new(6134, 3));
    assert_eq!(atom.z, Decimal::new(-6504, 3));
    assert_eq!(to_f64(atom.x), 11.104);
    assert_eq!(to_f64(atom.y), 6.134);
    assert_eq!(to_f64(atom.z), -6.504);
    assert_eq!(atom.occupancy, Decimal::new(100, 2));
    assert_eq!(atom.b_factor, Decimal::new(0, 2));
    assert_eq!(atom.element, [' ', 'N']);
    assert!(!atom.hetero);
}

#[test]
fn bad_number_gives_one_error_and_zero() {
    let line = atom_line("ATOM", 1, "N", "ALA", 'A', 1, ["1a.000", "2.5", "3.0"]);
    match lex_line(&chars(&line), 7).unwrap() {
        (Record::Atom(a), errors) => {
            assert_eq!(errors.len(), 1);
            assert_eq!(errors[0].severity, Severity::InvalidatingError);
            assert_eq!(errors[0].issue, Issue::NotANumber);
            assert_eq!(errors[0].location, Location::Span { line: 7, start: 30, length: 8 });
            assert_eq!(a.x, Decimal::new(0, 0));
            assert_eq!(a.y, Decimal::new(25, 1));
            assert_eq!(a.z, Decimal::new(30, 1));
        }
        _ => panic!("not an atom"),
    }
}

#[test]
fn embedded_whitespace_is_removed_before_parsing() {
    assert_eq!(parse_usize(&chars(" 1 2 ")), Some(12));
    assert_eq!(parse_decimal(&chars(" -1 2.5 ")), Some(Decimal::new(-125, 1)));
    assert_eq!(parse_i64(&chars("  -42")), Some(-42));
    assert_eq!(parse_usize(&chars("+7")), Some(7));
    assert_eq!(parse_usize(&chars("-7")), None);
    assert_eq!(parse_usize(&chars("   ")), None);
    assert_eq!(parse_decimal(&chars(".")), None);
    assert_eq!(parse_decimal(&chars("1.2.3")), None);
    assert_eq!(parse_decimal(&chars(".5")), Some(Decimal::new(5, 1)));
    assert_eq!(parse_decimal(&chars("5.")), Some(Decimal::new(5, 0)));
    assert_eq!(parse_usize(&chars("99999999999999999999999")), None);
}

#[test]
fn short_atom_line_is_breaking_and_adds_no_atom() {
    let line = "ATOM      1  N   ALA A   1      11.104   6.134".to_string();
    assert!(line.chars().count() < 54);
    let err = lex_line(&chars(&line), 3).unwrap_err();
    assert_eq!(err.severity, Severity::BreakingError);
    assert_eq!(err.issue, Issue::AtomLineTooShort);
    let mut state = Assembler::new();
    state.add_line(&chars(&line), 3);
    assert_eq!(state.errors.len(), 1);
    assert_eq!(state.errors[0].severity, Severity::BreakingError);
    assert!(state.current.chains.is_empty());
    let errors = run(&[line.clone()], StrictnessLevel::Loose).unwrap_err();
    assert_eq!(errors.iter().filter(|d| d.severity == Severity::BreakingError).count(), 1);
    let het = line.replacen("ATOM  ", "HETATM", 1);
    assert_eq!(lex_line(&chars(&het), 1).unwrap_err().issue, Issue::AtomLineTooShort);
}

#[test]
fn trailer_checks_are_independent() {
    let lines = vec![
        "REMARK   2 RESOLUTION. 2.00 ANGSTROMS.".to_string(),
        "REMARK   3 REFINEMENT.".to_string(),
        "REMARK   4 COMPLIES WITH FORMAT V. 3.30".to_string(),
        atom_line("ATOM", 1, "N", "ALA", 'A', 1, ["1.0", "2.0", "3.0"]),
        master_line(5, 0, 3),
        "END".to_string(),
    ];
    let (pdb, errors) = run(&lines, StrictnessLevel::Loose).unwrap();
    assert_eq!(pdb.remarks.len(), 3);
    let remark_warnings: Vec<&Diagnostic> =
        errors.iter().filter(|d| matches!(d.issue, Issue::RemarkCountMismatch { .. })).collect();
    assert_eq!(remark_warnings.len(), 1);
    assert_eq!(remark_warnings[0].severity, Severity::StrictWarning);
    assert_eq!(remark_warnings[0].issue, Issue::RemarkCountMismatch { found: 3, declared: 5 });
    assert!(errors.contains(&Diagnostic::new(
        Severity::StrictWarning,
        Issue::AtomCountMismatch { found: 1, declared: 3 },
        Location::Whole
    )));
    assert_eq!(errors.len(), 2);
}

#[test]
fn trailer_nonzero_empty_field_and_transforms() {
    let mut state = Assembler::new();
    state.add_line(&chars(&padded("SCALE1      0.019231  0.000000  0.000000        0.00000")), 1);
    state.add_line(&chars(&padded("SCALE2      0.000000  0.017065  0.000000        0.00000")), 2);
    state.add_line(&chars(&padded("SCALE3      0.000000  0.000000  0.016155        0.00000")), 3);
    let master = format!(
        "MASTER    {:>5}{:>5}{:>5}{:>5}{:>5}{:>5}{:>5}{:>5}{:>5}{:>5}{:>5}{:>5}",
        0, 1, 0, 0, 0, 0, 0, 6, 0, 0, 0, 0
    );
    state.add_line(&chars(&master), 4);
    assert_eq!(
        issues(&state.errors),
        vec![Issue::EmptyCountNotZero { value: 1 }, Issue::TransformCountMismatch { found: 3, declared: 6 }]
    );
    assert_eq!(state.errors[0].severity, Severity::LooseWarning);
    let scale = state.pdb.scale.unwrap();
    assert_eq!(scale.rows[1][1], Decimal::new(17065, 6));
}

#[test]
fn reconciliation_fills_gap() {
    let lines = vec![
        padded("SEQRES   1 A    3  ALA GLY SER"),
        atom_line("ATOM", 1, "N", "ALA", 'A', 1, ["1.0", "2.0", "3.0"]),
        atom_line("ATOM", 2, "N", "SER", 'A', 3, ["4.0", "5.0", "6.0"]),
    ];
    let (pdb, errors) = run(&lines, StrictnessLevel::Strict).unwrap();
    assert!(errors.is_empty());
    let chain = &pdb.models[0].chains[0];
    assert_eq!(chain.residues.len(), 3);
    let summary: Vec<(usize, [char; 3], usize)> =
        chain.residues.iter().map(|r| (r.serial, r.name, r.atoms.len())).collect();
    assert_eq!(
        summary,
        vec![(1, ['A', 'L', 'A'], 1), (2, ['G', 'L', 'Y'], 0), (3, ['S', 'E', 'R'], 1)]
    );
}

#[test]
fn reconciliation_reports_mismatch_and_order() {
    let lines = vec![
        padded("SEQRES   1 B    2  ALA GLY"),
        atom_line("ATOM", 1, "N", "CYS", 'B', 1, ["1.0", "2.0", "3.0"]),
    ];
    let (_, errors) = run(&lines, StrictnessLevel::Loose).unwrap();
    assert!(errors.contains(&Diagnostic::new(
        Severity::StrictWarning,
        Issue::SequenceResidueMismatch { chain: 'B', position: 1 },
        Location::Whole
    )));
    assert!(errors.contains(&Diagnostic::new(
        Severity::StrictWarning,
        Issue::SequenceChainLengthMismatch { chain: 'B', declared: 2, found: 1 },
        Location::Whole
    )));
    let lines = vec![
        padded("SEQRES   2 C    2  ALA GLY"),
        atom_line("ATOM", 1, "N", "ALA", 'C', 0, ["1.0", "2.0", "3.0"]),
    ];
    let (_, errors) = run(&lines, StrictnessLevel::Loose).unwrap();
    assert!(errors.contains(&Diagnostic::new(
        Severity::StrictWarning,
        Issue::SequenceSerialGap { chain: 'C', serial: 2 },
        Location::Whole
    )));
    assert!(errors.contains(&Diagnostic::new(
        Severity::StrictWarning,
        Issue::ResidueOutOfOrder { chain: 'C', serial: 0 },
        Location::Whole
    )));
}

#[test]
fn strictness_gate() {
    let unknown = vec!["FOOBAR something".to_string(), "XY".to_string()];
    for level in [StrictnessLevel::Strict, StrictnessLevel::Medium, StrictnessLevel::Loose] {
        let (_, errors) = run(&unknown, level).unwrap();
        assert_eq!(errors.len(), 2);
        assert!(errors.iter().all(|d| d.severity == Severity::GeneralWarning));
    }
    let breaking = vec!["ATOM      1  N".to_string()];
    for level in [StrictnessLevel::Strict, StrictnessLevel::Medium, StrictnessLevel::Loose] {
        assert!(run(&breaking, level).is_err());
    }
    let strict_only = vec![
        atom_line("ATOM", 1, "N", "ALA", 'A', 1, ["1.0", "2.0", "3.0"]),
        master_line(0, 0, 2),
    ];
    assert!(run(&strict_only, StrictnessLevel::Strict).is_err());
    assert!(run(&strict_only, StrictnessLevel::Medium).is_err());
    let (_, errors) = run(&strict_only, StrictnessLevel::Loose).unwrap();
    assert_eq!(errors.len(), 1);
    assert_eq!(errors[0].severity, Severity::StrictWarning);
}

#[test]
fn severity_fails_by_level() {
    assert!(!Severity::GeneralWarning.fails(StrictnessLevel::Strict));
    assert!(Severity::LooseWarning.fails(StrictnessLevel::Strict));
    assert!(!Severity::LooseWarning.fails(StrictnessLevel::Medium));
    assert!(Severity::StrictWarning.fails(StrictnessLevel::Medium));
    assert!(!Severity::StrictWarning.fails(StrictnessLevel::Loose));
    assert!(Severity::InvalidatingError.fails(StrictnessLevel::Loose));
    assert!(Severity::BreakingError.fails(StrictnessLevel::Loose));
    let d = Diagnostic::new(Severity::StrictWarning, Issue::NotANumber, Location::Whole);
    assert!(pdbtbx::error::run_fails(&vec![d], StrictnessLevel::Medium));
    assert!(!pdbtbx::error::run_fails(&vec![d], StrictnessLevel::Loose));
    assert!(!pdbtbx::error::run_fails(&Vec::new(), StrictnessLevel::Strict));
    assert_eq!(d.title(), "Not a number");
}

#[test]
fn models_split_and_empty_models_are_dropped() {
    let lines = vec![
        "MODEL        1".to_string(),
        atom_line("ATOM", 1, "N", "ALA", 'A', 1, ["1.0", "2.0", "3.0"]),
        "ENDMDL".to_string(),
        "MODEL        2".to_string(),
        atom_line("ATOM", 1, "N", "ALA", 'A', 1, ["1.5", "2.0", "3.0"]),
        "ENDMDL".to_string(),
        "MODEL        3".to_string(),
        "ENDMDL".to_string(),
        "TER".to_string(),
        "END".to_string(),
        "".to_string(),
    ];
    let (pdb, errors) = run(&lines, StrictnessLevel::Strict).unwrap();
    assert!(errors.is_empty());
    assert_eq!(pdb.models.len(), 2);
    assert_eq!(pdb.models[0].serial, 1);
    assert_eq!(pdb.models[1].serial, 2);
    assert_eq!(pdb.models[1].chains[0].residues[0].atoms[0].x, Decimal::new(15, 1));
    assert_eq!(pdb.total_atom_count(), 2);
}

#[test]
fn residues_are_kept_in_order() {
    let lines = vec![
        atom_line("ATOM", 1, "N", "GLY", 'A', 5, ["1.0", "2.0", "3.0"]),
        atom_line("ATOM", 2, "N", "ALA", 'A', 2, ["1.0", "2.0", "3.0"]),
        atom_line("ATOM", 3, "CA", "GLY", 'A', 5, ["1.0", "2.0", "3.0"]),
        atom_line("HETATM", 4, "O", "HOH", 'B', 9, ["1.0", "2.0", "3.0"]),
    ];
    let (pdb, _) = run(&lines, StrictnessLevel::Strict).unwrap();
    let model = &pdb.models[0];
    let serials: Vec<usize> = model.chains[0].residues.iter().map(|r| r.serial).collect();
    assert_eq!(serials, vec![2, 5]);
    assert_eq!(model.chains[0].residues[1].atoms.len(), 2);
    assert_eq!(model.chains[1].id, 'B');
    assert!(model.chains[1].residues[0].atoms[0].hetero);
}

#[test]
fn charge_is_digit_then_sign() {
    let base = atom_line("ATOM", 1, "N", "ALA", 'A', 1, ["1.0", "2.0", "3.0"]);
    let with = |c: &str| format!("{}{}", &base[..78], c);
    match lex_line(&chars(&with("2-")), 1).unwrap() {
        (Record::Atom(a), errors) => {
            assert!(errors.is_empty());
            assert_eq!(a.basics.charge, -2);
        }
        _ => panic!("not an atom"),
    }
    match lex_line(&chars(&with("1+")), 1).unwrap() {
        (Record::Atom(a), _) => assert_eq!(a.basics.charge, 1),
        _ => panic!("not an atom"),
    }
    let (_, errors) = lex_line(&chars(&with("x+")), 1).unwrap();
    assert_eq!(issues(&errors), vec![Issue::ChargeNotNumeric]);
    let (_, errors) = lex_line(&chars(&with("3x")), 1).unwrap();
    assert_eq!(issues(&errors), vec![Issue::ChargeNotSigned]);
    assert_eq!(errors[0].location, Location::Span { line: 1, start: 79, length: 1 });
}

#[test]
fn anisotropic_factors_pair_with_latest_atom() {
    let a1 = atom_line("ATOM", 7, "N", "ALA", 'A', 1, ["1.0", "2.0", "3.0"]);
    let a2 = atom_line("ATOM", 7, "N", "ALA", 'A', 2, ["1.0", "2.0", "3.0"]);
    let anisou = padded("ANISOU    7  N   ALA A   2     2406   1892  -1990     -9    400     47");
    let missing = padded("ANISOU    8  N   ALA A   2     2406   1892  -1990     -9    400     47");
    let (pdb, errors) = run(&[a1, a2, anisou, missing], StrictnessLevel::Medium).unwrap();
    let residues = &pdb.models[0].chains[0].residues;
    assert!(residues[0].atoms[0].anisotropic.is_none());
    let f = residues[1].atoms[0].anisotropic.unwrap();
    assert_eq!(f[0], Decimal::new(2406, 4));
    assert_eq!(f[2], Decimal::new(-1990, 4));
    assert_eq!(f[5], Decimal::new(47, 4));
    assert_eq!(issues(&errors), vec![Issue::AnisotropyWithoutAtom { serial: 8 }]);
    assert_eq!(errors[0].severity, Severity::GeneralWarning);
}

#[test]
fn symmetry_operators_and_crystal() {
    let lines = vec![
        padded("CRYST1   52.000   58.600   61.900  90.00  90.00  90.00 P 21 21 21    8"),
        padded("MTRIX1   1  1.000000  0.000000  0.000000        0.00000    1"),
        padded("MTRIX2   1  0.000000  1.000000  0.000000        0.00000    1"),
        padded("MTRIX3   1  0.000000  0.000000  1.000000        0.00000    1"),
        padded("MTRIX1   2 -1.000000  0.000000  0.000000        0.00000"),
        padded("ORIGX1      1.000000  0.000000  0.000000        0.00000"),
    ];
    let mut state = Assembler::new();
    for (i, l) in lines.iter().enumerate() {
        state.add_line(&chars(l), i + 1);
    }
    assert!(state.errors.is_empty());
    let cell = state.pdb.unit_cell.unwrap();
    assert_eq!(cell.a, Decimal::new(52000, 3));
    assert_eq!(cell.gamma, Decimal::new(9000, 2));
    assert_eq!(state.pdb.symmetry.as_ref().unwrap().symbol, "P 21 21 21");
    assert_eq!(state.pdb.mtrix.len(), 2);
    assert!(state.pdb.mtrix[0].given);
    assert!(state.pdb.mtrix[0].transform.valid());
    assert!(!state.pdb.mtrix[1].given);
    assert_eq!(state.pdb.mtrix[1].transform.rows[0][0], Decimal::new(-1000000, 6));
    assert_eq!(state.pdb.transform_row_count(), 3);
    state.add_line(&chars("CRYST1   52.000   58.600   61.900  90.00  90.00  90.00 P 2#"), 9);
    assert_eq!(
        state.errors,
        vec![Diagnostic::new(Severity::InvalidatingError, Issue::InvalidSpaceGroup, Location::Line { line: 9 })]
    );
}

#[test]
fn modifications_are_applied_or_reported() {
    let lines = vec![
        padded("MODRES 1ABC MSE A    1  MET  SELENOMETHIONINE"),
        padded("MODRES 1ABC MSE A    4  MET  SELENOMETHIONINE"),
        padded("MODRES 1ABC MSE Z    1  MET  SELENOMETHIONINE"),
        atom_line("HETATM", 1, "SE", "MSE", 'A', 1, ["1.0", "2.0", "3.0"]),
    ];
    let errors = run(&lines, StrictnessLevel::Loose).unwrap_err();
    assert_eq!(
        errors,
        vec![
            Diagnostic::new(
                Severity::InvalidatingError,
                Issue::ModifiedResidueNotFound { chain: 'A', serial: 4 },
                Location::Line { line: 2 }
            ),
            Diagnostic::new(
                Severity::InvalidatingError,
                Issue::ModifiedChainNotFound { chain: 'Z' },
                Location::Line { line: 3 }
            ),
        ]
    );
    let ok_lines = vec![lines[0].clone(), lines[3].clone()];
    let (pdb, errors) = run(&ok_lines, StrictnessLevel::Strict).unwrap();
    assert!(errors.is_empty());
    let residue = &pdb.models[0].chains[0].residues[0];
    let (standard, comment) = residue.modification.as_ref().unwrap();
    assert_eq!(*standard, ['M', 'E', 'T']);
    assert_eq!(comment, "SELENOMETHIONINE");
}

#[test]
fn database_reference_sets_offset() {
    let lines = vec![
        padded("DBREF  1ABC A   10    12  UNP    P12345   TEST_HUMAN      20     22"),
        padded("SEQADV 1ABC GLY A    9  UNP  P12345              EXPRESSION TAG"),
        padded("SEQADV 1ABC GLY B    9  UNP  P12345              EXPRESSION TAG"),
        padded("SEQRES   1 A    4  GLY ALA CYS ASP"),
        atom_line("ATOM", 1, "N", "ALA", 'A', 10, ["1.0", "2.0", "3.0"]),
        atom_line("ATOM", 2, "N", "ASP", 'A', 12, ["1.0", "2.0", "3.0"]),
    ];
    let (pdb, errors) = run(&lines, StrictnessLevel::Loose).unwrap();
    assert_eq!(
        errors,
        vec![Diagnostic::new(
            Severity::StrictWarning,
            Issue::DifferenceWithoutReference { chain: 'B' },
            Location::Whole
        )]
    );
    let chain = &pdb.models[0].chains[0];
    let reference = chain.database_reference.as_ref().unwrap();
    assert_eq!(reference.database, "UNP");
    assert_eq!(reference.accession, "P12345");
    assert_eq!(reference.database_id, "TEST_HUMAN");
    assert_eq!(reference.pdb_position.start, 10);
    assert_eq!(reference.database_position.end, 22);
    assert_eq!(reference.differences.len(), 1);
    assert_eq!(reference.differences[0].comment, "EXPRESSION TAG");
    let summary: Vec<(usize, [char; 3])> = chain.residues.iter().map(|r| (r.serial, r.name)).collect();
    assert_eq!(
        summary,
        vec![(9, ['G', 'L', 'Y']), (10, ['A', 'L', 'A']), (11, ['C', 'Y', 'S']), (12, ['A', 'S', 'P'])]
    );
}

#[test]
fn remark_lines() {
    let long = format!("REMARK 999 {}", "x".repeat(71));
    let err = lex_line(&chars(&long), 4).unwrap_err();
    assert_eq!(err.severity, Severity::LooseWarning);
    assert_eq!(err.issue, Issue::RemarkTooLong);
    assert_eq!(err.location, Location::Span { line: 4, start: 11, length: 71 });
    match lex_line(&chars("REMARK 123 HELLO"), 1).unwrap() {
        (Record::Remark { number, text }, errors) => {
            assert_eq!(number, 123);
            assert_eq!(text, "HELLO");
            assert_eq!(issues(&errors), vec![Issue::RemarkTypeInvalid]);
            assert_eq!(errors[0].severity, Severity::StrictWarning);
        }
        _ => panic!("not a remark"),
    }
    match lex_line(&chars("REMARK 350"), 1).unwrap() {
        (Record::Remark { number, text }, errors) => {
            assert_eq!(number, 350);
            assert_eq!(text, "");
            assert!(errors.is_empty());
        }
        _ => panic!("not a remark"),
    }
}

#[test]
fn tags_and_terminators() {
    assert!(matches!(lex_line(&chars(""), 1), Ok((Record::Empty, _))));
    assert!(matches!(lex_line(&chars("TER"), 1), Ok((Record::Ter, _))));
    assert!(matches!(lex_line(&chars("END"), 1), Ok((Record::End, _))));
    assert!(matches!(lex_line(&chars("ENDMDL "), 1), Ok((Record::EndModel, _))));
    assert!(matches!(lex_line(&chars("TER   12"), 1), Ok((Record::Ter, _))));
    let err = lex_line(&chars("HELLO WORLD"), 5).unwrap_err();
    assert_eq!(
        err,
        Diagnostic::new(Severity::GeneralWarning, Issue::UnrecognisedTag, Location::Line { line: 5 })
    );
    assert_eq!(lex_line(&chars("AB"), 2).unwrap_err().issue, Issue::UnrecognisedTag);
    match lex_line(&chars("MODEL        7"), 1).unwrap() {
        (Record::Model { serial }, errors) => {
            assert_eq!(serial, 7);
            assert!(errors.is_empty());
        }
        _ => panic!("not a model"),
    }
}

#[test]
fn sequence_line_codes() {
    match lex_line(&chars(&padded("SEQRES   2 A   21  LYS VAL PHE GLY ARG CYS GLU LEU ALA ALA ALA MET LYS ARG")), 1).unwrap() {
        (Record::Seqres { serial, chain, total, codes }, errors) => {
            assert!(errors.is_empty());
            assert_eq!(serial, 2);
            assert_eq!(chain, 'A');
            assert_eq!(total, 21);
            assert_eq!(codes.len(), 13);
            assert_eq!(codes[0], ['L', 'Y', 'S']);
            assert_eq!(codes[11], ['M', 'E', 'T']);
            assert_eq!(codes[12], ['L', 'Y', 'S']);
        }
        _ => panic!("not a sequence line"),
    }
}

#[test]
fn atom_with_unprintable_name_is_rejected() {
    let line = atom_line("ATOM", 1, "C\u{e9}", "ALA", 'A', 1, ["1.0", "2.0", "3.0"]);
    let mut state = Assembler::new();
    state.add_line(&chars(&line), 2);
    assert_eq!(
        state.errors,
        vec![Diagnostic::new(Severity::InvalidatingError, Issue::InvalidCharacters, Location::Line { line: 2 })]
    );
    assert!(state.current.chains.is_empty());
}

#[test]
fn fragment_totals_and_lengths_are_checked() {
    let lines = vec![
        padded("SEQRES   1 A    3  ALA"),
        padded("SEQRES   2 A    4  GLY"),
        atom_line("ATOM", 1, "N", "ALA", 'A', 1, ["1.0", "2.0", "3.0"]),
        atom_line("ATOM", 2, "N", "GLY", 'A', 2, ["1.0", "2.0", "3.0"]),
    ];
    let (_, errors) = run(&lines, StrictnessLevel::Loose).unwrap();
    assert_eq!(
        issues(&errors),
        vec![
            Issue::SequenceTotalInconsistent { chain: 'A', serial: 2 },
            Issue::SequenceLengthMismatch { chain: 'A' },
        ]
    );
}

#[test]
fn database_span_must_match_declared_total() {
    let lines = vec![
        padded("DBREF  1ABC A    1     2  UNP    P12345   TEST_HUMAN       1      2"),
        padded("SEQRES   1 A    3  ALA GLY SER"),
        atom_line("ATOM", 1, "N", "ALA", 'A', 1, ["1.0", "2.0", "3.0"]),
        atom_line("ATOM", 2, "N", "GLY", 'A', 2, ["1.0", "2.0", "3.0"]),
        atom_line("ATOM", 3, "N", "SER", 'A', 3, ["1.0", "2.0", "3.0"]),
    ];
    let (_, errors) = run(&lines, StrictnessLevel::Loose).unwrap();
    assert_eq!(issues(&errors), vec![Issue::SequenceReferenceMismatch { chain: 'A' }]);
}

#[test]
fn walk_stops_when_residues_run_out() {
    let lines = vec![
        padded("SEQRES   1 A    3  ALA GLY SER"),
        atom_line("ATOM", 1, "N", "ALA", 'A', 1, ["1.0", "2.0", "3.0"]),
    ];
    let (pdb, errors) = run(&lines, StrictnessLevel::Loose).unwrap();
    assert_eq!(pdb.models[0].chains[0].residues.len(), 1);
    assert_eq!(
        issues(&errors),
        vec![Issue::SequenceChainLengthMismatch { chain: 'A', declared: 3, found: 1 }]
    );
}

#[test]
fn anisotropic_factors_follow_insertion_not_storage_order() {
    let first = atom_line("ATOM", 7, "N", "GLY", 'A', 5, ["1.0", "2.0", "3.0"]);
    let second = atom_line("ATOM", 7, "N", "ALA", 'A', 2, ["1.0", "2.0", "3.0"]);
    let anisou = padded("ANISOU    7  N   ALA A   2       10     20     30     40     50     60");
    let (pdb, errors) = run(&[first, second, anisou], StrictnessLevel::Strict).unwrap();
    assert!(errors.is_empty());
    let residues = &pdb.models[0].chains[0].residues;
    assert_eq!(residues[0].serial, 2);
    assert_eq!(residues[0].atoms[0].anisotropic.unwrap()[0], Decimal::new(10, 4));
    assert!(residues[1].atoms[0].anisotropic.is_none());
    assert_eq!(residues[1].atoms[0].order, 0);
    assert_eq!(residues[0].atoms[0].order, 1);
}

#[test]
fn fields_past_the_line_end_take_their_defaults() {
    let full = atom_line("ATOM", 1, "N", "ALA", 'A', 1, ["1.0", "2.0", "3.0"]);
    let short = format!("{}XYZ", &full[..72]);
    assert_eq!(short.chars().count(), 75);
    match lex_line(&chars(&short), 1).unwrap() {
        (Record::Atom(a), errors) => {
            assert!(errors.is_empty());
            assert_eq!(a.basics.segment, [' ', ' ', ' ', ' ']);
            assert_eq!(a.basics.element, [' ', ' ']);
            assert_eq!(a.basics.charge, 0);
        }
        _ => panic!("not an atom"),
    }
    let with_charge = format!("{}SEGM N2", &full[..72]);
    match lex_line(&chars(&with_charge), 1).unwrap() {
        (Record::Atom(a), errors) => {
            assert!(errors.is_empty());
            assert_eq!(a.basics.segment, ['S', 'E', 'G', 'M']);
            assert_eq!(a.basics.element, [' ', 'N']);
            assert_eq!(a.basics.charge, 0);
        }
        _ => panic!("not an atom"),
    }
}

#[test]
fn space_group_columns_are_kept_as_read() {
    let line = "CRYST1   52.000   58.600   61.900  90.00  90.00  90.00 P 1        ";
    match lex_line(&chars(line), 1).unwrap() {
        (Record::Crystal(c), errors) => {
            assert!(errors.is_empty());
            assert_eq!(c.space_group, "P 1        ");
            assert_eq!(c.z, 1);
        }
        _ => panic!("not a crystal line"),
    }
    let mut state = Assembler::new();
    state.add_line(&chars(line), 1);
    assert_eq!(state.pdb.symmetry.as_ref().unwrap().symbol, "P 1");
}

#[test]
fn fragment_totals_compare_with_the_first() {
    let lines = vec![
        padded("SEQRES   1 A    0  ALA"),
        padded("SEQRES   2 A    2  GLY"),
        atom_line("ATOM", 1, "N", "ALA", 'A', 1, ["1.0", "2.0", "3.0"]),
        atom_line("ATOM", 2, "N", "GLY", 'A', 2, ["1.0", "2.0", "3.0"]),
    ];
    let (_, errors) = run(&lines, StrictnessLevel::Loose).unwrap();
    assert_eq!(
        issues(&errors),
        vec![
            Issue::SequenceTotalInconsistent { chain: 'A', serial: 2 },
            Issue::SequenceLengthMismatch { chain: 'A' },
        ]
    );
}
