use protein_viewer::geometry::Point3;
use protein_viewer::numeral::ONE;
use protein_viewer::pdb::chain_id_in;
use protein_viewer::pdb::field_of;
use protein_viewer::pdb::is_atom_line;
use protein_viewer::pdb::parse_atom_line;
use protein_viewer::pdb::parse_pdb_from_chars;
use protein_viewer::pdb::parse_pdb_from_string;
use protein_viewer::pdb::parse_position;
use protein_viewer::pdb::Atom;
use protein_viewer::pdb::PdbError;

/// A record with each value right-aligned in its columns.
fn record(
    name: &str,
    residue: &str,
    chain: char,
    number: &str,
    x: &str,
    y: &str,
    z: &str,
    occupancy: &str,
    temperature: &str,
) -> String {
    format!(
        "ATOM  {:>5} {:<4} {:>3} {}{:>4}    {:>8}{:>8}{:>8}{:>6}{:>6}           C  ",
        1, name, residue, chain, number, x, y, z, occupancy, temperature
    )
}

fn record_chars(line: &str) -> Vec<char> {
    line.chars().collect()
}

fn atom_of(line: &str) -> Option<Atom> {
    parse_atom_line(&record_chars(line))
}

const SAMPLE: &str = "ATOM      2  CA  MET A   1      11.104  13.207  -2.100  0.85 23.40           C  ";

#[test]
fn sample_record_has_its_fields_in_their_columns() {
    let chars = record_chars(SAMPLE);
    assert_eq!(chars.len(), 80);
    assert_eq!(field_of(&chars, 12, 16), ['C', 'A']);
    assert_eq!(field_of(&chars, 17, 20), ['M', 'E', 'T']);
    assert_eq!(field_of(&chars, 22, 26), ['1']);
    assert_eq!(field_of(&chars, 30, 38).iter().collect::<String>(), "11.104");
    assert_eq!(field_of(&chars, 46, 54).iter().collect::<String>(), "-2.100");
}

#[test]
fn round_trip_field_extraction() {
    let atom = atom_of(SAMPLE).unwrap();
    assert_eq!(atom.position, Point3 { x: 111_040_000, y: 132_070_000, z: -21_000_000 });
    assert_eq!(atom.atom_type, "CA");
    assert_eq!(atom.residue, "MET");
    assert_eq!(atom.chain_id, 'A');
    assert_eq!(atom.residue_number, 1);
    assert_eq!(atom.occupancy, 8_500_000);
    assert_eq!(atom.temperature_factor, 234_000_000);
}

#[test]
fn round_trip_of_a_built_record() {
    let line = record("OXT", "GLY", 'Q', "-123", "-999.999", "9999.999", "0.001", "0.50", "100.00");
    let atom = atom_of(&line).unwrap();
    assert_eq!(atom.position, Point3 { x: -9_999_990_000, y: 99_999_990_000, z: 10_000 });
    assert_eq!(atom.atom_type, "OXT");
    assert_eq!(atom.residue, "GLY");
    assert_eq!(atom.chain_id, 'Q');
    assert_eq!(atom.residue_number, -123);
    assert_eq!(atom.occupancy, ONE / 2);
    assert_eq!(atom.temperature_factor, 100 * ONE);
}

#[test]
fn round_trip_as_floating_point() {
    let atom = atom_of(SAMPLE).unwrap();
    let unit = ONE as f64;
    assert!((atom.position.x as f64 / unit - 11.104).abs() < 1e-9);
    assert!((atom.position.y as f64 / unit - 13.207).abs() < 1e-9);
    assert!((atom.position.z as f64 / unit + 2.1).abs() < 1e-9);
    assert!((atom.occupancy as f64 / unit - 0.85).abs() < 1e-9);
    assert!((atom.temperature_factor as f64 / unit - 23.4).abs() < 1e-9);
}

#[test]
fn names_lose_the_blanks_around_them() {
    let line = record(" N", " AL", 'B', "7", "1.0", "2.0", "3.0", "1.00", "0.00");
    let atom = atom_of(&line).unwrap();
    assert_eq!(atom.atom_type, "N");
    assert_eq!(atom.residue, "AL");
}

#[test]
fn filtering() {
    let text = [
        "HEADER    OXYGEN TRANSPORT",
        SAMPLE,
        "HETATM 1071 FE   HEM A   1       8.128   7.371 -15.022  1.00 16.74          FE  ",
        "ATOM      3  C   MET A   1      12.000  14.000  -3.000  1.00 20.00           C  ",
        "TER",
        "REMARK ATOM lines are counted",
        " ATOM     4  O   MET A   1      12.000  14.000  -3.000  1.00 20.00           O  ",
        "ATOM      5  N   GLY B   2      13.000  15.000  -4.000  1.00 21.00           N  ",
        "END",
    ]
    .join("\n");
    let atoms = parse_pdb_from_string(&text).unwrap();
    assert_eq!(atoms.len(), 3);
    let count = text.lines().filter(|l| l.starts_with("ATOM")).count();
    assert_eq!(atoms.len(), count);
}

#[test]
fn atoms_keep_the_order_of_their_lines() {
    let text = format!(
        "{}\nREMARK\n{}\n{}\n",
        record("N", "MET", 'A', "1", "1.0", "0.0", "0.0", "1.00", "0.00"),
        record("CA", "MET", 'A', "1", "2.0", "0.0", "0.0", "1.00", "0.00"),
        record("C", "GLY", 'B', "2", "3.0", "0.0", "0.0", "1.00", "0.00"),
    );
    let atoms = parse_pdb_from_string(&text).unwrap();
    let names: Vec<&str> = atoms.iter().map(|a| a.atom_type.as_str()).collect();
    assert_eq!(names, vec!["N", "CA", "C"]);
    let xs: Vec<i64> = atoms.iter().map(|a| a.position.x).collect();
    assert_eq!(xs, vec![ONE, 2 * ONE, 3 * ONE]);
    assert_eq!(atoms[2].chain_id, 'B');
    assert_eq!(atoms[2].residue_number, 2);
}

#[test]
fn empty_input_yields_no_atom() {
    assert_eq!(parse_pdb_from_string("").unwrap().len(), 0);
    assert_eq!(parse_pdb_from_string("\n\n").unwrap().len(), 0);
    assert_eq!(parse_pdb_from_string("HEADER\nEND\n").unwrap().len(), 0);
    assert_eq!(parse_pdb_from_chars(&[]).unwrap().len(), 0);
}

#[test]
fn default_fallback() {
    let line = record("CA", "MET", 'A', "1", "1.0", "2.0", "3.0", "  abc", "  xyz");
    let atom = atom_of(&line).unwrap();
    assert_eq!(atom.occupancy, ONE);
    assert_eq!(atom.temperature_factor, 0);
    let blank = record("CA", "MET", 'A', "", "1.0", "2.0", "3.0", "", "");
    let atom = atom_of(&blank).unwrap();
    assert_eq!(atom.residue_number, 0);
    assert_eq!(atom.occupancy, ONE);
    assert_eq!(atom.temperature_factor, 0);
    assert_eq!(chain_id_in(&record_chars("ATOM      2  CA  MET")), 'A');
    assert_eq!(chain_id_in(&record_chars("ATOM      2  CA  MET ")), 'A');
    assert_eq!(chain_id_in(&record_chars("ATOM      2  CA  MET Z")), 'Z');
}

#[test]
fn residue_number_falls_back_to_zero() {
    for number in ["  1a", "1 2", "x", "+", "1.5"] {
        let line = record("CA", "MET", 'A', number, "1.0", "2.0", "3.0", "1.00", "0.00");
        assert_eq!(atom_of(&line).unwrap().residue_number, 0, "{:?}", number);
    }
    let line = record("CA", "MET", 'A', "-42", "1.0", "2.0", "3.0", "1.00", "0.00");
    assert_eq!(atom_of(&line).unwrap().residue_number, -42);
}

#[test]
fn record_that_ends_after_its_coordinates_has_default_trailing_fields() {
    let line: String = SAMPLE.chars().take(54).collect();
    let atom = atom_of(&line).unwrap();
    assert_eq!(atom.position, Point3 { x: 111_040_000, y: 132_070_000, z: -21_000_000 });
    assert_eq!(atom.occupancy, ONE);
    assert_eq!(atom.temperature_factor, 0);
    let line: String = SAMPLE.chars().take(60).collect();
    let atom = atom_of(&line).unwrap();
    assert_eq!(atom.occupancy, 8_500_000);
    assert_eq!(atom.temperature_factor, 0);
}

#[test]
fn record_that_ends_within_a_trailing_field_holds_what_it_has_of_it() {
    let line: String = SAMPLE.chars().take(63).collect();
    assert!(line.ends_with(" 23"));
    let atom = atom_of(&line).unwrap();
    assert_eq!(atom.occupancy, 8_500_000);
    assert_eq!(atom.temperature_factor, 23 * ONE);
}

#[test]
fn fatal_coordinate_failure() {
    let good = record("CA", "MET", 'A', "1", "1.0", "2.0", "3.0", "1.00", "0.00");
    let bad = record("CA", "MET", 'A', "2", "1.0x", "2.0", "3.0", "1.00", "0.00");
    let text = format!("{}\n{}\n{}\n", good, bad, good);
    let result = parse_pdb_from_string(&text);
    assert_eq!(result.err(), Some(PdbError::MalformedCoordinate { line_index: 1 }));
}

#[test]
fn each_coordinate_is_owed() {
    let cases = [
        record("CA", "MET", 'A', "1", "", "2.0", "3.0", "1.00", "0.00"),
        record("CA", "MET", 'A', "1", "1.0", "abc", "3.0", "1.00", "0.00"),
        record("CA", "MET", 'A', "1", "1.0", "2.0", "3..0", "1.00", "0.00"),
        record("CA", "MET", 'A', "1", "1 .0", "2.0", "3.0", "1.00", "0.00"),
        record("CA", "MET", 'A', "1", "1.0e", "2.0", "3.0", "1.00", "0.00"),
        record("CA", "MET", 'A', "1", "1.0", "2.0", "inf", "1.00", "0.00"),
        record("CA", "MET", 'A', "1", "NaN", "2.0", "3.0", "1.00", "0.00"),
    ];
    for line in cases {
        assert!(atom_of(&line).is_none(), "{:?}", line);
        assert_eq!(parse_position(&record_chars(&line)), None);
        assert_eq!(
            parse_pdb_from_string(&line).err(),
            Some(PdbError::MalformedCoordinate { line_index: 0 })
        );
    }
}

#[test]
fn record_too_short_for_its_coordinates_is_refused() {
    let line: String = SAMPLE.chars().take(53).collect();
    assert!(atom_of(&line).is_none());
    assert_eq!(
        parse_pdb_from_string(&format!("HEADER\n{}\n", line)).err(),
        Some(PdbError::MalformedCoordinate { line_index: 1 })
    );
    assert_eq!(
        parse_pdb_from_string("ATOM").err(),
        Some(PdbError::MalformedCoordinate { line_index: 0 })
    );
}

#[test]
fn first_malformed_line_is_named() {
    let good = record("CA", "MET", 'A', "1", "1.0", "2.0", "3.0", "1.00", "0.00");
    let bad = record("CA", "MET", 'A', "2", "1.0", "?", "3.0", "1.00", "0.00");
    let text = format!("REMARK\n\n{}\n{}\n{}\nATOM\n", good, bad, bad);
    assert_eq!(
        parse_pdb_from_string(&text).err(),
        Some(PdbError::MalformedCoordinate { line_index: 3 })
    );
}

#[test]
fn malformed_line_that_is_no_atom_record_is_passed_over() {
    let good = record("CA", "MET", 'A', "1", "1.0", "2.0", "3.0", "1.00", "0.00");
    let text = format!("HETATM garbage\natom lower case\n{}\nATO\n", good);
    assert_eq!(parse_pdb_from_string(&text).unwrap().len(), 1);
}

#[test]
fn carriage_returns_before_line_feeds_are_no_part_of_a_record() {
    let short: String = SAMPLE.chars().take(54).collect();
    let text = format!("{}\r\n{}\r\n", SAMPLE, short);
    let atoms = parse_pdb_from_string(&text).unwrap();
    assert_eq!(atoms.len(), 2);
    assert_eq!(atoms[1].position.z, -21_000_000);
    let shorter: String = SAMPLE.chars().take(53).collect();
    assert_eq!(
        parse_pdb_from_string(&format!("{}\r\n", shorter)).err(),
        Some(PdbError::MalformedCoordinate { line_index: 0 })
    );
}

#[test]
fn columns_count_characters() {
    let line = record("CA", "MÉT", 'A', "1", "1.0", "2.0", "3.0", "1.00", "0.00");
    let atom = atom_of(&line).unwrap();
    assert_eq!(atom.residue, "MÉT");
    assert_eq!(atom.chain_id, 'A');
    assert_eq!(atom.position, Point3 { x: ONE, y: 2 * ONE, z: 3 * ONE });
}

#[test]
fn atom_lines_start_with_the_marker() {
    assert!(is_atom_line(&record_chars("ATOM")));
    assert!(is_atom_line(&record_chars("ATOMS and more")));
    assert!(is_atom_line(&record_chars(SAMPLE)));
    assert!(!is_atom_line(&record_chars("ATO")));
    assert!(!is_atom_line(&record_chars(" ATOM")));
    assert!(!is_atom_line(&record_chars("atom")));
    assert!(!is_atom_line(&record_chars("HETATM")));
    assert!(!is_atom_line(&record_chars("")));
}

#[test]
fn positions_read_are_in_range() {
    let line = record("CA", "MET", 'A', "1", "99999999", "-9999999", ".9999999", "1.00", "0.00");
    let atom = atom_of(&line).unwrap();
    assert!(atom.position.is_in_range());
    assert_eq!(atom.position.x, 999_999_990_000_000);
    assert_eq!(atom.position.y, -99_999_990_000_000);
    assert_eq!(atom.position.z, 9_999_999);
}

#[test]
fn coordinates_may_carry_an_exponent() {
    let line = record("CA", "MET", 'A', "1", "1e2", "-2.5E1", "1.5e-3", "1.00", "0.00");
    let atom = atom_of(&line).unwrap();
    assert_eq!(atom.position, Point3 { x: 100 * ONE, y: -25 * ONE, z: 15_000 });
    let atoms = parse_pdb_from_string(&line).unwrap();
    assert_eq!(atoms.len(), 1);
    assert_eq!(atoms[0].position.x as f64 / ONE as f64, 100.0);
}

#[test]
fn trailing_fields_may_carry_an_exponent() {
    let line = record("CA", "MET", 'A', "1", "1.0", "2.0", "3.0", "5e-1", "2.5e1");
    let atom = atom_of(&line).unwrap();
    assert_eq!(atom.occupancy, ONE / 2);
    assert_eq!(atom.temperature_factor, 25 * ONE);
}

#[test]
fn coordinate_from_the_limit_on_is_refused() {
    for x in ["1e8", "1e20", "1e39", "-1e8"] {
        let line = record("CA", "MET", 'A', "1", x, "2.0", "3.0", "1.00", "0.00");
        assert_eq!(
            parse_pdb_from_string(&line).err(),
            Some(PdbError::MalformedCoordinate { line_index: 0 }),
            "{:?}",
            x
        );
    }
    let line = record("CA", "MET", 'A', "1", "9.999e7", "1e-9", "3.0", "1.00", "0.00");
    let atom = atom_of(&line).unwrap();
    assert_eq!(atom.position, Point3 { x: 999_900_000_000_000, y: 0, z: 3 * ONE });
    assert!(atom.position.is_in_range());
}

#[test]
fn trailing_field_from_the_limit_on_falls_back() {
    let line = record("CA", "MET", 'A', "1", "1.0", "2.0", "3.0", "1e9", "1e30");
    let atom = atom_of(&line).unwrap();
    assert_eq!(atom.occupancy, ONE);
    assert_eq!(atom.temperature_factor, 0);
}
