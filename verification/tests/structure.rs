use protein_viewer::geometry::floor_div;
use protein_viewer::geometry::integer_sqrt;
use protein_viewer::geometry::squared_distance_between;
use protein_viewer::geometry::Point3;
use protein_viewer::numeral::ONE;
use protein_viewer::pdb::Atom;
use protein_viewer::pdb::PdbError;
use protein_viewer::protein::is_backbone_atom;
use protein_viewer::protein::Protein;
use protein_viewer::protein::FALLBACK_RADIUS;

fn atom_at(atom_type: &str, x: i64, y: i64, z: i64) -> Atom {
    Atom {
        position: Point3::new(x, y, z),
        atom_type: atom_type.to_string(),
        residue: "GLY".to_string(),
        chain_id: 'A',
        residue_number: 1,
        occupancy: ONE,
        temperature_factor: 0,
    }
}

fn triangle() -> Vec<Atom> {
    vec![
        atom_at("CA", 0, 0, 0),
        atom_at("CA", 2 * ONE, 0, 0),
        atom_at("CA", ONE, 3 * ONE, 0),
    ]
}

#[test]
fn centroid_correctness() {
    let atoms = triangle();
    let center = Protein::calculate_center(&atoms).unwrap();
    assert_eq!(center, Point3 { x: ONE, y: ONE, z: 0 });
    let radius = Protein::calculate_maximum_distance(&atoms, center);
    let farthest = atoms
        .iter()
        .map(|a| {
            let dx = (a.position.x - center.x) as f64;
            let dy = (a.position.y - center.y) as f64;
            let dz = (a.position.z - center.z) as f64;
            (dx * dx + dy * dy + dz * dz).sqrt()
        })
        .fold(0.0, f64::max);
    assert!((radius as f64 - farthest).abs() < 1.0);
    assert_eq!(radius, 2 * ONE as u64);
}

#[test]
fn radius_is_the_distance_rounded_down() {
    let atoms = vec![atom_at("CA", 0, 0, 0), atom_at("CA", 2 * ONE, 4 * ONE, 0)];
    let center = Protein::calculate_center(&atoms).unwrap();
    assert_eq!(center, Point3 { x: ONE, y: 2 * ONE, z: 0 });
    let radius = Protein::calculate_maximum_distance(&atoms, center);
    assert_eq!(radius, 22_360_679);
    assert!((radius as f64 / ONE as f64 - 5f64.sqrt()).abs() < 1e-6);
}

#[test]
fn only_backbone_atoms_count() {
    let mut atoms = triangle();
    atoms.insert(1, atom_at("N", 900 * ONE, -900 * ONE, 900 * ONE));
    atoms.push(atom_at("C", -500 * ONE, 0, 0));
    atoms.push(atom_at("ca", 77 * ONE, 0, 0));
    atoms.push(atom_at("CA1", 77 * ONE, 0, 0));
    let center = Protein::calculate_center(&atoms).unwrap();
    assert_eq!(center, Point3 { x: ONE, y: ONE, z: 0 });
    assert_eq!(Protein::calculate_maximum_distance(&atoms, center), 2 * ONE as u64);
}

#[test]
fn backbone_atoms_are_those_named_ca() {
    assert!(is_backbone_atom(&atom_at("CA", 0, 0, 0)));
    for name in ["", "C", "A", "CB", "ca", "Ca", "CA ", " CA", "CAA", "AC"] {
        assert!(!is_backbone_atom(&atom_at(name, 0, 0, 0)), "{:?}", name);
    }
}

#[test]
fn empty_backbone_fallback() {
    let atoms = vec![atom_at("N", ONE, 0, 0), atom_at("C", 0, ONE, 0), atom_at("O", 0, 0, ONE)];
    assert_eq!(Protein::calculate_center(&atoms).err(), Some(PdbError::DegenerateGeometry));
    assert_eq!(Protein::calculate_maximum_distance(&atoms, Point3::origin()), FALLBACK_RADIUS);
    assert_eq!(FALLBACK_RADIUS as f64 / ONE as f64, 50.0);
    assert_eq!(Protein::from_atoms(atoms).err(), Some(PdbError::DegenerateGeometry));
}

#[test]
fn no_atom_at_all_is_degenerate() {
    assert_eq!(Protein::calculate_center(&[]).err(), Some(PdbError::DegenerateGeometry));
    assert_eq!(Protein::calculate_maximum_distance(&[], Point3::origin()), FALLBACK_RADIUS);
    assert_eq!(Protein::from_pdb_string("").err(), Some(PdbError::DegenerateGeometry));
}

#[test]
fn centroid_is_rounded_down() {
    let atoms = vec![atom_at("CA", 0, 0, 0), atom_at("CA", 1, -1, 3), atom_at("CA", 1, -1, -7)];
    let center = Protein::calculate_center(&atoms).unwrap();
    assert_eq!(center, Point3 { x: 0, y: -1, z: -2 });
}

#[test]
fn centroid_of_a_single_atom_is_its_position() {
    let atoms = vec![atom_at("CA", -5 * ONE, 7 * ONE, 123)];
    let center = Protein::calculate_center(&atoms).unwrap();
    assert_eq!(center, Point3 { x: -5 * ONE, y: 7 * ONE, z: 123 });
    assert_eq!(Protein::calculate_maximum_distance(&atoms, center), 0);
}

#[test]
fn radius_is_measured_from_the_given_centre() {
    let atoms = triangle();
    let radius = Protein::calculate_maximum_distance(&atoms, Point3::origin());
    assert_eq!(radius, integer_sqrt(10 * (ONE as u128) * (ONE as u128)));
    assert_eq!(radius, 31_622_776);
}

#[test]
fn structure_from_atoms() {
    let protein = Protein::from_atoms(triangle()).unwrap();
    assert_eq!(protein.atoms.len(), 3);
    assert_eq!(protein.center, Point3 { x: ONE, y: ONE, z: 0 });
    assert_eq!(protein.maximum_radius, 2 * ONE as u64);
}

#[test]
fn structure_from_text() {
    let text = "\
HEADER    TEST
ATOM      1  N   MET A   1       5.000   5.000   5.000  1.00 10.00           N  
ATOM      2  CA  MET A   1       0.000   0.000   0.000  1.00 10.00           C  
ATOM      3  CA  GLY A   2       2.000   0.000   0.000  1.00 10.00           C  
ATOM      4  CA  ALA B   3       1.000   3.000   0.000  1.00 10.00           C  
END
";
    let protein = Protein::from_pdb_string(text).unwrap();
    assert_eq!(protein.atoms.len(), 4);
    assert_eq!(protein.atoms[3].residue, "ALA");
    assert_eq!(protein.center, Point3 { x: ONE, y: ONE, z: 0 });
    assert_eq!(protein.maximum_radius, 2 * ONE as u64);
}

#[test]
fn structure_from_text_without_backbone_is_degenerate() {
    let text = "ATOM      1  N   MET A   1       5.000   5.000   5.000  1.00 10.00           N  \n";
    assert_eq!(Protein::from_pdb_string(text).err(), Some(PdbError::DegenerateGeometry));
}

#[test]
fn structure_from_malformed_text_is_refused() {
    let text = "\
ATOM      2  CA  MET A   1       0.000   0.000   0.000  1.00 10.00           C  
ATOM      3  CA  GLY A   2       2.000   oops    0.000  1.00 10.00           C  
";
    assert_eq!(
        Protein::from_pdb_string(text).err(),
        Some(PdbError::MalformedCoordinate { line_index: 1 })
    );
}

#[test]
fn malformed_text_without_backbone_is_refused_as_malformed() {
    let text = "ATOM      1  N   MET A   1       5.000   5.000          1.00 10.00           N  \n";
    assert_eq!(
        Protein::from_pdb_string(text).err(),
        Some(PdbError::MalformedCoordinate { line_index: 0 })
    );
}

#[test]
fn extreme_coordinates_do_not_overflow() {
    let far = 999_999_999_999_999;
    let atoms = vec![atom_at("CA", far, far, far), atom_at("CA", -far, -far, -far)];
    let center = Protein::calculate_center(&atoms).unwrap();
    assert_eq!(center, Point3::origin());
    let radius = Protein::calculate_maximum_distance(&atoms, center);
    assert_eq!(radius, integer_sqrt(3 * (far as u128) * (far as u128)));
    assert_eq!(radius, 1_732_050_807_568_875);
    let corner = Point3 { x: i64::MIN, y: i64::MAX, z: i64::MIN };
    let radius = Protein::calculate_maximum_distance(&atoms, corner);
    assert!(radius > i64::MAX as u64);
}

#[test]
fn integer_square_roots() {
    assert_eq!(integer_sqrt(0), 0);
    assert_eq!(integer_sqrt(1), 1);
    assert_eq!(integer_sqrt(3), 1);
    assert_eq!(integer_sqrt(4), 2);
    assert_eq!(integer_sqrt(15), 3);
    assert_eq!(integer_sqrt(16), 4);
    assert_eq!(integer_sqrt(17), 4);
    assert_eq!(integer_sqrt(u128::MAX), u64::MAX);
    assert_eq!(integer_sqrt((u64::MAX as u128) * (u64::MAX as u128)), u64::MAX);
    assert_eq!(integer_sqrt((u64::MAX as u128) * (u64::MAX as u128) - 1), u64::MAX - 1);
    for n in 0..2000u128 {
        let r = integer_sqrt(n) as u128;
        assert!(r * r <= n && n < (r + 1) * (r + 1));
    }
}

#[test]
fn squared_distances() {
    let a = Point3::new(1, 2, 3);
    let b = Point3::new(4, -2, 3);
    assert_eq!(squared_distance_between(a, b), 25);
    assert_eq!(squared_distance_between(b, a), 25);
    assert_eq!(squared_distance_between(a, a), 0);
    let corner = Point3::new(i64::MAX, i64::MIN, i64::MAX);
    let d = squared_distance_between(Point3::origin(), corner);
    let m = i64::MAX as u128;
    assert_eq!(d, m * m + (m + 1) * (m + 1) + m * m);
}

#[test]
fn division_rounds_down() {
    assert_eq!(floor_div(7, 2), 3);
    assert_eq!(floor_div(-7, 2), -4);
    assert_eq!(floor_div(-8, 2), -4);
    assert_eq!(floor_div(-1, 3), -1);
    assert_eq!(floor_div(0, 3), 0);
    assert_eq!(floor_div(-3, 3), -1);
    assert_eq!(floor_div(5, 1), 5);
    for a in -50..50i128 {
        for n in 1..9u64 {
            assert_eq!(floor_div(a, n), a.div_euclid(n as i128));
        }
    }
}

#[test]
fn points() {
    assert_eq!(Point3::origin(), Point3 { x: 0, y: 0, z: 0 });
    assert_eq!(Point3::new(1, -2, 3), Point3 { x: 1, y: -2, z: 3 });
    assert!(Point3::new(999_999_999_999_999, 0, -999_999_999_999_999).is_in_range());
    assert!(!Point3::new(1_000_000_000_000_000, 0, 0).is_in_range());
    assert!(!Point3::new(0, -1_000_000_000_000_000, 0).is_in_range());
    assert!(!Point3::new(0, 0, i64::MAX).is_in_range());
}
