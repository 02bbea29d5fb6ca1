//! A structure: its atoms, the centroid of its backbone and the radius that
//! encloses the backbone.
//!
//! Only backbone atoms count, those whose atom type is exactly `CA`. The
//! centroid is the mean of their positions, each coordinate rounded down to a
//! whole unit. The radius is the largest distance from a given centre to a
//! backbone atom, rounded down to a whole unit.

use vstd::prelude::*;
use vstd::arithmetic::div_mod::lemma_fundamental_div_mod;
use vstd::arithmetic::div_mod::lemma_mod_bound;
use crate::geometry::floor_div;
use crate::geometry::integer_sqrt;
use crate::geometry::is_floor_sqrt;
use crate::geometry::lemma_squared_distance_nonnegative;
use crate::geometry::squared_distance;
use crate::geometry::squared_distance_between;
use crate::geometry::Point3;
use crate::numeral::Fixed;
use crate::numeral::LIMIT;
use crate::pdb::atom_views;
use crate::pdb::atoms_in_range;
use crate::pdb::parse_pdb_from_string;
use crate::pdb::parse_result;
use crate::pdb::Atom;
use crate::pdb::AtomView;
use crate::pdb::PdbError;

verus! {

/// The radius of a structure without backbone atoms: fifty.
pub const FALLBACK_RADIUS: u64 = 500_000_000;

/// Whether `atom` is a backbone atom: its type is exactly `CA`.
pub open spec fn is_backbone(atom: AtomView) -> bool {
    atom.atom_type == seq!['C', 'A']
}

/// The positions of the backbone atoms among `atoms`, in order.
pub open spec fn backbone_positions(atoms: Seq<AtomView>) -> Seq<Point3>
    decreases atoms.len(),
{
    if atoms.len() == 0 {
        Seq::empty()
    } else if is_backbone(atoms.last()) {
        backbone_positions(atoms.drop_last()).push(atoms.last().position)
    } else {
        backbone_positions(atoms.drop_last())
    }
}

/// The sum of the first coordinates of `points`.
pub open spec fn sum_x(points: Seq<Point3>) -> int
    decreases points.len(),
{
    if points.len() == 0 {
        0
    } else {
        sum_x(points.drop_last()) + points.last().x
    }
}

/// The sum of the second coordinates of `points`.
pub open spec fn sum_y(points: Seq<Point3>) -> int
    decreases points.len(),
{
    if points.len() == 0 {
        0
    } else {
        sum_y(points.drop_last()) + points.last().y
    }
}

/// The sum of the third coordinates of `points`.
pub open spec fn sum_z(points: Seq<Point3>) -> int
    decreases points.len(),
{
    if points.len() == 0 {
        0
    } else {
        sum_z(points.drop_last()) + points.last().z
    }
}

/// The mean of `points`, each coordinate rounded down. It has a meaning only
/// where there is a point.
pub open spec fn centroid(points: Seq<Point3>) -> Point3 {
    Point3 {
        x: (sum_x(points) / points.len() as int) as Fixed,
        y: (sum_y(points) / points.len() as int) as Fixed,
        z: (sum_z(points) / points.len() as int) as Fixed,
    }
}

/// The largest squared distance from `center` to one of `points`; zero where
/// there is no point.
pub open spec fn max_squared_distance(points: Seq<Point3>, center: Point3) -> int
    decreases points.len(),
{
    if points.len() == 0 {
        0
    } else {
        let rest = max_squared_distance(points.drop_last(), center);
        let last = squared_distance(points.last(), center);
        if last > rest {
            last
        } else {
            rest
        }
    }
}

/// Whether every one of `points` is in range.
pub open spec fn points_in_range(points: Seq<Point3>) -> bool {
    forall|i: int| 0 <= i < points.len() ==> (#[trigger] points[i]).in_range()
}

/// The backbone positions of atoms in range are in range, and there are no
/// more of them than atoms.
pub proof fn lemma_backbone_positions_in_range(atoms: Seq<Atom>)
    requires
        atoms_in_range(atoms),
    ensures
        points_in_range(backbone_positions(atom_views(atoms))),
        backbone_positions(atom_views(atoms)).len() <= atoms.len(),
    decreases atoms.len(),
{
    if atoms.len() > 0 {
        let front = atoms.drop_last();
        assert(atoms_in_range(front)) by {
            assert forall|i: int| 0 <= i < front.len() implies (#[trigger] front[i]).position.in_range() by {
                assert(front[i] == atoms[i]);
            }
        }
        lemma_backbone_positions_in_range(front);
        assert(atom_views(atoms).drop_last() == atom_views(front));
        assert(atom_views(atoms).last().position == atoms.last().position);
        assert(atoms[atoms.len() - 1].position.in_range());
    }
}

/// There is a backbone position exactly where some atom is a backbone atom.
pub proof fn lemma_backbone_exists(atoms: Seq<AtomView>)
    ensures
        backbone_positions(atoms).len() > 0 <==> exists|i: int|
            0 <= i < atoms.len() && is_backbone(#[trigger] atoms[i]),
    decreases atoms.len(),
{
    if atoms.len() > 0 {
        let front = atoms.drop_last();
        lemma_backbone_exists(front);
        if is_backbone(atoms.last()) {
            assert(is_backbone(atoms[atoms.len() - 1]));
        } else if backbone_positions(front).len() > 0 {
            let i = choose|i: int| 0 <= i < front.len() && is_backbone(#[trigger] front[i]);
            assert(front[i] == atoms[i]);
        } else {
            assert forall|i: int| 0 <= i < atoms.len() implies !is_backbone(#[trigger] atoms[i]) by {
                if i < front.len() {
                    assert(front[i] == atoms[i]);
                }
            }
        }
    }
}

/// The sums of points in range stay within the number of points times the
/// limit.
pub proof fn lemma_sum_bounds(points: Seq<Point3>)
    requires
        points_in_range(points),
    ensures
        -(points.len() * (LIMIT - 1)) <= sum_x(points) <= points.len() * (LIMIT - 1),
        -(points.len() * (LIMIT - 1)) <= sum_y(points) <= points.len() * (LIMIT - 1),
        -(points.len() * (LIMIT - 1)) <= sum_z(points) <= points.len() * (LIMIT - 1),
    decreases points.len(),
{
    if points.len() > 0 {
        let front = points.drop_last();
        assert(points_in_range(front)) by {
            assert forall|i: int| 0 <= i < front.len() implies (#[trigger] front[i]).in_range() by {
                assert(front[i] == points[i]);
            }
        }
        lemma_sum_bounds(front);
        assert(points[points.len() - 1].in_range());
    }
}

/// The largest squared distance is the squared distance of one of the points,
/// and no point lies farther.
pub proof fn lemma_max_squared_distance(points: Seq<Point3>, center: Point3)
    requires
        points.len() > 0,
    ensures
        exists|i: int|
            0 <= i < points.len() && squared_distance(#[trigger] points[i], center)
                == max_squared_distance(points, center),
        forall|i: int|
            0 <= i < points.len() ==> squared_distance(#[trigger] points[i], center)
                <= max_squared_distance(points, center),
    decreases points.len(),
{
    let front = points.drop_last();
    let last = points.len() - 1;
    assert(points.last() == points[last]);
    if front.len() == 0 {
        lemma_squared_distance_nonnegative(points[last], center);
        assert(max_squared_distance(front, center) == 0);
        assert(squared_distance(points[last], center) == max_squared_distance(points, center));
    } else {
        lemma_max_squared_distance(front, center);
        let j = choose|j: int|
            0 <= j < front.len() && squared_distance(#[trigger] front[j], center)
                == max_squared_distance(front, center);
        assert(front[j] == points[j]);
        if squared_distance(points[last], center) > max_squared_distance(front, center) {
            assert(squared_distance(points[last], center) == max_squared_distance(
                points,
                center,
            ));
        } else {
            assert(squared_distance(points[j], center) == max_squared_distance(points, center));
        }
        assert forall|i: int| 0 <= i < points.len() implies squared_distance(
            #[trigger] points[i],
            center,
        ) <= max_squared_distance(points, center) by {
            if i < front.len() {
                assert(front[i] == points[i]);
            }
        }
    }
}

/// Whether `atom` is a backbone atom.
pub fn is_backbone_atom(atom: &Atom) -> (b: bool)
    ensures
        b == is_backbone(atom@),
{
    let name = atom.atom_type.as_str();
    let b = name.unicode_len() == 2 && name.get_char(0) == 'C' && name.get_char(1) == 'A';
    proof {
        if b {
            assert(atom@.atom_type =~= seq!['C', 'A']);
        }
    }
    b
}

/// The mean of values in range is in range.
proof fn lemma_mean_in_range(sum: int, n: int)
    requires
        n > 0,
        -(n * (LIMIT - 1)) <= sum <= n * (LIMIT - 1),
    ensures
        -LIMIT < sum / n < LIMIT,
{
    let q = sum / n;
    let r = sum % n;
    lemma_fundamental_div_mod(sum, n);
    lemma_mod_bound(sum, n);
    assert(-LIMIT < q < LIMIT) by (nonlinear_arith)
        requires
            n > 0,
            sum == n * q + r,
            0 <= r < n,
            -(n * (LIMIT - 1)) <= sum <= n * (LIMIT - 1),
    ;
}

/// A structure: its atoms in the order of their records, the centroid of its
/// backbone, and the largest distance from that centroid to a backbone atom.
#[derive(Clone, Debug)]
pub struct Protein {
    pub atoms: Vec<Atom>,
    pub center: Point3,
    pub maximum_radius: u64,
}

/// What a document yields as a structure: its atoms, unless a record is
/// malformed or no atom is a backbone atom.
pub open spec fn structure_of(text: Seq<char>) -> Result<Seq<AtomView>, PdbError> {
    match parse_result(text) {
        Ok(atoms) => if backbone_positions(atoms).len() == 0 {
            Err(PdbError::DegenerateGeometry)
        } else {
            Ok(atoms)
        },
        Err(e) => Err(e),
    }
}

impl Protein {
    /// Whether the centre and the radius are those of the atoms: there is a
    /// backbone, the centre is its centroid, and the radius is the largest
    /// distance from the centre to a backbone atom, rounded down.
    pub open spec fn well_formed(&self) -> bool {
        let points = backbone_positions(atom_views(self.atoms@));
        &&& atoms_in_range(self.atoms@)
        &&& points.len() > 0
        &&& self.center == centroid(points)
        &&& is_floor_sqrt(self.maximum_radius as int, max_squared_distance(points, self.center))
    }

    /// The centroid of the backbone atoms among `atoms`. Without a backbone
    /// atom there is no centroid, and the answer is `DegenerateGeometry`.
    pub fn calculate_center(atoms: &[Atom]) -> (r: Result<Point3, PdbError>)
        requires
            atoms_in_range(atoms@),
        ensures
            match r {
                Ok(c) => backbone_positions(atom_views(atoms@)).len() > 0 && c == centroid(
                    backbone_positions(atom_views(atoms@)),
                ) && c.in_range(),
                Err(e) => e == PdbError::DegenerateGeometry && backbone_positions(
                    atom_views(atoms@),
                ).len() == 0,
            },
    {
        let n = atoms.len();
        let ghost views = atom_views(atoms@);
        let mut count: u64 = 0;
        let mut sx: i128 = 0;
        let mut sy: i128 = 0;
        let mut sz: i128 = 0;
        let mut i: usize = 0;
        while i < n
            invariant
                i <= n == atoms@.len(),
                atoms_in_range(atoms@),
                views == atom_views(atoms@),
                count == backbone_positions(views.take(i as int)).len(),
                count <= i,
                sx == sum_x(backbone_positions(views.take(i as int))),
                sy == sum_y(backbone_positions(views.take(i as int))),
                sz == sum_z(backbone_positions(views.take(i as int))),
                -(count * (LIMIT - 1)) <= sx <= count * (LIMIT - 1),
                -(count * (LIMIT - 1)) <= sy <= count * (LIMIT - 1),
                -(count * (LIMIT - 1)) <= sz <= count * (LIMIT - 1),
            decreases n - i,
        {
            proof {
                assert(views.take(i + 1).drop_last() == views.take(i as int));
                assert(views.take(i + 1).last() == atoms@[i as int]@);
                assert(atoms@[i as int].position.in_range());
                let points = backbone_positions(views.take(i as int));
                assert(points.push(atoms@[i as int].position).drop_last() == points);
                assert(count * (LIMIT - 1) <= 0xffff_ffff_ffff_ffff * (LIMIT - 1))
                    by (nonlinear_arith)
                    requires
                        0 <= count <= 0xffff_ffff_ffff_ffff,
                ;
                assert((count + 1) * (LIMIT - 1) == count * (LIMIT - 1) + (LIMIT - 1))
                    by (nonlinear_arith);
            }
            if is_backbone_atom(&atoms[i]) {
                sx = sx + atoms[i].position.x as i128;
                sy = sy + atoms[i].position.y as i128;
                sz = sz + atoms[i].position.z as i128;
                count = count + 1;
            }
            i += 1;
        }
        assert(views.take(n as int) == views);
        if count == 0 {
            Err(PdbError::DegenerateGeometry)
        } else {
            proof {
                lemma_mean_in_range(sx as int, count as int);
                lemma_mean_in_range(sy as int, count as int);
                lemma_mean_in_range(sz as int, count as int);
            }
            Ok(
                Point3 {
                    x: floor_div(sx, count) as i64,
                    y: floor_div(sy, count) as i64,
                    z: floor_div(sz, count) as i64,
                },
            )
        }
    }

    /// The largest distance from `center` to a backbone atom among `atoms`,
    /// rounded down to a whole unit. Without a backbone atom it is
    /// `FALLBACK_RADIUS`.
    pub fn calculate_maximum_distance(atoms: &[Atom], center: Point3) -> (r: u64)
        requires
            atoms_in_range(atoms@),
        ensures
            backbone_positions(atom_views(atoms@)).len() == 0 ==> r == FALLBACK_RADIUS,
            backbone_positions(atom_views(atoms@)).len() > 0 ==> is_floor_sqrt(
                r as int,
                max_squared_distance(backbone_positions(atom_views(atoms@)), center),
            ),
    {
        let n = atoms.len();
        let ghost views = atom_views(atoms@);
        let mut found = false;
        let mut largest: u128 = 0;
        let mut i: usize = 0;
        while i < n
            invariant
                i <= n == atoms@.len(),
                atoms_in_range(atoms@),
                views == atom_views(atoms@),
                found == (backbone_positions(views.take(i as int)).len() > 0),
                largest == max_squared_distance(backbone_positions(views.take(i as int)), center),
            decreases n - i,
        {
            proof {
                assert(views.take(i + 1).drop_last() == views.take(i as int));
                assert(views.take(i + 1).last() == atoms@[i as int]@);
                assert(atoms@[i as int].position.in_range());
                let points = backbone_positions(views.take(i as int));
                assert(points.push(atoms@[i as int].position).drop_last() == points);
            }
            if is_backbone_atom(&atoms[i]) {
                let d = squared_distance_between(atoms[i].position, center);
                if d > largest {
                    largest = d;
                }
                found = true;
            }
            i += 1;
        }
        assert(views.take(n as int) == views);
        if found {
            integer_sqrt(largest)
        } else {
            FALLBACK_RADIUS
        }
    }

    /// The structure of `atoms`: the atoms as given, with the centroid of
    /// their backbone and the radius around it. Without a backbone atom the
    /// answer is `DegenerateGeometry`.
    pub fn from_atoms(atoms: Vec<Atom>) -> (r: Result<Protein, PdbError>)
        requires
            atoms_in_range(atoms@),
        ensures
            match r {
                Ok(protein) => protein.atoms == atoms && protein.well_formed(),
                Err(e) => e == PdbError::DegenerateGeometry && backbone_positions(
                    atom_views(atoms@),
                ).len() == 0,
            },
    {
        let center = match Protein::calculate_center(atoms.as_slice()) {
            Ok(c) => c,
            Err(e) => {
                return Err(e);
            },
        };
        let maximum_radius = Protein::calculate_maximum_distance(atoms.as_slice(), center);
        Ok(Protein { atoms, center, maximum_radius })
    }

    /// Reads a document into a structure. A malformed atom record refuses the
    /// document with `MalformedCoordinate`, a document whose records are sound
    /// but hold no backbone atom with `DegenerateGeometry`. Any other document
    /// yields its atoms in the order of their records, with their centroid
    /// and radius.
    pub fn from_pdb_string(pdb_content: &str) -> (r: Result<Protein, PdbError>)
        ensures
            match r {
                Ok(protein) => structure_of(pdb_content@) == Ok::<Seq<AtomView>, PdbError>(
                    atom_views(protein.atoms@),
                ) && protein.well_formed(),
                Err(e) => structure_of(pdb_content@) == Err::<Seq<AtomView>, PdbError>(e),
            },
    {
        let atoms = match parse_pdb_from_string(pdb_content) {
            Ok(atoms) => atoms,
            Err(e) => {
                return Err(e);
            },
        };
        Protein::from_atoms(atoms)
    }
}

/// The centroid is the mean rounded down: on each axis the number of points
/// times its coordinate is at most the sum of the points' coordinates and
/// misses that sum by less than the number of points. It is in range.
pub proof fn lemma_centroid_is_floor_of_mean(points: Seq<Point3>)
    requires
        points.len() > 0,
        points_in_range(points),
    ensures
        centroid(points).in_range(),
        points.len() * centroid(points).x <= sum_x(points) < points.len() * centroid(points).x
            + points.len(),
        points.len() * centroid(points).y <= sum_y(points) < points.len() * centroid(points).y
            + points.len(),
        points.len() * centroid(points).z <= sum_z(points) < points.len() * centroid(points).z
            + points.len(),
{
    let n = points.len() as int;
    lemma_sum_bounds(points);
    lemma_mean_in_range(sum_x(points), n);
    lemma_mean_in_range(sum_y(points), n);
    lemma_mean_in_range(sum_z(points), n);
    lemma_fundamental_div_mod(sum_x(points), n);
    lemma_fundamental_div_mod(sum_y(points), n);
    lemma_fundamental_div_mod(sum_z(points), n);
    lemma_mod_bound(sum_x(points), n);
    lemma_mod_bound(sum_y(points), n);
    lemma_mod_bound(sum_z(points), n);
}

/// The centre of a structure is in range, as are its backbone positions.
pub proof fn lemma_center_in_range(protein: Protein)
    requires
        protein.well_formed(),
    ensures
        protein.center.in_range(),
        points_in_range(backbone_positions(atom_views(protein.atoms@))),
{
    lemma_backbone_positions_in_range(protein.atoms@);
    lemma_centroid_is_floor_of_mean(backbone_positions(atom_views(protein.atoms@)));
}

/// The radius of a structure encloses its backbone: no backbone atom lies as
/// far from the centre as the radius plus one unit, and one lies at least as
/// far as the radius.
pub proof fn lemma_radius_encloses_backbone(protein: Protein)
    requires
        protein.well_formed(),
    ensures
        forall|i: int|
            0 <= i < backbone_positions(atom_views(protein.atoms@)).len() ==> squared_distance(
                #[trigger] backbone_positions(atom_views(protein.atoms@))[i],
                protein.center,
            ) < (protein.maximum_radius + 1) * (protein.maximum_radius + 1),
        exists|i: int|
            0 <= i < backbone_positions(atom_views(protein.atoms@)).len()
                && protein.maximum_radius * protein.maximum_radius <= squared_distance(
                #[trigger] backbone_positions(atom_views(protein.atoms@))[i],
                protein.center,
            ),
{
    let points = backbone_positions(atom_views(protein.atoms@));
    lemma_max_squared_distance(points, protein.center);
}

/// A document whose records are sound yields no structure exactly where none
/// of its atoms is a backbone atom, and the answer is then
/// `DegenerateGeometry`.
pub proof fn lemma_degenerate_iff_no_backbone(text: Seq<char>)
    ensures
        parse_result(text) matches Ok(atoms) ==> (structure_of(text) == Err::<
            Seq<AtomView>,
            PdbError,
        >(PdbError::DegenerateGeometry) <==> forall|i: int|
            0 <= i < atoms.len() ==> !is_backbone(#[trigger] atoms[i])),
        parse_result(text) matches Ok(atoms) ==> (structure_of(text) == Ok::<
            Seq<AtomView>,
            PdbError,
        >(atoms) <==> exists|i: int| 0 <= i < atoms.len() && is_backbone(#[trigger] atoms[i])),
        parse_result(text) matches Err(e) ==> structure_of(text) == Err::<Seq<AtomView>, PdbError>(
            e,
        ) && e != PdbError::DegenerateGeometry,
{
    if let Ok(atoms) = parse_result(text) {
        lemma_backbone_exists(atoms);
    }
}

} // verus!
