//! Atom records of the fixed-column structure file format.
//!
//! A document is a sequence of lines. A line that starts with `ATOM` is an
//! atom record and every other line is passed over. Each field of a record
//! lies in fixed columns, counted in characters from zero.

use vstd::prelude::*;
use vstd::slice::slice_subrange;
use crate::geometry::Point3;
use crate::numeral::decimal_units;
use crate::numeral::integer_value;
use crate::numeral::lemma_decimal_units_range;
use crate::numeral::parse_decimal;
use crate::numeral::parse_i32;
use crate::numeral::Fixed;
use crate::numeral::ONE;
use crate::numeral::is_numeral;
use crate::numeral::has_exponent;
use crate::numeral::lemma_find_exponent_mark;
use crate::numeral::lemma_plain_field_numeral;
use crate::numeral::mantissa_part;
use crate::numeral::unsigned_part;
use crate::text::chars_of;
use crate::text::clip;
use crate::text::find_from;
use crate::text::lemma_find_from;
use crate::text::lemma_trim;
use crate::text::lines_of;
use crate::text::next_line;
use crate::text::string_of;
use crate::text::trim;
use crate::text::trim_bounds;

verus! {

/// The first column of the atom name.
pub const ATOM_NAME_START: usize = 12;

/// One past the last column of the atom name.
pub const ATOM_NAME_END: usize = 16;

/// The first column of the residue name.
pub const RESIDUE_NAME_START: usize = 17;

/// One past the last column of the residue name.
pub const RESIDUE_NAME_END: usize = 20;

/// The column of the chain identifier.
pub const CHAIN_ID_COLUMN: usize = 21;

/// The first column of the residue sequence number.
pub const RESIDUE_NUMBER_START: usize = 22;

/// One past the last column of the residue sequence number.
pub const RESIDUE_NUMBER_END: usize = 26;

/// The first column of the first coordinate.
pub const X_START: usize = 30;

/// The first column of the second coordinate, one past the last of the first.
pub const Y_START: usize = 38;

/// The first column of the third coordinate, one past the last of the second.
pub const Z_START: usize = 46;

/// One past the last column of the third coordinate.
pub const Z_END: usize = 54;

/// The first column of the occupancy.
pub const OCCUPANCY_START: usize = 54;

/// One past the last column of the occupancy.
pub const OCCUPANCY_END: usize = 60;

/// The first column of the temperature factor.
pub const TEMPERATURE_FACTOR_START: usize = 60;

/// One past the last column of the temperature factor.
pub const TEMPERATURE_FACTOR_END: usize = 66;

/// The chain identifier of a record too short to hold one.
pub const DEFAULT_CHAIN_ID: char = 'A';

/// The residue number of a record whose field writes no integer.
pub const DEFAULT_RESIDUE_NUMBER: i32 = 0;

/// The occupancy of a record whose field writes no value that is held: one.
pub const DEFAULT_OCCUPANCY: Fixed = 10_000_000;

/// The temperature factor of a record whose field writes no value that is
/// held: zero.
pub const DEFAULT_TEMPERATURE_FACTOR: Fixed = 0;

/// Why a document yields no structure.
#[derive(Clone, Copy, Debug, PartialEq, Eq, Structural)]
pub enum PdbError {
    /// The atom record on line `line_index`, counted from zero, is too short
    /// to hold its coordinates, or one of them is no numeral or a numeral of a
    /// magnitude that is not held.
    MalformedCoordinate { line_index: usize },
    /// No atom is a backbone atom, so there is no centroid.
    DegenerateGeometry,
}

/// One atom record.
#[derive(Clone, Debug)]
pub struct Atom {
    pub position: Point3,
    pub atom_type: String,
    pub residue: String,
    pub chain_id: char,
    pub residue_number: i32,
    pub occupancy: Fixed,
    pub temperature_factor: Fixed,
}

/// What an atom record holds, with its names as sequences of characters.
pub ghost struct AtomView {
    pub position: Point3,
    pub atom_type: Seq<char>,
    pub residue: Seq<char>,
    pub chain_id: char,
    pub residue_number: i32,
    pub occupancy: Fixed,
    pub temperature_factor: Fixed,
}

impl View for Atom {
    type V = AtomView;

    open spec fn view(&self) -> AtomView {
        AtomView {
            position: self.position,
            atom_type: self.atom_type@,
            residue: self.residue@,
            chain_id: self.chain_id,
            residue_number: self.residue_number,
            occupancy: self.occupancy,
            temperature_factor: self.temperature_factor,
        }
    }
}

/// The views of `atoms`, in order.
pub open spec fn atom_views(atoms: Seq<Atom>) -> Seq<AtomView> {
    atoms.map_values(|a: Atom| a@)
}

/// Whether `line` is an atom record: its first four characters are `ATOM`.
pub open spec fn is_atom_record(line: Seq<char>) -> bool {
    line.len() >= 4 && line[0] == 'A' && line[1] == 'T' && line[2] == 'O' && line[3] == 'M'
}

/// The field in columns `start..end` of `line`, without the blanks around it.
/// A line that ends before `end` holds what it has of the field.
pub open spec fn field(line: Seq<char>, start: int, end: int) -> Seq<char> {
    trim(clip(line, start, end))
}

/// The chain identifier of `line`.
pub open spec fn chain_id_of(line: Seq<char>) -> char {
    if line.len() > CHAIN_ID_COLUMN {
        line[CHAIN_ID_COLUMN as int]
    } else {
        DEFAULT_CHAIN_ID
    }
}

/// The integer that `s` writes where it fits 32 bits, else `fallback`.
pub open spec fn integer_or(s: Seq<char>, fallback: i32) -> i32 {
    match integer_value(s) {
        Some(v) => if i32::MIN <= v <= i32::MAX {
            v as i32
        } else {
            fallback
        },
        None => fallback,
    }
}

/// The fixed-point value of the numeral `s`, else `fallback`.
pub open spec fn decimal_or(s: Seq<char>, fallback: Fixed) -> Fixed {
    match decimal_units(s) {
        Some(v) => v as Fixed,
        None => fallback,
    }
}

/// The position that `line` writes: `None` where the line ends before its
/// last coordinate column or where one of the three fields writes no value
/// that is held: it is no numeral, or its magnitude reaches the limit.
pub open spec fn position_of(line: Seq<char>) -> Option<Point3> {
    let x = decimal_units(field(line, X_START as int, Y_START as int));
    let y = decimal_units(field(line, Y_START as int, Z_START as int));
    let z = decimal_units(field(line, Z_START as int, Z_END as int));
    if line.len() >= Z_END && x is Some && y is Some && z is Some {
        Some(Point3 { x: x->0 as Fixed, y: y->0 as Fixed, z: z->0 as Fixed })
    } else {
        None
    }
}

/// The atom that `line` writes. The coordinates are owed: without them there
/// is no atom. Every other field falls back to its default.
pub open spec fn record_of(line: Seq<char>) -> Option<AtomView> {
    match position_of(line) {
        Some(position) => Some(
            AtomView {
                position,
                atom_type: field(line, ATOM_NAME_START as int, ATOM_NAME_END as int),
                residue: field(line, RESIDUE_NAME_START as int, RESIDUE_NAME_END as int),
                chain_id: chain_id_of(line),
                residue_number: integer_or(
                    field(line, RESIDUE_NUMBER_START as int, RESIDUE_NUMBER_END as int),
                    DEFAULT_RESIDUE_NUMBER,
                ),
                occupancy: decimal_or(
                    field(line, OCCUPANCY_START as int, OCCUPANCY_END as int),
                    DEFAULT_OCCUPANCY,
                ),
                temperature_factor: decimal_or(
                    field(line, TEMPERATURE_FACTOR_START as int, TEMPERATURE_FACTOR_END as int),
                    DEFAULT_TEMPERATURE_FACTOR,
                ),
            },
        ),
        None => None,
    }
}

/// Whether `line` is an atom record that writes no atom.
pub open spec fn is_malformed(line: Seq<char>) -> bool {
    is_atom_record(line) && record_of(line) is None
}

/// The index of the first malformed line of `lines`, or `lines.len()` when
/// no line is malformed.
pub open spec fn first_malformed(lines: Seq<Seq<char>>) -> int
    decreases lines.len(),
{
    if lines.len() == 0 {
        0
    } else {
        let k = first_malformed(lines.drop_last());
        if k < lines.len() - 1 || is_malformed(lines.last()) {
            k
        } else {
            lines.len() as int
        }
    }
}

/// The atoms that the atom records among `lines` write, in the order of the
/// lines. A malformed record writes none.
pub open spec fn records_of(lines: Seq<Seq<char>>) -> Seq<AtomView>
    decreases lines.len(),
{
    if lines.len() == 0 {
        Seq::empty()
    } else if is_atom_record(lines.last()) && record_of(lines.last()) is Some {
        records_of(lines.drop_last()).push(record_of(lines.last())->0)
    } else {
        records_of(lines.drop_last())
    }
}

/// The number of atom records among `lines`.
pub open spec fn atom_record_count(lines: Seq<Seq<char>>) -> nat
    decreases lines.len(),
{
    if lines.len() == 0 {
        0
    } else if is_atom_record(lines.last()) {
        atom_record_count(lines.drop_last()) + 1
    } else {
        atom_record_count(lines.drop_last())
    }
}

/// What a document yields: the atoms of its atom records in the order of its
/// lines, or, where a record is malformed, the first such line and no atom at
/// all.
pub open spec fn parse_result(text: Seq<char>) -> Result<Seq<AtomView>, PdbError> {
    let lines = lines_of(text);
    let k = first_malformed(lines);
    if k < lines.len() {
        Err(PdbError::MalformedCoordinate { line_index: k as usize })
    } else {
        Ok(records_of(lines))
    }
}

/// Whether every atom of `atoms` has its position in range.
pub open spec fn atoms_in_range(atoms: Seq<Atom>) -> bool {
    forall|i: int| 0 <= i < atoms.len() ==> (#[trigger] atoms[i]).position.in_range()
}

/// Whether every atom of `atoms` has its position in range.
pub fn atoms_are_in_range(atoms: &[Atom]) -> (b: bool)
    ensures
        b == atoms_in_range(atoms@),
{
    let mut i: usize = 0;
    while i < atoms.len()
        invariant
            i <= atoms@.len(),
            forall|j: int| 0 <= j < i ==> (#[trigger] atoms@[j]).position.in_range(),
        decreases atoms.len() - i,
    {
        if !atoms[i].position.is_in_range() {
            return false;
        }
        i += 1;
    }
    true
}

/// `first_malformed` yields the least index of a malformed line, or the
/// number of lines when there is none.
pub proof fn lemma_first_malformed(lines: Seq<Seq<char>>)
    ensures
        0 <= first_malformed(lines) <= lines.len(),
        first_malformed(lines) < lines.len() ==> is_malformed(lines[first_malformed(lines)]),
        forall|i: int| 0 <= i < first_malformed(lines) ==> !is_malformed(#[trigger] lines[i]),
    decreases lines.len(),
{
    if lines.len() > 0 {
        let front = lines.drop_last();
        lemma_first_malformed(front);
        assert forall|i: int| 0 <= i < first_malformed(lines) implies !is_malformed(
            #[trigger] lines[i],
        ) by {
            if i < front.len() {
                assert(front[i] == lines[i]);
            }
        }
        if first_malformed(lines) < front.len() {
            assert(front[first_malformed(lines)] == lines[first_malformed(lines)]);
        }
    }
}

/// Lines that follow a malformed line do not change which line is the first
/// malformed one.
pub proof fn lemma_first_malformed_prefix(head: Seq<Seq<char>>, tail: Seq<Seq<char>>)
    requires
        first_malformed(head) < head.len(),
    ensures
        first_malformed(head + tail) == first_malformed(head),
    decreases tail.len(),
{
    if tail.len() == 0 {
        assert(head + tail == head);
    } else {
        lemma_first_malformed_prefix(head, tail.drop_last());
        assert((head + tail).drop_last() == head + tail.drop_last());
    }
}

/// Whether `line` is an atom record.
pub fn is_atom_line(line: &[char]) -> (b: bool)
    ensures
        b == is_atom_record(line@),
{
    line.len() >= 4 && line[0] == 'A' && line[1] == 'T' && line[2] == 'O' && line[3] == 'M'
}

/// The field in columns `start..end` of `line`, without the blanks around it.
pub fn field_of<'a>(line: &'a [char], start: usize, end: usize) -> (f: &'a [char])
    ensures
        f@ == field(line@, start as int, end as int),
{
    let n = line.len();
    let hi = if end < n {
        end
    } else {
        n
    };
    let lo = if start < hi {
        start
    } else {
        hi
    };
    let part = slice_subrange(line, lo, hi);
    let (a, b) = trim_bounds(part);
    slice_subrange(part, a, b)
}

/// The chain identifier of `line`.
pub fn chain_id_in(line: &[char]) -> (c: char)
    ensures
        c == chain_id_of(line@),
{
    if line.len() > CHAIN_ID_COLUMN {
        line[CHAIN_ID_COLUMN]
    } else {
        DEFAULT_CHAIN_ID
    }
}

/// Reads the three coordinates of `line`.
pub fn parse_position(line: &[char]) -> (r: Option<Point3>)
    ensures
        r == position_of(line@),
        r matches Some(p) ==> p.in_range(),
{
    if line.len() < Z_END {
        return None;
    }
    proof {
        lemma_decimal_units_range(field(line@, X_START as int, Y_START as int));
        lemma_decimal_units_range(field(line@, Y_START as int, Z_START as int));
        lemma_decimal_units_range(field(line@, Z_START as int, Z_END as int));
    }
    let x = match parse_decimal(field_of(line, X_START, Y_START)) {
        Some(v) => v,
        None => {
            return None;
        },
    };
    let y = match parse_decimal(field_of(line, Y_START, Z_START)) {
        Some(v) => v,
        None => {
            return None;
        },
    };
    let z = match parse_decimal(field_of(line, Z_START, Z_END)) {
        Some(v) => v,
        None => {
            return None;
        },
    };
    Some(Point3 { x, y, z })
}

/// Reads one record. It yields the atom that `line` writes, and `None` where
/// the line writes none: where its coordinates are missing or malformed.
pub fn parse_atom_line(line: &[char]) -> (r: Option<Atom>)
    ensures
        match r {
            Some(atom) => record_of(line@) == Some(atom@) && atom.position.in_range(),
            None => record_of(line@) is None,
        },
{
    let position = match parse_position(line) {
        Some(p) => p,
        None => {
            return None;
        },
    };
    let atom_type = string_of(field_of(line, ATOM_NAME_START, ATOM_NAME_END));
    let residue = string_of(field_of(line, RESIDUE_NAME_START, RESIDUE_NAME_END));
    let chain_id = chain_id_in(line);
    let residue_number = match parse_i32(field_of(line, RESIDUE_NUMBER_START, RESIDUE_NUMBER_END)) {
        Some(v) => v,
        None => DEFAULT_RESIDUE_NUMBER,
    };
    let occupancy = match parse_decimal(field_of(line, OCCUPANCY_START, OCCUPANCY_END)) {
        Some(v) => v,
        None => DEFAULT_OCCUPANCY,
    };
    let temperature_factor = match parse_decimal(
        field_of(line, TEMPERATURE_FACTOR_START, TEMPERATURE_FACTOR_END),
    ) {
        Some(v) => v,
        None => DEFAULT_TEMPERATURE_FACTOR,
    };
    Some(
        Atom {
            position,
            atom_type,
            residue,
            chain_id,
            residue_number,
            occupancy,
            temperature_factor,
        },
    )
}

/// Reads a document given as its characters; see `parse_pdb_from_string`.
pub fn parse_pdb_from_chars(text: &[char]) -> (r: Result<Vec<Atom>, PdbError>)
    ensures
        match r {
            Ok(atoms) => parse_result(text@) == Ok::<Seq<AtomView>, PdbError>(atom_views(atoms@))
                && atoms_in_range(atoms@) && atoms@.len() == atom_record_count(lines_of(text@)),
            Err(e) => parse_result(text@) == Err::<Seq<AtomView>, PdbError>(e),
        },
{
    proof {
        lemma_atom_count(text@);
    }
    let n = text.len();
    let mut atoms: Vec<Atom> = Vec::new();
    let mut pos: usize = 0;
    let mut line_index: usize = 0;
    let ghost mut done: Seq<Seq<char>> = Seq::empty();
    assert(text@.subrange(0, n as int) == text@);
    assert(done + lines_of(text@) == lines_of(text@));
    assert(atom_views(atoms@) == records_of(done));
    while pos < n
        invariant
            pos <= n == text@.len(),
            line_index == done.len() <= pos,
            lines_of(text@) == done + lines_of(text@.subrange(pos as int, n as int)),
            first_malformed(done) == done.len(),
            atom_views(atoms@) == records_of(done),
            atoms_in_range(atoms@),
        decreases n - pos,
    {
        let (end, next) = next_line(text, pos);
        let line = slice_subrange(text, pos, end);
        let ghost rest = lines_of(text@.subrange(next as int, n as int));
        let ghost longer = done.push(line@);
        proof {
            assert(longer.drop_last() == done);
            assert(done + (seq![line@] + rest) == longer + rest);
        }
        if is_atom_line(line) {
            match parse_atom_line(line) {
                Some(atom) => {
                    proof {
                        assert(atom_views(atoms@.push(atom)) == atom_views(atoms@).push(atom@));
                    }
                    atoms.push(atom);
                },
                None => {
                    proof {
                        lemma_first_malformed_prefix(longer, rest);
                    }
                    return Err(PdbError::MalformedCoordinate { line_index });
                },
            }
        }
        line_index += 1;
        pos = next;
        proof {
            done = longer;
        }
    }
    proof {
        assert(text@.subrange(n as int, n as int).len() == 0);
        assert(done + Seq::<Seq<char>>::empty() == done);
    }
    Ok(atoms)
}

/// Reads a document. Every line that starts with `ATOM` yields one atom, in
/// the order of the lines, and every other line yields nothing, so there are
/// as many atoms as such lines. If an atom record is too short for its
/// coordinates, or one of its coordinates is no numeral or reaches the limit,
/// the whole document is refused with the index of the first such line. The
/// position of every atom returned is in range.
pub fn parse_pdb_from_string(pdb_content: &str) -> (r: Result<Vec<Atom>, PdbError>)
    ensures
        match r {
            Ok(atoms) => parse_result(pdb_content@) == Ok::<Seq<AtomView>, PdbError>(
                atom_views(atoms@),
            ) && atoms_in_range(atoms@) && atoms@.len() == atom_record_count(
                lines_of(pdb_content@),
            ),
            Err(e) => parse_result(pdb_content@) == Err::<Seq<AtomView>, PdbError>(e),
        },
{
    let text = chars_of(pdb_content);
    parse_pdb_from_chars(text.as_slice())
}

/// The atoms of lines put one after another are the atoms of the first lines
/// followed by the atoms of the rest: the order of the lines is kept.
pub proof fn lemma_records_of_concat(head: Seq<Seq<char>>, tail: Seq<Seq<char>>)
    ensures
        records_of(head + tail) == records_of(head) + records_of(tail),
    decreases tail.len(),
{
    if tail.len() == 0 {
        assert(head + tail == head);
        assert(records_of(head) + Seq::<AtomView>::empty() == records_of(head));
    } else {
        lemma_records_of_concat(head, tail.drop_last());
        assert((head + tail).drop_last() == head + tail.drop_last());
        assert((head + tail).last() == tail.last());
        let front = records_of(head) + records_of(tail.drop_last());
        if is_atom_record(tail.last()) && record_of(tail.last()) is Some {
            let atom = record_of(tail.last())->0;
            assert(front.push(atom) == records_of(head) + records_of(tail.drop_last()).push(atom));
        }
    }
}

/// Without a malformed line, every atom record yields one atom and no other
/// line yields any.
pub proof fn lemma_one_atom_per_record(lines: Seq<Seq<char>>)
    requires
        first_malformed(lines) == lines.len(),
    ensures
        records_of(lines).len() == atom_record_count(lines),
    decreases lines.len(),
{
    if lines.len() > 0 {
        lemma_first_malformed(lines.drop_last());
        lemma_one_atom_per_record(lines.drop_last());
    }
}

/// A document that is read yields as many atoms as it has lines that start
/// with `ATOM`.
pub proof fn lemma_atom_count(text: Seq<char>)
    ensures
        parse_result(text) matches Ok(atoms) ==> atoms.len() == atom_record_count(lines_of(text)),
{
    let lines = lines_of(text);
    lemma_first_malformed(lines);
    if first_malformed(lines) == lines.len() {
        lemma_one_atom_per_record(lines);
    }
}

/// A document is refused exactly where one of its lines is malformed, and the
/// line it is refused with is the first such line.
pub proof fn lemma_refused_iff_malformed(text: Seq<char>)
    requires
        text.len() <= usize::MAX,
    ensures
        parse_result(text) is Err <==> exists|i: int|
            0 <= i < lines_of(text).len() && is_malformed(#[trigger] lines_of(text)[i]),
        parse_result(text) matches Err(e) ==> {
            &&& e matches PdbError::MalformedCoordinate { line_index }
            &&& line_index < lines_of(text).len()
            &&& is_malformed(lines_of(text)[line_index as int])
            &&& forall|i: int| 0 <= i < line_index ==> !is_malformed(#[trigger] lines_of(text)[i])
        },
{
    let lines = lines_of(text);
    lemma_first_malformed(lines);
    lemma_line_count(text);
}

/// A text has no more lines than characters.
pub proof fn lemma_line_count(text: Seq<char>)
    ensures
        lines_of(text).len() <= text.len(),
    decreases text.len(),
{
    let k = find_from(text, '\n', 0);
    lemma_find_from(text, '\n', 0);
    if text.len() > 0 && k < text.len() {
        lemma_line_count(text.subrange(k + 1, text.len() as int));
    }
}

/// One atom record whose first coordinate writes no value that is held, as
/// no text does that is no numeral, refuses the whole document, whatever its
/// other lines hold.
pub proof fn lemma_malformed_x_refuses_document(text: Seq<char>, i: int)
    requires
        text.len() <= usize::MAX,
        0 <= i < lines_of(text).len(),
        is_atom_record(lines_of(text)[i]),
        decimal_units(field(lines_of(text)[i], X_START as int, Y_START as int)) is None,
    ensures
        parse_result(text) matches Err(PdbError::MalformedCoordinate { line_index }) && line_index
            <= i,
{
    let lines = lines_of(text);
    lemma_first_malformed(lines);
    lemma_line_count(text);
    assert(is_malformed(lines[i]));
}

/// Whether `s` is a numeral without exponent.
pub open spec fn is_plain_numeral(s: Seq<char>) -> bool {
    is_numeral(s) && !has_exponent(unsigned_part(s))
}

/// A record has a position only where it reaches its last coordinate column
/// and each of its three coordinate fields is a numeral, and it has one
/// wherever it does so and each of those numerals is without exponent: such a
/// numeral always fits. The position is in range.
pub proof fn lemma_position_owed(line: Seq<char>)
    ensures
        position_of(line) is Some ==> {
            &&& line.len() >= Z_END
            &&& is_numeral(field(line, X_START as int, Y_START as int))
            &&& is_numeral(field(line, Y_START as int, Z_START as int))
            &&& is_numeral(field(line, Z_START as int, Z_END as int))
        },
        ({
            &&& line.len() >= Z_END
            &&& is_plain_numeral(field(line, X_START as int, Y_START as int))
            &&& is_plain_numeral(field(line, Y_START as int, Z_START as int))
            &&& is_plain_numeral(field(line, Z_START as int, Z_END as int))
        }) ==> position_of(line) is Some,
        position_of(line) matches Some(p) ==> p.in_range(),
{
    let x = field(line, X_START as int, Y_START as int);
    let y = field(line, Y_START as int, Z_START as int);
    let z = field(line, Z_START as int, Z_END as int);
    lemma_trim(clip(line, X_START as int, Y_START as int));
    lemma_trim(clip(line, Y_START as int, Z_START as int));
    lemma_trim(clip(line, Z_START as int, Z_END as int));
    if is_plain_numeral(x) {
        lemma_plain_field_numeral(x);
    }
    if is_plain_numeral(y) {
        lemma_plain_field_numeral(y);
    }
    if is_plain_numeral(z) {
        lemma_plain_field_numeral(z);
    }
}

/// No text without a character is a numeral or writes an integer.
pub proof fn lemma_empty_is_no_number()
    ensures
        decimal_units(Seq::<char>::empty()) is None,
        integer_value(Seq::<char>::empty()) is None,
{
    let e = Seq::<char>::empty();
    lemma_find_exponent_mark(unsigned_part(e), 0);
    lemma_find_from(mantissa_part(unsigned_part(e)), '.', 0);
}

/// The fields that are not owed fall back to their defaults: an occupancy
/// that writes no value that is held is one, such a temperature factor is
/// zero, a residue number that is no integer is zero, and a field that the
/// line is too short to hold at all counts as such. A line too short to hold
/// a chain identifier has the chain identifier `A`.
pub proof fn lemma_defaults(line: Seq<char>)
    ensures
        line.len() <= CHAIN_ID_COLUMN ==> chain_id_of(line) == 'A',
        record_of(line) matches Some(atom) ==> {
            &&& decimal_units(field(line, OCCUPANCY_START as int, OCCUPANCY_END as int)) is None
                ==> atom.occupancy == ONE
            &&& decimal_units(
                field(line, TEMPERATURE_FACTOR_START as int, TEMPERATURE_FACTOR_END as int),
            ) is None ==> atom.temperature_factor == 0
            &&& integer_value(
                field(line, RESIDUE_NUMBER_START as int, RESIDUE_NUMBER_END as int),
            ) is None ==> atom.residue_number == 0
            &&& line.len() <= OCCUPANCY_START ==> atom.occupancy == ONE
            &&& line.len() <= TEMPERATURE_FACTOR_START ==> atom.temperature_factor == 0
        },
{
    lemma_empty_is_no_number();
    if line.len() <= TEMPERATURE_FACTOR_START {
        assert(clip(line, TEMPERATURE_FACTOR_START as int, TEMPERATURE_FACTOR_END as int)
            == Seq::<char>::empty());
        assert(field(line, TEMPERATURE_FACTOR_START as int, TEMPERATURE_FACTOR_END as int)
            == Seq::<char>::empty());
    }
    if line.len() <= OCCUPANCY_START {
        assert(clip(line, OCCUPANCY_START as int, OCCUPANCY_END as int) == Seq::<char>::empty());
        assert(field(line, OCCUPANCY_START as int, OCCUPANCY_END as int) == Seq::<char>::empty());
    }
}

/// A record that reaches its last column yields exactly what its columns
/// hold: each name is its columns without the blanks around them, the chain
/// identifier is the character in its column, and each number is the value
/// its columns write.
pub proof fn lemma_full_width_record(line: Seq<char>)
    requires
        line.len() >= TEMPERATURE_FACTOR_END,
        decimal_units(trim(line.subrange(X_START as int, Y_START as int))) is Some,
        decimal_units(trim(line.subrange(Y_START as int, Z_START as int))) is Some,
        decimal_units(trim(line.subrange(Z_START as int, Z_END as int))) is Some,
    ensures
        record_of(line) == Some(
            AtomView {
                position: Point3 {
                    x: decimal_units(trim(line.subrange(X_START as int, Y_START as int)))->0 as Fixed,
                    y: decimal_units(trim(line.subrange(Y_START as int, Z_START as int)))->0 as Fixed,
                    z: decimal_units(trim(line.subrange(Z_START as int, Z_END as int)))->0 as Fixed,
                },
                atom_type: trim(line.subrange(ATOM_NAME_START as int, ATOM_NAME_END as int)),
                residue: trim(line.subrange(RESIDUE_NAME_START as int, RESIDUE_NAME_END as int)),
                chain_id: line[CHAIN_ID_COLUMN as int],
                residue_number: integer_or(
                    trim(line.subrange(RESIDUE_NUMBER_START as int, RESIDUE_NUMBER_END as int)),
                    0,
                ),
                occupancy: decimal_or(
                    trim(line.subrange(OCCUPANCY_START as int, OCCUPANCY_END as int)),
                    ONE,
                ),
                temperature_factor: decimal_or(
                    trim(
                        line.subrange(
                            TEMPERATURE_FACTOR_START as int,
                            TEMPERATURE_FACTOR_END as int,
                        ),
                    ),
                    0,
                ),
            },
        ),
{
}

} // verus!
