//! What a viewer of a structure shows, as far as it can be said in numbers:
//! which of its two renderings is visible and how a key switches between
//! them, where the camera stands, and where the spheres and the segments of
//! the backbone trace lie. Drawing is left to the caller.

use vstd::prelude::*;
use crate::geometry::floor_div;
use crate::geometry::integer_sqrt;
use crate::geometry::is_floor_sqrt;
use crate::geometry::squared_distance;
use crate::geometry::squared_distance_between;
use crate::geometry::Point3;
use crate::numeral::Fixed;
use crate::numeral::LIMIT;
use crate::numeral::ONE;
use crate::pdb::atom_views;
use crate::pdb::atoms_are_in_range;
use crate::pdb::atoms_in_range;
use crate::pdb::Atom;
use crate::pdb::AtomView;
use crate::protein::is_backbone;
use crate::protein::is_backbone_atom;
use crate::protein::lemma_center_in_range;
use crate::protein::Protein;

verus! {

/// The two renderings of a structure.
#[derive(Clone, Copy, Debug, PartialEq, Eq, Structural)]
pub enum ViewMode {
    Backbone,
    Cartoon,
}

/// What the viewer remembers between two frames: the rendering it shows and
/// whether the switching key was down at the last frame.
#[derive(Clone, Copy, Debug, PartialEq, Eq, Structural)]
pub struct ViewState {
    pub view_mode: ViewMode,
    pub key_pressed: bool,
}

impl ViewState {
    /// The other rendering, with the key as it was.
    pub open spec fn toggled(self) -> ViewState {
        ViewState {
            view_mode: match self.view_mode {
                ViewMode::Backbone => ViewMode::Cartoon,
                ViewMode::Cartoon => ViewMode::Backbone,
            },
            key_pressed: self.key_pressed,
        }
    }

    /// The state after a frame at which the key is down (`pressed`) or up. The
    /// rendering switches at the frame at which the key goes down, and only
    /// there: a key held down switches once.
    pub open spec fn after_key(self, pressed: bool) -> ViewState {
        if pressed && !self.key_pressed {
            ViewState { view_mode: self.toggled().view_mode, key_pressed: true }
        } else {
            ViewState { view_mode: self.view_mode, key_pressed: pressed }
        }
    }

    /// Whether the backbone rendering is the one shown.
    pub open spec fn backbone_visible(self) -> bool {
        self.view_mode == ViewMode::Backbone
    }

    /// Whether the cartoon rendering is the one shown.
    pub open spec fn cartoon_visible(self) -> bool {
        self.view_mode == ViewMode::Cartoon
    }

    /// The state a viewer starts in: the cartoon is shown and no key is down.
    pub fn new() -> (state: ViewState)
        ensures
            state == (ViewState { view_mode: ViewMode::Cartoon, key_pressed: false }),
    {
        ViewState { view_mode: ViewMode::Cartoon, key_pressed: false }
    }

    /// Switches to the other rendering.
    pub fn toggle_view_mode(&mut self)
        ensures
            *final(self) == old(self).toggled(),
    {
        match self.view_mode {
            ViewMode::Backbone => {
                self.view_mode = ViewMode::Cartoon;
            },
            ViewMode::Cartoon => {
                self.view_mode = ViewMode::Backbone;
            },
        }
    }

    /// Takes in whether the switching key is down at this frame, and says
    /// whether the rendering switched.
    pub fn key_event(&mut self, pressed: bool) -> (switched: bool)
        ensures
            *final(self) == old(self).after_key(pressed),
            switched == (pressed && !old(self).key_pressed),
    {
        if pressed {
            if !self.key_pressed {
                self.key_pressed = true;
                self.toggle_view_mode();
                true
            } else {
                false
            }
        } else {
            self.key_pressed = false;
            false
        }
    }

    /// Whether the backbone rendering is to be shown.
    pub fn is_backbone_visible(&self) -> (b: bool)
        ensures
            b == self.backbone_visible(),
    {
        match self.view_mode {
            ViewMode::Backbone => true,
            ViewMode::Cartoon => false,
        }
    }

    /// Whether the cartoon rendering is to be shown.
    pub fn is_cartoon_visible(&self) -> (b: bool)
        ensures
            b == self.cartoon_visible(),
    {
        match self.view_mode {
            ViewMode::Backbone => false,
            ViewMode::Cartoon => true,
        }
    }
}

/// At every moment exactly one of the two renderings is visible.
pub proof fn lemma_one_rendering_visible(state: ViewState)
    ensures
        state.backbone_visible() != state.cartoon_visible(),
{
}

/// Switching twice shows the rendering that was shown before.
pub proof fn lemma_toggle_twice(state: ViewState)
    ensures
        state.toggled().toggled() == state,
        state.toggled().view_mode != state.view_mode,
{
}

/// A key that stays down over two frames switches no more than a key that is
/// down for one frame, and a key that is up switches nothing.
pub proof fn lemma_held_key_switches_once(state: ViewState)
    ensures
        state.after_key(true).after_key(true) == state.after_key(true),
        state.after_key(false).view_mode == state.view_mode,
        state.after_key(false).after_key(true).view_mode != state.view_mode,
{
}

/// The three colours that tell chains apart.
#[derive(Clone, Copy, Debug, PartialEq, Eq, Structural)]
pub enum ChainColor {
    Red,
    Green,
    Blue,
}

/// The colour of a chain: red for `A`, green for `B`, blue for any other.
pub open spec fn chain_color_of(chain_id: char) -> ChainColor {
    if chain_id == 'A' {
        ChainColor::Red
    } else if chain_id == 'B' {
        ChainColor::Green
    } else {
        ChainColor::Blue
    }
}

/// The colour of the chain `chain_id`.
pub fn chain_color(chain_id: char) -> (color: ChainColor)
    ensures
        color == chain_color_of(chain_id),
{
    if chain_id == 'A' {
        ChainColor::Red
    } else if chain_id == 'B' {
        ChainColor::Green
    } else {
        ChainColor::Blue
    }
}

/// A colour; each part is a fixed-point value, one for full intensity.
#[derive(Clone, Copy, Debug, PartialEq, Eq, Structural)]
pub struct Color {
    pub red: Fixed,
    pub green: Fixed,
    pub blue: Fixed,
}

/// The colour that shows a temperature factor. With `t` the temperature
/// factor over a hundred, red is `t`, blue is one less `t`, and green is seven
/// tenths of blue. Each quotient is rounded down to a whole unit.
pub open spec fn temperature_color_of(temperature_factor: Fixed) -> Color {
    let t = temperature_factor as int / 100;
    Color { red: t as Fixed, green: (7 * (ONE - t) / 10) as Fixed, blue: (ONE - t) as Fixed }
}

/// The colour of the sphere of an atom with the temperature factor
/// `temperature_factor`.
pub fn temperature_color(temperature_factor: Fixed) -> (color: Color)
    ensures
        color == temperature_color_of(temperature_factor),
{
    let t = floor_div(temperature_factor as i128, 100);
    let blue = ONE as i128 - t;
    let green = floor_div(7 * blue, 10);
    Color { red: t as i64, green: green as i64, blue: blue as i64 }
}

/// The scale of the sphere of an atom: half its occupancy, rounded down to a
/// whole unit.
pub fn occupancy_scale(occupancy: Fixed) -> (scale: Fixed)
    ensures
        scale == occupancy as int / 2,
{
    floor_div(occupancy as i128, 2) as i64
}

/// Where the camera stands and how near and how far it may go, in units.
#[derive(Clone, Copy, Debug, PartialEq, Eq, Structural)]
pub struct CameraPlan {
    pub eye_x: u128,
    pub eye_y: u128,
    pub eye_z: u128,
    pub min_distance: u128,
    pub max_distance: u128,
}

/// The camera of a structure with the radius `radius`. It looks at the origin
/// from three radii along two axes and half as much along the upward one, and
/// it may come as near as one radius and go as far as five.
pub open spec fn camera_plan_of(radius: u64) -> CameraPlan {
    CameraPlan {
        eye_x: (3 * radius) as u128,
        eye_y: (3 * radius / 2) as u128,
        eye_z: (3 * radius) as u128,
        min_distance: radius as u128,
        max_distance: (5 * radius) as u128,
    }
}

/// The camera of a structure with the radius `maximum_radius`.
pub fn camera_plan(maximum_radius: u64) -> (plan: CameraPlan)
    ensures
        plan == camera_plan_of(maximum_radius),
{
    let distance: u128 = maximum_radius as u128 * 3;
    CameraPlan {
        eye_x: distance,
        eye_y: distance / 2,
        eye_z: distance,
        min_distance: maximum_radius as u128,
        max_distance: maximum_radius as u128 * 5,
    }
}

/// The scale of the coordinate axes: fifteen hundredths of the radius,
/// rounded down to a whole unit.
pub fn axes_scale(maximum_radius: u64) -> (scale: u128)
    ensures
        scale == 15 * maximum_radius / 100,
{
    maximum_radius as u128 * 15 / 100
}

/// Where the coordinate axes are drawn in a window of `width` by `height`:
/// four tenths of the width to the right and four tenths of the height down.
pub fn axes_offset(width: u32, height: u32) -> (offset: Point3)
    ensures
        offset == (Point3 {
            x: (width * 4_000_000) as Fixed,
            y: (-(height * 4_000_000)) as Fixed,
            z: 0,
        }),
{
    Point3 { x: width as i64 * 4_000_000, y: -(height as i64 * 4_000_000), z: 0 }
}

/// `position` as seen from `center`.
pub open spec fn centered(position: Point3, center: Point3) -> Point3 {
    Point3 {
        x: (position.x - center.x) as Fixed,
        y: (position.y - center.y) as Fixed,
        z: (position.z - center.z) as Fixed,
    }
}

/// One backbone atom of the trace: which atom it is, the chain it belongs to
/// and where it lies as seen from the centre.
#[derive(Clone, Copy, Debug, PartialEq, Eq, Structural)]
pub struct TraceNode {
    pub atom_index: usize,
    pub chain_id: char,
    pub position: Point3,
}

/// The indices of the backbone atoms among `atoms`, in order.
pub open spec fn backbone_indices(atoms: Seq<AtomView>) -> Seq<int>
    decreases atoms.len(),
{
    if atoms.len() == 0 {
        Seq::empty()
    } else if is_backbone(atoms.last()) {
        backbone_indices(atoms.drop_last()).push(atoms.len() - 1)
    } else {
        backbone_indices(atoms.drop_last())
    }
}

/// Whether `nodes` is the backbone trace of `atoms` around `center`: one node
/// for each backbone atom, in the order of the atoms, each with the chain of
/// its atom and at the position of its atom as seen from `center`.
pub open spec fn is_trace_of(nodes: Seq<TraceNode>, atoms: Seq<AtomView>, center: Point3) -> bool {
    &&& nodes.len() == backbone_indices(atoms).len()
    &&& forall|k: int|
        0 <= k < nodes.len() ==> {
            &&& (#[trigger] nodes[k]).atom_index == backbone_indices(atoms)[k]
            &&& nodes[k].atom_index < atoms.len()
            &&& nodes[k].chain_id == atoms[nodes[k].atom_index as int].chain_id
            &&& nodes[k].position == centered(atoms[nodes[k].atom_index as int].position, center)
        }
}

/// The indices of the backbone atoms rise, each is the index of a backbone
/// atom, and no backbone atom is left out.
pub proof fn lemma_backbone_indices(atoms: Seq<AtomView>)
    ensures
        forall|k: int|
            0 <= k < backbone_indices(atoms).len() ==> 0 <= (#[trigger] backbone_indices(atoms)[k])
                < atoms.len() && is_backbone(atoms[backbone_indices(atoms)[k]]),
        forall|j: int, k: int|
            0 <= j < k < backbone_indices(atoms).len() ==> backbone_indices(atoms)[j]
                < backbone_indices(atoms)[k],
        forall|i: int|
            0 <= i < atoms.len() && is_backbone(#[trigger] atoms[i]) ==> backbone_indices(
                atoms,
            ).contains(i),
    decreases atoms.len(),
{
    if atoms.len() > 0 {
        let front = atoms.drop_last();
        let indices = backbone_indices(atoms);
        let before = backbone_indices(front);
        lemma_backbone_indices(front);
        assert forall|k: int| 0 <= k < indices.len() implies 0 <= (#[trigger] indices[k])
            < atoms.len() && is_backbone(atoms[indices[k]]) by {
            if k < before.len() {
                assert(indices[k] == before[k]);
                assert(front[before[k]] == atoms[before[k]]);
            }
        }
        assert forall|j: int, k: int| 0 <= j < k < indices.len() implies indices[j]
            < indices[k] by {
            assert(indices[j] == before[j]);
            if k < before.len() {
                assert(indices[k] == before[k]);
            }
        }
        assert forall|i: int| 0 <= i < atoms.len() && is_backbone(
            #[trigger] atoms[i],
        ) implies indices.contains(i) by {
            if i < front.len() {
                assert(front[i] == atoms[i]);
                let k = choose|k: int| 0 <= k < before.len() && before[k] == i;
                assert(indices[k] == i);
            } else {
                assert(indices[indices.len() - 1] == i);
            }
        }
    }
}

/// The backbone trace of `atoms` around `center`.
pub fn backbone_trace(atoms: &[Atom], center: Point3) -> (nodes: Vec<TraceNode>)
    requires
        atoms_in_range(atoms@),
        center.in_range(),
    ensures
        is_trace_of(nodes@, atom_views(atoms@), center),
        forall|k: int| 0 <= k < nodes@.len() ==> in_centered_range((#[trigger] nodes@[k]).position),
{
    let n = atoms.len();
    let ghost views = atom_views(atoms@);
    let mut nodes: Vec<TraceNode> = Vec::new();
    let mut i: usize = 0;
    assert(views.take(0) == Seq::<AtomView>::empty());
    while i < n
        invariant
            i <= n == atoms@.len(),
            atoms_in_range(atoms@),
            center.in_range(),
            views == atom_views(atoms@),
            nodes@.len() == backbone_indices(views.take(i as int)).len(),
            forall|k: int|
                0 <= k < nodes@.len() ==> {
                    &&& (#[trigger] nodes@[k]).atom_index == backbone_indices(
                        views.take(i as int),
                    )[k]
                    &&& nodes@[k].atom_index < i
                    &&& nodes@[k].chain_id == views[nodes@[k].atom_index as int].chain_id
                    &&& nodes@[k].position == centered(
                        views[nodes@[k].atom_index as int].position,
                        center,
                    )
                    &&& in_centered_range(nodes@[k].position)
                },
        decreases n - i,
    {
        proof {
            assert(views.take(i + 1).drop_last() == views.take(i as int));
            assert(views.take(i + 1).last() == atoms@[i as int]@);
            assert(atoms@[i as int].position.in_range());
        }
        if is_backbone_atom(&atoms[i]) {
            let p = atoms[i].position;
            nodes.push(
                TraceNode {
                    atom_index: i,
                    chain_id: atoms[i].chain_id,
                    position: Point3 { x: p.x - center.x, y: p.y - center.y, z: p.z - center.z },
                },
            );
        }
        i += 1;
    }
    assert(views.take(n as int) == views);
    nodes
}

/// The backbone trace of `protein` around its centre, or `None` where an atom
/// or the centre lies out of range.
pub fn trace_structure(protein: &Protein) -> (r: Option<Vec<TraceNode>>)
    ensures
        r is Some <==> atoms_in_range(protein.atoms@) && protein.center.in_range(),
        r matches Some(nodes) ==> is_trace_of(nodes@, atom_views(protein.atoms@), protein.center)
            && forall|k: int|
            0 <= k < nodes@.len() ==> in_centered_range((#[trigger] nodes@[k]).position),
{
    if atoms_are_in_range(protein.atoms.as_slice()) && protein.center.is_in_range() {
        Some(backbone_trace(protein.atoms.as_slice(), protein.center))
    } else {
        None
    }
}

/// The backbone of a structure can always be traced.
pub proof fn lemma_structure_can_be_traced(protein: Protein)
    requires
        protein.well_formed(),
    ensures
        atoms_in_range(protein.atoms@) && protein.center.in_range(),
{
    lemma_center_in_range(protein);
}

/// Halfway from `from` to `to`: `from` plus half of what leads from `from` to
/// `to`, each coordinate of that half rounded down to a whole unit.
pub open spec fn halfway(from: Point3, to: Point3) -> Point3 {
    Point3 {
        x: (from.x + (to.x - from.x) / 2) as Fixed,
        y: (from.y + (to.y - from.y) / 2) as Fixed,
        z: (from.z + (to.z - from.z) / 2) as Fixed,
    }
}

/// Whether each coordinate of `p` lies strictly between `-2 * LIMIT` and
/// `2 * LIMIT`, as each coordinate of a position seen from a centre does.
pub open spec fn in_centered_range(p: Point3) -> bool {
    &&& -2 * LIMIT < p.x < 2 * LIMIT
    &&& -2 * LIMIT < p.y < 2 * LIMIT
    &&& -2 * LIMIT < p.z < 2 * LIMIT
}

/// Whether `in_centered_range(p)` holds.
pub fn is_in_centered_range(p: Point3) -> (b: bool)
    ensures
        b == in_centered_range(p),
{
    -2 * LIMIT < p.x && p.x < 2 * LIMIT && -2 * LIMIT < p.y && p.y < 2 * LIMIT && -2 * LIMIT < p.z
        && p.z < 2 * LIMIT
}

fn halfway_on_axis(from: Fixed, to: Fixed) -> (m: Fixed)
    requires
        -2 * LIMIT < from < 2 * LIMIT,
        -2 * LIMIT < to < 2 * LIMIT,
    ensures
        m == from + (to - from) / 2,
{
    (from as i128 + floor_div(to as i128 - from as i128, 2)) as i64
}

/// The point halfway from `from` to `to`, where a segment between two
/// neighbours of the trace is drawn.
pub fn segment_middle(from: Point3, to: Point3) -> (middle: Point3)
    requires
        in_centered_range(from),
        in_centered_range(to),
    ensures
        middle == halfway(from, to),
{
    Point3 {
        x: halfway_on_axis(from.x, to.x),
        y: halfway_on_axis(from.y, to.y),
        z: halfway_on_axis(from.z, to.z),
    }
}

/// The length of the segment from `from` to `to`, rounded down to a whole
/// unit.
pub fn segment_length(from: Point3, to: Point3) -> (length: u64)
    requires
        in_centered_range(from),
        in_centered_range(to),
    ensures
        is_floor_sqrt(length as int, squared_distance(to, from)),
{
    let direction = Point3 { x: to.x - from.x, y: to.y - from.y, z: to.z - from.z };
    let origin = Point3 { x: 0, y: 0, z: 0 };
    let d = squared_distance_between(origin, direction);
    assert(d == squared_distance(to, from)) by (nonlinear_arith)
        requires
            d == squared_distance(origin, direction),
            origin.x == 0 && origin.y == 0 && origin.z == 0,
            direction.x == to.x - from.x,
            direction.y == to.y - from.y,
            direction.z == to.z - from.z,
    ;
    integer_sqrt(d)
}

/// What is drawn between two neighbours of the trace.
#[derive(Clone, Copy, Debug, PartialEq, Eq, Structural)]
pub struct Segment {
    /// Where the segment starts: the earlier of the two neighbours.
    pub from: Point3,
    /// Where the segment ends: the later of the two neighbours.
    pub to: Point3,
    /// The point halfway, where the segment is drawn.
    pub middle: Point3,
    /// The length of the segment, rounded down to a whole unit.
    pub length: u64,
    /// The colour of the chain of the later neighbour.
    pub color: ChainColor,
    /// Whether a ribbon along this segment is turned into its direction: every
    /// ribbon but the first is.
    pub oriented: bool,
}

/// Whether `segment` is the segment of index `k`, drawn from `previous` to
/// `current`.
pub open spec fn is_segment_between(
    segment: Segment,
    previous: TraceNode,
    current: TraceNode,
    k: int,
) -> bool {
    &&& segment.from == previous.position
    &&& segment.to == current.position
    &&& segment.middle == halfway(previous.position, current.position)
    &&& is_floor_sqrt(segment.length as int, squared_distance(current.position, previous.position))
    &&& segment.color == chain_color_of(current.chain_id)
    &&& segment.oriented == (k > 0)
}

/// The segments of a trace: one from each node to the next, in order, so one
/// fewer than nodes, and none for a trace without nodes.
pub fn trace_segments(nodes: &[TraceNode]) -> (segments: Vec<Segment>)
    requires
        forall|k: int| 0 <= k < nodes@.len() ==> in_centered_range((#[trigger] nodes@[k]).position),
    ensures
        segments@.len() == (if nodes@.len() == 0 {
            0
        } else {
            nodes@.len() - 1
        }),
        forall|k: int|
            0 <= k < segments@.len() ==> is_segment_between(
                #[trigger] segments@[k],
                nodes@[k],
                nodes@[k + 1],
                k,
            ),
{
    let mut segments: Vec<Segment> = Vec::new();
    if nodes.len() == 0 {
        return segments;
    }
    let mut i: usize = 1;
    while i < nodes.len()
        invariant
            1 <= i <= nodes@.len(),
            forall|k: int|
                0 <= k < nodes@.len() ==> in_centered_range((#[trigger] nodes@[k]).position),
            segments@.len() == i - 1,
            forall|k: int|
                0 <= k < segments@.len() ==> is_segment_between(
                    #[trigger] segments@[k],
                    nodes@[k],
                    nodes@[k + 1],
                    k,
                ),
        decreases nodes.len() - i,
    {
        let previous = nodes[i - 1];
        let current = nodes[i];
        segments.push(
            Segment {
                from: previous.position,
                to: current.position,
                middle: segment_middle(previous.position, current.position),
                length: segment_length(previous.position, current.position),
                color: chain_color(current.chain_id),
                oriented: i > 1,
            },
        );
        i += 1;
    }
    segments
}

} // verus!
