//! Render requests: what a caller asks for, the canonical pose it is turned
//! into, and the order in which a batch is rendered so that terrain is
//! reloaded as seldom as the view allows.

use crate::coords::{nadir_forward, nadir_up, Coords, Direction, GridCoords};
use crate::gridsquare::{GridSquare, TileView};
use itertools::Itertools;
use vstd::prelude::*;

verus! {

/// Where the camera of a request is, in one of three ways of saying it.
#[derive(Debug, Copy, Clone, PartialEq, Eq, Structural)]
pub enum RequestPose {
    /// A position whose height is measured from the ground below it. The
    /// camera looks straight down.
    PositionAgl { camera_pos_agl: Coords },
    /// A position whose height is measured from sea level. The camera looks
    /// straight down.
    PositionAsl { camera_pos_asl: Coords },
    /// A position whose height is measured from sea level, with the
    /// directions in which the camera looks and in which its top points.
    FacingAsl { camera_pos_asl: Coords, camera_fwd: Direction, camera_up: Direction },
}

/// One image to render.
#[derive(Debug, Copy, Clone, PartialEq, Eq, Structural)]
pub struct RenderRequest {
    pub camera_pose: RequestPose,
    pub request_id: u32,
}

/// A request in canonical form: the position with both kinds of height, and
/// both directions.
#[derive(Debug, Copy, Clone, PartialEq, Eq, Structural)]
pub struct NormalizedRenderRequest {
    pub camera_pos_agl: Coords,
    pub camera_pos_asl: Coords,
    pub camera_fwd: Direction,
    pub camera_up: Direction,
    pub request_id: u32,
}

/// The requests of a batch whose cameras stand over one cell.
#[derive(Debug, Clone, PartialEq, Eq)]
pub struct RequestChunk {
    pub coords: GridCoords,
    pub requests: Vec<RenderRequest>,
}

/// One step of rendering a chunk: the request, whether the terrain is
/// loaded anew before it, and the height above ground that the terrain in
/// use was loaded for.
#[derive(Debug, Copy, Clone, PartialEq, Eq, Structural)]
pub struct PlannedRender {
    pub request: NormalizedRenderRequest,
    pub reload: bool,
    pub terrain_agl: i64,
}

/// The height above ground, in millimetres, that stands for "no terrain
/// loaded yet": one kilometre below the ground.
pub const UNLOADED_AGL_MM: i64 = -1_000_000;

/// `v` cut to the heights that a coordinate can hold.
pub open spec fn saturate(v: int) -> i64 {
    if v < i64::MIN {
        i64::MIN
    } else if v > i64::MAX {
        i64::MAX
    } else {
        v as i64
    }
}

/// The terrain is loaded anew for a camera at `agl` above ground when it
/// stands more than one and a half times as high as the camera that the
/// terrain in use was loaded for.
pub open spec fn needs_reload(agl: int, loaded_agl: int) -> bool {
    2 * agl > 3 * loaded_agl
}

/// The height above ground that the terrain in use was loaded for, after
/// the first `k` of the requests were rendered in their order.
pub open spec fn loaded_after(requests: Seq<NormalizedRenderRequest>, k: nat) -> int
    decreases k,
{
    if k == 0 {
        UNLOADED_AGL_MM as int
    } else {
        let before = loaded_after(requests, (k - 1) as nat);
        let agl = requests[k - 1].camera_pos_agl.z as int;
        if needs_reload(agl, before) {
            agl
        } else {
            before
        }
    }
}

/// The steps of rendering the requests in their order.
pub open spec fn planned(requests: Seq<NormalizedRenderRequest>) -> Seq<PlannedRender> {
    Seq::new(
        requests.len(),
        |k: int|
            PlannedRender {
                request: requests[k],
                reload: needs_reload(
                    requests[k].camera_pos_agl.z as int,
                    loaded_after(requests, k as nat),
                ),
                terrain_agl: loaded_after(requests, (k + 1) as nat) as i64,
            },
    )
}

/// The requests ordered by height above ground, with `request` put in
/// behind every request that is not higher than it.
pub open spec fn insert_by_agl(
    sorted: Seq<NormalizedRenderRequest>,
    request: NormalizedRenderRequest,
) -> Seq<NormalizedRenderRequest>
    decreases sorted.len(),
{
    if sorted.len() > 0 && sorted.last().camera_pos_agl.z > request.camera_pos_agl.z {
        insert_by_agl(sorted.drop_last(), request).push(sorted.last())
    } else {
        sorted.push(request)
    }
}

/// The requests ordered by height above ground, lowest first; requests of
/// one height keep their order.
pub open spec fn sort_by_agl(requests: Seq<NormalizedRenderRequest>) -> Seq<
    NormalizedRenderRequest,
>
    decreases requests.len(),
{
    if requests.len() == 0 {
        requests
    } else {
        insert_by_agl(sort_by_agl(requests.drop_last()), requests.last())
    }
}

/// No request stands higher above ground than one behind it.
pub open spec fn is_ascending_by_agl(requests: Seq<NormalizedRenderRequest>) -> bool {
    forall|i: int, j: int|
        0 <= i < j < requests.len() ==> (#[trigger] requests[i]).camera_pos_agl.z <= (
        #[trigger] requests[j]).camera_pos_agl.z
}

/// The requests of a batch whose cameras stand over `cell`, in their order.
pub open spec fn requests_in_cell(requests: Seq<RenderRequest>, cell: GridCoords) -> Seq<
    RenderRequest,
>
    decreases requests.len(),
{
    if requests.len() == 0 {
        Seq::empty()
    } else {
        let before = requests_in_cell(requests.drop_last(), cell);
        if requests.last().camera_pose.spec_grid_coords() == cell {
            before.push(requests.last())
        } else {
            before
        }
    }
}

/// The second parts of the pairs whose first part is `key`, in their order.
pub open spec fn values_at(pairs: Seq<((i32, i32), RenderRequest)>, key: (i32, i32)) -> Seq<
    RenderRequest,
>
    decreases pairs.len(),
{
    if pairs.len() == 0 {
        Seq::empty()
    } else {
        let before = values_at(pairs.drop_last(), key);
        if pairs.last().0 == key {
            before.push(pairs.last().1)
        } else {
            before
        }
    }
}

/// `itertools::Itertools::into_group_map` on the pairs, handed out as a
/// list of the map's entries. The map has one entry for each key that
/// occurs; the entry holds the values that came with the key, in the order
/// in which they came. The order of the entries is that of a hash map and
/// differs from run to run, so nothing is said of it.
#[verifier::external_body]
fn group_by_key(pairs: Vec<((i32, i32), RenderRequest)>) -> (groups: Vec<
    ((i32, i32), Vec<RenderRequest>),
>)
    ensures
        forall|i: int, j: int|
            0 <= i < j < groups.len() ==> (#[trigger] groups[i]).0 != (#[trigger] groups[j]).0,
        forall|i: int|
            0 <= i < groups.len() ==> (#[trigger] groups[i]).1@ == values_at(pairs@, groups[i].0),
        forall|i: int| 0 <= i < groups.len() ==> (#[trigger] groups[i]).1.len() > 0,
        forall|k: int|
            0 <= k < pairs.len() ==> exists|i: int|
                0 <= i < groups.len() && (#[trigger] groups[i]).0 == (#[trigger] pairs[k]).0,
{
    pairs.into_iter().into_group_map().into_iter().collect()
}

impl RequestPose {
    /// The position of the camera, with the height as it was given.
    pub open spec fn spec_position(self) -> Coords {
        match self {
            RequestPose::PositionAgl { camera_pos_agl } => camera_pos_agl,
            RequestPose::PositionAsl { camera_pos_asl } => camera_pos_asl,
            RequestPose::FacingAsl { camera_pos_asl, .. } => camera_pos_asl,
        }
    }

    /// The cell over which the camera stands.
    pub open spec fn spec_grid_coords(self) -> GridCoords {
        GridCoords::spec_from_world(self.spec_position())
    }

    pub fn position(&self) -> (p: Coords)
        ensures
            p == self.spec_position(),
    {
        match self {
            RequestPose::PositionAgl { camera_pos_agl } => *camera_pos_agl,
            RequestPose::PositionAsl { camera_pos_asl } => *camera_pos_asl,
            RequestPose::FacingAsl { camera_pos_asl, .. } => *camera_pos_asl,
        }
    }

    pub fn grid_coords(&self) -> (c: GridCoords)
        ensures
            c == self.spec_grid_coords(),
    {
        GridCoords::from_world(self.position())
    }
}

/// The sum of two heights, cut to the heights that a coordinate can hold.
fn add_heights(a: i64, b: i64) -> (sum: i64)
    ensures
        sum == saturate(a + b),
{
    let wide: i128 = a as i128 + b as i128;
    if wide < i64::MIN as i128 {
        i64::MIN
    } else if wide > i64::MAX as i128 {
        i64::MAX
    } else {
        wide as i64
    }
}

/// The difference of two heights, cut to the heights that a coordinate can
/// hold.
fn subtract_heights(a: i64, b: i64) -> (difference: i64)
    ensures
        difference == saturate(a - b),
{
    let wide: i128 = a as i128 - b as i128;
    if wide < i64::MIN as i128 {
        i64::MIN
    } else if wide > i64::MAX as i128 {
        i64::MAX
    } else {
        wide as i64
    }
}

impl RenderRequest {
    /// The canonical form of the request over the tile `tile`.
    ///
    /// A height above ground gets the ground's height added for the height
    /// above sea level; a height above sea level gets it taken off for the
    /// height above ground. The ground's height is the tile's height at the
    /// camera's position. Heights beyond what a coordinate can hold stop at
    /// the last height that it can. A request without directions looks
    /// straight down.
    pub open spec fn spec_normalize(self, tile: TileView) -> NormalizedRenderRequest {
        match self.camera_pose {
            RequestPose::PositionAgl { camera_pos_agl } => NormalizedRenderRequest {
                camera_pos_agl,
                camera_pos_asl: Coords {
                    x: camera_pos_agl.x,
                    y: camera_pos_agl.y,
                    z: saturate(camera_pos_agl.z + tile.sample_altitude(camera_pos_agl)),
                },
                camera_fwd: nadir_forward(),
                camera_up: nadir_up(),
                request_id: self.request_id,
            },
            RequestPose::PositionAsl { camera_pos_asl } => NormalizedRenderRequest {
                camera_pos_agl: Coords {
                    x: camera_pos_asl.x,
                    y: camera_pos_asl.y,
                    z: saturate(camera_pos_asl.z - tile.sample_altitude(camera_pos_asl)),
                },
                camera_pos_asl,
                camera_fwd: nadir_forward(),
                camera_up: nadir_up(),
                request_id: self.request_id,
            },
            RequestPose::FacingAsl {
                camera_pos_asl,
                camera_fwd,
                camera_up,
            } => NormalizedRenderRequest {
                camera_pos_agl: Coords {
                    x: camera_pos_asl.x,
                    y: camera_pos_asl.y,
                    z: saturate(camera_pos_asl.z - tile.sample_altitude(camera_pos_asl)),
                },
                camera_pos_asl,
                camera_fwd,
                camera_up,
                request_id: self.request_id,
            },
        }
    }

    /// Brings the request into canonical form, with the ground's height
    /// taken from `grid_square`.
    pub fn normalize(self, grid_square: &GridSquare) -> (normal: NormalizedRenderRequest)
        ensures
            normal == self.spec_normalize(grid_square@),
    {
        match self.camera_pose {
            RequestPose::PositionAgl { camera_pos_agl } => NormalizedRenderRequest {
                camera_pos_agl,
                camera_pos_asl: Coords {
                    x: camera_pos_agl.x,
                    y: camera_pos_agl.y,
                    z: add_heights(camera_pos_agl.z, grid_square.sample_altitude(camera_pos_agl)),
                },
                camera_fwd: Direction::nadir_forward(),
                camera_up: Direction::nadir_up(),
                request_id: self.request_id,
            },
            RequestPose::PositionAsl { camera_pos_asl } => NormalizedRenderRequest {
                camera_pos_agl: Coords {
                    x: camera_pos_asl.x,
                    y: camera_pos_asl.y,
                    z: subtract_heights(
                        camera_pos_asl.z,
                        grid_square.sample_altitude(camera_pos_asl),
                    ),
                },
                camera_pos_asl,
                camera_fwd: Direction::nadir_forward(),
                camera_up: Direction::nadir_up(),
                request_id: self.request_id,
            },
            RequestPose::FacingAsl {
                camera_pos_asl,
                camera_fwd,
                camera_up,
            } => NormalizedRenderRequest {
                camera_pos_agl: Coords {
                    x: camera_pos_asl.x,
                    y: camera_pos_asl.y,
                    z: subtract_heights(
                        camera_pos_asl.z,
                        grid_square.sample_altitude(camera_pos_asl),
                    ),
                },
                camera_pos_asl,
                camera_fwd,
                camera_up,
                request_id: self.request_id,
            },
        }
    }
}

/// The pair that stands for a request when requests are grouped: the
/// address of the cell under its camera, and the request.
pub open spec fn keyed(request: RenderRequest) -> ((i32, i32), RenderRequest) {
    let cell = request.camera_pose.spec_grid_coords();
    ((cell.x, cell.y), request)
}

/// The values found under the address of a cell, among the pairs that
/// stand for the requests, are the requests over that cell.
proof fn lemma_values_at_cell(
    requests: Seq<RenderRequest>,
    pairs: Seq<((i32, i32), RenderRequest)>,
    cell: GridCoords,
)
    requires
        pairs.len() == requests.len(),
        forall|k: int| 0 <= k < requests.len() ==> #[trigger] pairs[k] == keyed(requests[k]),
    ensures
        values_at(pairs, (cell.x, cell.y)) == requests_in_cell(requests, cell),
    decreases requests.len(),
{
    if requests.len() > 0 {
        lemma_values_at_cell(requests.drop_last(), pairs.drop_last(), cell);
        assert(pairs.last() == keyed(requests.last()));
    }
}

/// A request is among the requests over a cell just when it is in the batch
/// and its camera stands over the cell.
pub proof fn lemma_requests_in_cell_contains(
    requests: Seq<RenderRequest>,
    cell: GridCoords,
    request: RenderRequest,
)
    ensures
        requests_in_cell(requests, cell).contains(request) <==> (requests.contains(request)
            && request.camera_pose.spec_grid_coords() == cell),
    decreases requests.len(),
{
    let found = requests_in_cell(requests, cell);
    if requests.len() > 0 {
        let head = requests.drop_last();
        let before = requests_in_cell(head, cell);
        lemma_requests_in_cell_contains(head, cell, request);
        if found.contains(request) {
            let i = choose|i: int| 0 <= i < found.len() && found[i] == request;
            if i < before.len() {
                assert(before[i] == request);
                let j = choose|j: int| 0 <= j < head.len() && head[j] == request;
                assert(requests[j] == request);
            } else {
                assert(requests[requests.len() - 1] == request);
            }
        }
        if requests.contains(request) && request.camera_pose.spec_grid_coords() == cell {
            let j = choose|j: int| 0 <= j < requests.len() && requests[j] == request;
            if j < head.len() {
                assert(head[j] == request);
                let i = choose|i: int| 0 <= i < before.len() && before[i] == request;
                assert(found[i] == request);
            } else {
                assert(found[found.len() - 1] == request);
            }
        }
    }
}

/// Puts a request into requests ordered by height: it goes to the one place
/// where everything behind it is higher and nothing before it is.
proof fn lemma_insert_by_agl_at(
    sorted: Seq<NormalizedRenderRequest>,
    request: NormalizedRenderRequest,
    at: int,
)
    requires
        0 <= at <= sorted.len(),
        forall|k: int|
            at <= k < sorted.len() ==> (#[trigger] sorted[k]).camera_pos_agl.z
                > request.camera_pos_agl.z,
        at > 0 ==> sorted[at - 1].camera_pos_agl.z <= request.camera_pos_agl.z,
    ensures
        insert_by_agl(sorted, request) == sorted.insert(at, request),
    decreases sorted.len(),
{
    if sorted.len() > 0 && sorted.last().camera_pos_agl.z > request.camera_pos_agl.z {
        assert(at < sorted.len());
        lemma_insert_by_agl_at(sorted.drop_last(), request, at);
        assert(sorted.drop_last().insert(at, request).push(sorted.last()) =~= sorted.insert(
            at,
            request,
        ));
    } else {
        if at < sorted.len() {
            assert(sorted[sorted.len() - 1].camera_pos_agl.z > request.camera_pos_agl.z);
        }
        assert(sorted.push(request) =~= sorted.insert(at, request));
    }
}

/// The place that `insert_by_agl` gives a request among requests ordered
/// by height: behind the last request that is not higher.
pub open spec fn place_by_agl(sorted: Seq<NormalizedRenderRequest>, agl: int) -> int
    decreases sorted.len(),
{
    if sorted.len() > 0 && sorted.last().camera_pos_agl.z > agl {
        place_by_agl(sorted.drop_last(), agl)
    } else {
        sorted.len() as int
    }
}

/// Ordering by height keeps every request, as often as it was there, and
/// brings the requests into ascending order.
pub proof fn lemma_sort_by_agl(requests: Seq<NormalizedRenderRequest>)
    ensures
        sort_by_agl(requests).to_multiset() == requests.to_multiset(),
        sort_by_agl(requests).len() == requests.len(),
        is_ascending_by_agl(sort_by_agl(requests)),
    decreases requests.len(),
{
    broadcast use vstd::seq_lib::group_to_multiset_ensures;

    if requests.len() > 0 {
        let head = requests.drop_last();
        let last = requests.last();
        lemma_sort_by_agl(head);
        let sorted = sort_by_agl(head);
        let at = place_by_agl(sorted, last.camera_pos_agl.z as int);
        lemma_place_by_agl(sorted, last.camera_pos_agl.z as int);
        lemma_insert_by_agl_at(sorted, last, at);
        let after = sorted.insert(at, last);
        assert(requests =~= head.push(last));
        assert(after.to_multiset() == requests.to_multiset());
        assert forall|i: int, j: int| 0 <= i < j < after.len() implies (#[trigger] after[i]).camera_pos_agl.z
            <= (#[trigger] after[j]).camera_pos_agl.z by {
            let bi = if i < at { i } else { i - 1 };
            let bj = if j < at { j } else { j - 1 };
            if i == at {
                assert(after[j] == sorted[j - 1]);
            } else if j == at {
                assert(after[i] == sorted[i]);
                if i < at - 1 {
                    assert(sorted[i].camera_pos_agl.z <= sorted[at - 1].camera_pos_agl.z);
                }
            } else {
                assert(after[i] == sorted[bi] && after[j] == sorted[bj]);
                assert(sorted[bi].camera_pos_agl.z <= sorted[bj].camera_pos_agl.z);
            }
        }
    }
}

/// The place by height lies behind the requests that are not higher and
/// before those that are.
proof fn lemma_place_by_agl(sorted: Seq<NormalizedRenderRequest>, agl: int)
    ensures
        0 <= place_by_agl(sorted, agl) <= sorted.len(),
        forall|k: int|
            place_by_agl(sorted, agl) <= k < sorted.len() ==> (#[trigger] sorted[k]).camera_pos_agl.z
                > agl,
        place_by_agl(sorted, agl) > 0 ==> sorted[place_by_agl(sorted, agl) - 1].camera_pos_agl.z
            <= agl,
    decreases sorted.len(),
{
    if sorted.len() > 0 && sorted.last().camera_pos_agl.z > agl {
        let head = sorted.drop_last();
        lemma_place_by_agl(head, agl);
        let at = place_by_agl(head, agl);
        assert forall|k: int| at <= k < sorted.len() implies (#[trigger] sorted[k]).camera_pos_agl.z
            > agl by {
            if k < head.len() {
                assert(head[k].camera_pos_agl.z > agl);
            }
        }
        if at > 0 {
            assert(head[at - 1] == sorted[at - 1]);
        }
    }
}

/// Groups the requests of a batch by the cell under the camera.
///
/// Every cell with a request gets one chunk, which holds the requests over
/// that cell in the order in which they stand in the batch. The order of
/// the chunks is not fixed.
pub fn group_requests(requests: Vec<RenderRequest>) -> (chunks: Vec<RequestChunk>)
    ensures
        forall|i: int, j: int|
            0 <= i < j < chunks.len() ==> (#[trigger] chunks[i]).coords != (
            #[trigger] chunks[j]).coords,
        forall|i: int|
            0 <= i < chunks.len() ==> (#[trigger] chunks[i]).requests@ == requests_in_cell(
                requests@,
                chunks[i].coords,
            ),
        forall|i: int| 0 <= i < chunks.len() ==> (#[trigger] chunks[i]).requests.len() > 0,
        forall|k: int|
            0 <= k < requests.len() ==> exists|i: int|
                0 <= i < chunks.len() && (#[trigger] chunks[i]).coords == (
                #[trigger] requests[k]).camera_pose.spec_grid_coords(),
{
    let mut pairs: Vec<((i32, i32), RenderRequest)> = Vec::new();
    let mut k: usize = 0;
    while k < requests.len()
        invariant
            0 <= k <= requests.len(),
            pairs.len() == k,
            forall|m: int| 0 <= m < k ==> #[trigger] pairs[m] == keyed(requests[m]),
        decreases requests.len() - k,
    {
        let request = requests[k];
        let cell = request.camera_pose.grid_coords();
        pairs.push(((cell.x, cell.y), request));
        k = k + 1;
    }
    let mut groups = group_by_key(pairs);
    let ghost all = groups@;
    let mut chunks: Vec<RequestChunk> = Vec::new();
    while groups.len() > 0
        invariant
            pairs.len() == requests.len(),
            forall|m: int| 0 <= m < requests.len() ==> #[trigger] pairs[m] == keyed(requests[m]),
            groups.len() + chunks.len() == all.len(),
            forall|m: int| 0 <= m < groups.len() ==> groups[m] == all[m],
            forall|i: int, j: int|
                0 <= i < j < all.len() ==> (#[trigger] all[i]).0 != (#[trigger] all[j]).0,
            forall|i: int|
                0 <= i < all.len() ==> (#[trigger] all[i]).1@ == values_at(pairs@, all[i].0),
            forall|i: int| 0 <= i < all.len() ==> (#[trigger] all[i]).1.len() > 0,
            forall|m: int|
                0 <= m < chunks.len() ==> (#[trigger] chunks[m]).coords.x == all[all.len() - 1
                    - m].0.0 && chunks[m].coords.y == all[all.len() - 1 - m].0.1 && chunks[m].requests
                    == all[all.len() - 1 - m].1,
        decreases groups.len(),
    {
        let (key, members) = groups.pop().unwrap();
        chunks.push(RequestChunk { coords: GridCoords::new(key.0, key.1), requests: members });
    }
    proof {
        let n = all.len() as int;
        assert forall|i: int, j: int| 0 <= i < j < chunks.len() implies (#[trigger] chunks[i]).coords
            != (#[trigger] chunks[j]).coords by {
            assert(all[n - 1 - j].0 != all[n - 1 - i].0);
        }
        assert forall|i: int| 0 <= i < chunks.len() implies (#[trigger] chunks[i]).requests@
            == requests_in_cell(requests@, chunks[i].coords) by {
            assert(all[n - 1 - i].1@ == values_at(pairs@, all[n - 1 - i].0));
            lemma_values_at_cell(requests@, pairs@, chunks[i].coords);
        }
        assert forall|i: int| 0 <= i < chunks.len() implies (#[trigger] chunks[i]).requests.len()
            > 0 by {
            assert(all[n - 1 - i].1.len() > 0);
        }
        assert forall|k: int| 0 <= k < requests.len() implies exists|i: int|
            0 <= i < chunks.len() && (#[trigger] chunks[i]).coords == (
            #[trigger] requests[k]).camera_pose.spec_grid_coords() by {
            let g = choose|g: int|
                0 <= g < all.len() && (#[trigger] all[g]).0 == (#[trigger] pairs[k]).0;
            assert(pairs[k] == keyed(requests[k]));
            let i = n - 1 - g;
            assert(chunks[i].coords == requests[k].camera_pose.spec_grid_coords());
        }
    }
    chunks
}

/// Orders requests by height above ground, lowest first. Requests of one
/// height keep their order.
pub fn sort_requests_by_agl(requests: &Vec<NormalizedRenderRequest>) -> (sorted: Vec<
    NormalizedRenderRequest,
>)
    ensures
        sorted@ == sort_by_agl(requests@),
{
    let mut sorted: Vec<NormalizedRenderRequest> = Vec::new();
    let mut k: usize = 0;
    proof {
        assert(requests@.take(0) =~= Seq::empty());
    }
    while k < requests.len()
        invariant
            0 <= k <= requests.len(),
            sorted@ == sort_by_agl(requests@.take(k as int)),
        decreases requests.len() - k,
    {
        let request = requests[k];
        let ghost before = sorted@;
        let mut at: usize = sorted.len();
        while at > 0 && sorted[at - 1].camera_pos_agl.z > request.camera_pos_agl.z
            invariant
                0 <= at <= sorted.len(),
                before == sorted@,
                forall|m: int|
                    at <= m < sorted.len() ==> (#[trigger] before[m]).camera_pos_agl.z
                        > request.camera_pos_agl.z,
            decreases at,
        {
            at = at - 1;
        }
        proof {
            lemma_insert_by_agl_at(before, request, at as int);
            assert(requests@.take(k + 1).drop_last() =~= requests@.take(k as int));
            assert(requests@.take(k + 1).last() == request);
        }
        sorted.insert(at, request);
        k = k + 1;
    }
    proof {
        assert(requests@.take(requests.len() as int) =~= requests@);
    }
    sorted
}

/// Whether the terrain is loaded anew for a camera at `agl` millimetres
/// above ground, given the height that the terrain in use was loaded for.
pub fn reload_needed(agl: i64, loaded_agl: i64) -> (needed: bool)
    ensures
        needed == needs_reload(agl as int, loaded_agl as int),
{
    2 * (agl as i128) > 3 * (loaded_agl as i128)
}

/// Plans the rendering of requests in the order given: for each request
/// whether the terrain is loaded anew before it, and for which height the
/// terrain in use was loaded.
pub fn plan_renders(requests: &Vec<NormalizedRenderRequest>) -> (plan: Vec<PlannedRender>)
    ensures
        plan@ == planned(requests@),
{
    let mut plan: Vec<PlannedRender> = Vec::new();
    let mut loaded: i64 = UNLOADED_AGL_MM;
    let mut k: usize = 0;
    while k < requests.len()
        invariant
            0 <= k <= requests.len(),
            loaded == loaded_after(requests@, k as nat),
            plan.len() == k,
            forall|m: int| 0 <= m < k ==> #[trigger] plan[m] == planned(requests@)[m],
        decreases requests.len() - k,
    {
        let request = requests[k];
        let reload = reload_needed(request.camera_pos_agl.z, loaded);
        if reload {
            loaded = request.camera_pos_agl.z;
        }
        plan.push(PlannedRender { request, reload, terrain_agl: loaded });
        k = k + 1;
    }
    proof {
        assert(plan@ =~= planned(requests@));
    }
    plan
}

/// Plans the rendering of the requests over one cell, whose ground is the
/// tile `grid_square`: the requests are brought into canonical form,
/// ordered by height above ground, and rendered from the lowest up, so
/// that terrain loaded for one height serves all requests up to one and a
/// half times as high.
pub fn plan_chunk(requests: &Vec<RenderRequest>, grid_square: &GridSquare) -> (plan: Vec<
    PlannedRender,
>)
    ensures
        plan@ == planned(
            sort_by_agl(
                requests@.map_values(|r: RenderRequest| r.spec_normalize(grid_square@)),
            ),
        ),
{
    let mut normal: Vec<NormalizedRenderRequest> = Vec::new();
    let mut k: usize = 0;
    while k < requests.len()
        invariant
            0 <= k <= requests.len(),
            normal.len() == k,
            forall|m: int|
                0 <= m < k ==> #[trigger] normal[m] == requests[m].spec_normalize(grid_square@),
        decreases requests.len() - k,
    {
        normal.push(requests[k].normalize(grid_square));
        k = k + 1;
    }
    proof {
        assert(normal@ =~= requests@.map_values(
            |r: RenderRequest| r.spec_normalize(grid_square@),
        ));
    }
    let sorted = sort_requests_by_agl(&normal);
    plan_renders(&sorted)
}

/// Place `p` of the request numbers comes before place `q` when results are
/// handed back: its number is lower, or the numbers are the same and it
/// stood first.
pub open spec fn comes_first(ids: Seq<u32>, p: int, q: int) -> bool {
    ids[p] < ids[q] || (ids[p] == ids[q] && p < q)
}

/// `order` lists every place of `ids` once, by request number from the
/// lowest up, places of one number in the order in which they stand.
pub open spec fn is_render_order(ids: Seq<u32>, order: Seq<usize>) -> bool {
    &&& order.len() == ids.len()
    &&& forall|p: usize| p < ids.len() ==> #[trigger] order.contains(p)
    &&& forall|i: int| 0 <= i < order.len() ==> (#[trigger] order[i]) < ids.len()
    &&& forall|i: int, j: int|
        0 <= i < j < order.len() ==> comes_first(
            ids,
            (#[trigger] order[i]) as int,
            (#[trigger] order[j]) as int,
        )
}

/// The order in which rendered results are handed back: the places of the
/// results, by request number from the lowest up. Results of one number
/// keep their order.
pub fn order_by_request_id(ids: &Vec<u32>) -> (order: Vec<usize>)
    ensures
        is_render_order(ids@, order@),
{
    let mut order: Vec<usize> = Vec::new();
    let mut k: usize = 0;
    while k < ids.len()
        invariant
            0 <= k <= ids.len(),
            order.len() == k,
            forall|p: usize| p < k ==> #[trigger] order@.contains(p),
            forall|i: int| 0 <= i < order.len() ==> (#[trigger] order[i]) < k,
            forall|i: int, j: int|
                0 <= i < j < order.len() ==> comes_first(
                    ids@,
                    (#[trigger] order[i]) as int,
                    (#[trigger] order[j]) as int,
                ),
        decreases ids.len() - k,
    {
        let ghost before = order@;
        let mut at: usize = order.len();
        while at > 0 && ids[order[at - 1]] > ids[k]
            invariant
                0 <= at <= order.len(),
                before == order@,
                k < ids.len(),
                forall|i: int| 0 <= i < order.len() ==> (#[trigger] order[i]) < k,
                forall|m: int| at <= m < order.len() ==> ids[(#[trigger] before[m]) as int] > ids[k as int],
            decreases at,
        {
            at = at - 1;
        }
        order.insert(at, k);
        proof {
            let after = order@;
            assert(after =~= before.insert(at as int, k));
            assert forall|p: usize| p < k + 1 implies #[trigger] after.contains(p) by {
                if p == k {
                    assert(after[at as int] == k);
                } else {
                    assert(before.contains(p));
                    let i = choose|i: int| 0 <= i < before.len() && before[i] == p;
                    if i < at {
                        assert(after[i] == p);
                    } else {
                        assert(after[i + 1] == p);
                    }
                }
            }
            assert forall|i: int| 0 <= i < after.len() implies (#[trigger] after[i]) < k + 1 by {
                if i < at {
                    assert(after[i] == before[i]);
                } else if i > at {
                    assert(after[i] == before[i - 1]);
                }
            }
            assert forall|i: int, j: int| 0 <= i < j < after.len() implies comes_first(
                ids@,
                (#[trigger] after[i]) as int,
                (#[trigger] after[j]) as int,
            ) by {
                let bi = if i < at { i } else { i - 1 };
                let bj = if j < at { j } else { j - 1 };
                if i == at {
                    assert(after[j] == before[bj]);
                    assert(ids[before[bj] as int] > ids[k as int]);
                } else if j == at {
                    assert(after[i] == before[bi]);
                    assert(before[bi] < k);
                    assert(ids[before[at - 1] as int] <= ids[k as int]);
                    if bi < at - 1 {
                        assert(comes_first(ids@, before[bi] as int, before[at - 1] as int));
                    }
                } else {
                    assert(after[i] == before[bi] && after[j] == before[bj]);
                    assert(comes_first(ids@, before[bi] as int, before[bj] as int));
                }
            }
        }
        k = k + 1;
    }
    order
}

} // verus!
