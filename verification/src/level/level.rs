use crate::level::dimension::Dimension;
use crate::level::sub_chunk::{
    air_view, block_at, decode_layer_spec, encode_layer_spec, inside_sub_chunk, lemma_set_then_get,
    lemma_sub_chunk_transition_round_trip, uniform_layer, with_block, LayerView, SubChunk, SubChunkView, SUB_CHUNK_VOLUME,
};
use crate::level::world_block::{splits_by_16, BlockTransition, LevelBlock, LevelBlockView};
use crate::utility::miner::{bounds_left_optimized, in_range, spec_max, spec_min};
use crate::utility::vector::{Vec2, Vec3};
use vstd::prelude::*;

verus! {

/// How a level is opened and which sub chunks a chunk spans.
#[derive(Debug)]
pub struct LevelConfiguration {
    pub sub_chunk_range: Vec2<i8>,
    pub rw_cache: bool,
    pub create_db_if_missing: bool,
}

impl Default for LevelConfiguration {
    /// Sub chunks -4 to 20, no cache, and no database created where none exists.
    fn default() -> (r: Self)
        ensures
            r.sub_chunk_range == (Vec2::<i8> { x: -4i8, y: 20i8 }),
            !r.rw_cache,
            !r.create_db_if_missing,
    {
        Self { sub_chunk_range: Vec2::new(-4i8, 20i8), rw_cache: false, create_db_if_missing: false }
    }
}

/// Where to set which block.
#[derive(Debug)]
pub struct SetBlockConfig<Block: BlockTransition> {
    pub position: Vec3<i32>,
    pub block: Block,
    pub dim: Dimension,
    pub layer: u8,
}

/// Which block to get.
#[derive(Debug)]
pub struct GetBlockConfig {
    pub position: Vec3<i32>,
    pub dim: Dimension,
    pub layer: u8,
}

/// Which box to fill with which block.
#[derive(Debug)]
pub struct FillConfig<Block: BlockTransition> {
    pub from: Vec3<i32>,
    pub to: Vec3<i32>,
    pub block: Block,
    pub dim: Dimension,
    pub layer: u8,
    pub data_version: u8,
}

/// The key of a database entry of a chunk: a sub chunk, or the marker that says that a
/// chunk exists.
#[derive(Clone, Copy, Debug, PartialEq, Eq, Structural)]
pub enum ChunkKey {
    SubChunk { position: Vec3<i32>, dim: Dimension },
    ChunkMarker { xz: Vec2<i32>, dim: Dimension },
}

impl ChunkKey {
    pub fn new_sub_chunk(position: Vec3<i32>, dim: Dimension) -> (r: Self)
        ensures
            r == (ChunkKey::SubChunk { position, dim }),
    {
        ChunkKey::SubChunk { position, dim }
    }

    pub fn chunk_marker(xz: Vec2<i32>, dim: Dimension) -> (r: Self)
        ensures
            r == (ChunkKey::ChunkMarker { xz, dim }),
    {
        ChunkKey::ChunkMarker { xz, dim }
    }
}

/// The keys that deleting the chunk `xz` removes: every sub chunk with a `y` from
/// `range.x` to `range.y` (inclusive, upwards), then the chunk's marker.
pub open spec fn spec_chunk_deletion_keys(xz: Vec2<i32>, dim: Dimension, range: Vec2<i8>) -> Seq<ChunkKey> {
    let n = if range.x <= range.y {
        range.y - range.x + 1
    } else {
        0
    };
    Seq::new(n as nat, |i: int| ChunkKey::SubChunk { position: Vec3 { x: xz.x, y: (range.x + i) as i32, z: xz.y }, dim }).push(
        ChunkKey::ChunkMarker { xz, dim },
    )
}

/// The key of the sub chunk at height `y` of the column `xz`.
pub open spec fn sub_chunk_key(xz: Vec2<i32>, y: int, dim: Dimension) -> ChunkKey {
    ChunkKey::SubChunk { position: Vec3 { x: xz.x, y: y as i32, z: xz.y }, dim }
}

/// Deleting the chunk `xz` of `dim` over the sub chunk range `range` removes exactly the sub
/// chunks of that column whose `y` lies in the range, each once, lowest first, and then the
/// chunk's marker: every sub chunk key it gives is of that column and dimension with
/// `range.x <= y <= range.y`, every such `y` has its key, the keys rise with `y`, and the
/// last key is the marker.
pub proof fn lemma_chunk_deletion_covers_range(xz: Vec2<i32>, dim: Dimension, range: Vec2<i8>)
    ensures
        ({
            let keys = spec_chunk_deletion_keys(xz, dim, range);
            &&& keys.len() >= 1
            &&& keys.last() == (ChunkKey::ChunkMarker { xz, dim })
            &&& forall|i: int| 0 <= i < keys.len() - 1 ==> (#[trigger] keys[i]) is SubChunk && keys[i]->SubChunk_dim == dim
                && keys[i]->position.x == xz.x && keys[i]->position.z == xz.y && range.x <= keys[i]->position.y <= range.y
            &&& forall|y: int| range.x <= y <= range.y ==> keys.drop_last().contains(#[trigger] sub_chunk_key(xz, y, dim))
            &&& forall|i: int, j: int| 0 <= i < j < keys.len() - 1 ==> (#[trigger] keys[i])->position.y < (#[trigger] keys[j])->position.y
        }),
{
    let keys = spec_chunk_deletion_keys(xz, dim, range);
    assert forall|y: int| range.x <= y <= range.y implies keys.drop_last().contains(#[trigger] sub_chunk_key(xz, y, dim)) by {
        let i = y - range.x;
        assert(keys.drop_last()[i] == sub_chunk_key(xz, y, dim));
    }
}

/// The keys, in order, that deleting the chunk `xz` in the sub chunk range `range` removes.
pub fn chunk_deletion_keys(xz: Vec2<i32>, dim: Dimension, range: Vec2<i8>) -> (r: Vec<ChunkKey>)
    ensures
        r@ == spec_chunk_deletion_keys(xz, dim, range),
{
    let mut keys: Vec<ChunkKey> = Vec::new();
    let ghost n: int = if range.x <= range.y {
        range.y - range.x + 1
    } else {
        0
    };
    if range.x <= range.y {
        let mut y: i16 = range.x as i16;
        while y <= range.y as i16
            invariant
                range.x <= y <= range.y + 1,
                range.x <= range.y,
                keys@ == Seq::new((y - range.x) as nat, |i: int| ChunkKey::SubChunk { position: Vec3 { x: xz.x, y: (range.x + i) as i32, z: xz.y }, dim }),
            decreases range.y + 1 - y,
        {
            keys.push(ChunkKey::new_sub_chunk(Vec3::new(xz.x, y as i32, xz.y), dim));
            y = y + 1;
            assert(keys@ =~= Seq::new((y - range.x) as nat, |i: int| ChunkKey::SubChunk { position: Vec3 { x: xz.x, y: (range.x + i) as i32, z: xz.y }, dim }));
        }
    }
    let ghost before = keys@;
    keys.push(ChunkKey::chunk_marker(xz, dim));
    assert(keys@ =~= spec_chunk_deletion_keys(xz, dim, range)) by {
        assert(before =~= Seq::new(n as nat, |i: int| ChunkKey::SubChunk { position: Vec3 { x: xz.x, y: (range.x + i) as i32, z: xz.y }, dim }));
    }
    keys
}

} // verus!

verus! {

/// The layers of a sub chunk, with layers of air added where needed so that `layer` exists.
pub open spec fn layers_up_to(layers: Seq<Seq<LevelBlockView>>, layer: u8) -> Seq<Seq<LevelBlockView>> {
    if (layer as int) < layers.len() {
        layers
    } else {
        layers + Seq::new((layer + 1 - layers.len()) as nat, |i: int| uniform_layer(air_view()))
    }
}

/// The sub chunk that a block of `layer` is read from or set in: the stored one with
/// `layer` active (layers of air added where it has fewer), or, where none is stored,
/// `layer + 1` layers of air at `position` with `layer` active, marked empty.
pub open spec fn edit_view(stored: Option<SubChunkView>, position: Vec3<i32>, dim: Dimension, layer: u8) -> SubChunkView {
    match stored {
        Some(v) => SubChunkView { layers: layers_up_to(v.layers, layer), active_layer: layer, ..v },
        None => SubChunkView {
            layers: Seq::new(layer as nat + 1, |i: int| uniform_layer(air_view())),
            position,
            dimension: dim,
            active_layer: layer,
            is_empty: true,
        },
    }
}

/// The sub chunk that a block of `layer` is read from or set in (see `edit_view`).
pub fn sub_chunk_to_edit(stored: Option<SubChunk>, position: Vec3<i32>, dim: Dimension, layer: u8) -> (r: SubChunk)
    ensures
        r@ == edit_view(
            match stored {
                Some(s) => Some(s@),
                None => None,
            },
            position,
            dim,
            layer,
        ),
        r@.has_active_layer(),
{
    match stored {
        Some(s) => {
            let mut s = s;
            let ghost v0 = s@;
            while s.get_sub_layer_count() <= layer as usize
                invariant
                    s@.layers.len() >= v0.layers.len(),
                    s@ == (SubChunkView {
                        layers: v0.layers + Seq::new(
                            (s@.layers.len() - v0.layers.len()) as nat,
                            |i: int| uniform_layer(air_view()),
                        ),
                        ..v0
                    }),
                    v0.layers.len() <= layer ==> s@.layers.len() <= layer + 1,
                    v0.layers.len() > layer ==> s@.layers.len() == v0.layers.len(),
                decreases layer + 1 - s@.layers.len(),
            {
                let ghost before = s@;
                s.add_sub_layer();
                assert(s@.layers =~= v0.layers + Seq::new(
                    (s@.layers.len() - v0.layers.len()) as nat,
                    |i: int| uniform_layer(air_view()),
                ));
            }
            proof {
                if v0.layers.len() > layer {
                    assert(s@.layers =~= v0.layers);
                }
            }
            s.set_active_layer(layer);
            s
        },
        None => SubChunk::empty_at_layer(position, dim, layer),
    }
}

} // verus!

verus! {

/// A sub chunk as it reads back after it was written: turned into its intermediate form
/// (`SubChunk::to_transition`) and built again from it (`SubChunk::decode_from_transition`)
/// in dimension `dim`.
pub open spec fn reloaded(v: SubChunkView, dim: Dimension) -> SubChunkView {
    SubChunkView {
        layers: v.layers.map_values(|l: Seq<LevelBlockView>| encode_layer_spec(l)).map_values(
            |l: LayerView<LevelBlockView>| decode_layer_spec(l),
        ),
        position: v.position,
        dimension: dim,
        active_layer: 0,
        is_empty: false,
    }
}

/// Setting a block of `layer` and reading it back: the sub chunk to edit
/// (`sub_chunk_to_edit`) gets `b` at `xyz` (`set_block`), is written and read back
/// (`reloaded`), and the sub chunk to read from it (`sub_chunk_to_edit` again) gives `b` at
/// `xyz`, and at every other position what it gave before the write.
pub proof fn lemma_level_read_after_write(
    stored: Option<SubChunkView>,
    position: Vec3<i32>,
    dim: Dimension,
    layer: u8,
    xyz: Vec3<u8>,
    other: Vec3<u8>,
    b: LevelBlockView,
)
    requires
        stored matches Some(v) ==> v.layers_full(),
        inside_sub_chunk(xyz),
        inside_sub_chunk(other),
    ensures
        ({
            let before = edit_view(stored, position, dim, layer);
            let after = edit_view(Some(reloaded(with_block(before, xyz, b), dim)), position, dim, layer);
            &&& block_at(after, xyz) == Some(b)
            &&& other != xyz ==> block_at(after, other) == block_at(before, other)
        }),
{
    let before = edit_view(stored, position, dim, layer);
    assert(before.layers_full()) by {
        match stored {
            Some(v) => {
                assert forall|l: int| 0 <= l < before.layers.len() implies (#[trigger] before.layers[l]).len() == SUB_CHUNK_VOLUME by {
                    if l < v.layers.len() {
                        assert(before.layers[l] == v.layers[l]);
                    }
                }
            },
            None => {},
        }
    }
    assert(before.has_active_layer());
    lemma_set_then_get(before, xyz, other, b);
    let written = with_block(before, xyz, b);
    lemma_sub_chunk_transition_round_trip(written);
    let back = reloaded(written, dim);
    assert(back.layers == written.layers);
    let after = edit_view(Some(back), position, dim, layer);
    assert(after.layers =~= written.layers);
}

/// The corners of a fill: the sub chunks that hold its smallest and its largest block, and
/// the positions of those blocks inside them.
pub struct FillBounds {
    pub min: Vec3<i32>,
    pub max: Vec3<i32>,
    pub local_min: Vec3<u8>,
    pub local_max: Vec3<u8>,
}

/// What a fill does to one sub chunk.
pub enum FillAction {
    /// Write a sub chunk that is filled with the block, in place of the stored one.
    Replace,
    /// Set the block in the stored sub chunk at every position of the box given by the
    /// inclusive ranges of `x`, `y` and `z`.
    Patch { x: (u8, u8), y: (u8, u8), z: (u8, u8) },
}

/// The corners of filling the box between `from` and `to` (in any order).
pub fn fill_bounds(from: Vec3<i32>, to: Vec3<i32>) -> (r: FillBounds)
    ensures
        bounds_of(r, from, to),
{
    let (lo, hi) = bounds_left_optimized(to, from);
    let (min, local_min) = LevelBlock::block_pos_to_sub_chunk(lo);
    let (max, local_max) = LevelBlock::block_pos_to_sub_chunk(hi);
    FillBounds { min, max, local_min, local_max }
}

/// The range that a fill sets along one axis of the sub chunk at `c`, inside it: from the
/// smaller corner where `c` is the smaller corner's sub chunk (else from 0), up to the larger
/// corner where `c` is the larger corner's sub chunk (else up to 15).
pub open spec fn patch_range(c: i32, min: i32, max: i32, local_min: u8, local_max: u8) -> (u8, u8) {
    (if c == min {
        local_min
    } else {
        0
    }, if c == max {
        local_max
    } else {
        15
    })
}

fn axis_range(c: i32, min: i32, max: i32, local_min: u8, local_max: u8) -> (r: (u8, u8))
    ensures
        r == patch_range(c, min, max, local_min, local_max),
{
    let lower = if c == min {
        local_min
    } else {
        0
    };
    let upper = if c == max {
        local_max
    } else {
        15
    };
    (lower, upper)
}

/// What filling does to the sub chunk at `(x, y, z)`: a sub chunk strictly inside the
/// corners along every axis is replaced; any other is patched, along each axis over the
/// part of the box that lies in it (`patch_range`).
pub open spec fn spec_fill_action(b: FillBounds, x: i32, y: i32, z: i32) -> FillAction {
    if b.min.x < x < b.max.x && b.min.y < y < b.max.y && b.min.z < z < b.max.z {
        FillAction::Replace
    } else {
        FillAction::Patch {
            x: patch_range(x, b.min.x, b.max.x, b.local_min.x, b.local_max.x),
            y: patch_range(y, b.min.y, b.max.y, b.local_min.y, b.local_max.y),
            z: patch_range(z, b.min.z, b.max.z, b.local_min.z, b.local_max.z),
        }
    }
}

/// Decides what filling does to the sub chunk at `(x, y, z)`.
pub fn fill_action(b: &FillBounds, x: i32, y: i32, z: i32) -> (r: FillAction)
    ensures
        r == spec_fill_action(*b, x, y, z),
{
    if in_range(b.min.x, b.max.x, x) && in_range(b.min.y, b.max.y, y) && in_range(b.min.z, b.max.z, z) {
        FillAction::Replace
    } else {
        FillAction::Patch {
            x: axis_range(x, b.min.x, b.max.x, b.local_min.x, b.local_max.x),
            y: axis_range(y, b.min.y, b.max.y, b.local_min.y, b.local_max.y),
            z: axis_range(z, b.min.z, b.max.z, b.local_min.z, b.local_max.z),
        }
    }
}

/// The local box that an action sets.
pub open spec fn action_box(a: FillAction) -> ((u8, u8), (u8, u8), (u8, u8)) {
    match a {
        FillAction::Replace => ((0, 15), (0, 15), (0, 15)),
        FillAction::Patch { x, y, z } => (x, y, z),
    }
}

/// The world coordinate of local coordinate `l` in the sub chunk at `c`.
pub open spec fn world_coord(c: i32, l: int) -> int {
    16 * c + l
}

/// Along one axis, the local range `r` of the sub chunk at `c` holds exactly the positions
/// of that sub chunk that lie between `lo` and `hi`, and ends at 15 at most.
pub open spec fn range_covers(lo: i32, hi: i32, c: i32, r: (u8, u8)) -> bool {
    &&& r.1 <= 15
    &&& forall|l: int| 0 <= l < 16 ==> ((r.0 <= l <= r.1) <==> (lo <= #[trigger] world_coord(c, l) <= hi))
}

/// The bounds that `fill_bounds(from, to)` gives.
pub open spec fn bounds_of(b: FillBounds, from: Vec3<i32>, to: Vec3<i32>) -> bool {
    &&& splits_by_16(spec_min(to.x, from.x), b.min.x, b.local_min.x)
    &&& splits_by_16(spec_min(to.y, from.y), b.min.y, b.local_min.y)
    &&& splits_by_16(spec_min(to.z, from.z), b.min.z, b.local_min.z)
    &&& splits_by_16(spec_max(to.x, from.x), b.max.x, b.local_max.x)
    &&& splits_by_16(spec_max(to.y, from.y), b.max.y, b.local_max.y)
    &&& splits_by_16(spec_max(to.z, from.z), b.max.z, b.local_max.z)
}

proof fn lemma_axis_covers(lo: i32, hi: i32, min: i32, max: i32, local_min: u8, local_max: u8, c: i32)
    requires
        lo <= hi,
        splits_by_16(lo, min, local_min),
        splits_by_16(hi, max, local_max),
        min <= c <= max,
    ensures
        range_covers(lo, hi, c, patch_range(c, min, max, local_min, local_max)),
        min < c < max ==> range_covers(lo, hi, c, (0u8, 15u8)),
{
}

proof fn lemma_axis_misses(lo: i32, hi: i32, min: i32, max: i32, local_min: u8, local_max: u8, c: i32)
    requires
        splits_by_16(lo, min, local_min),
        splits_by_16(hi, max, local_max),
        c < min || c > max,
    ensures
        forall|l: int| 0 <= l < 16 ==> !(lo <= #[trigger] world_coord(c, l) <= hi),
{
}

/// Filling the box between `from` and `to` sets, in every sub chunk between the corners,
/// exactly the blocks of that sub chunk that lie in the box: the local box of its action
/// holds a position if and only if the world position lies in the box. No block of a sub
/// chunk outside the corners lies in the box.
pub proof fn lemma_fill_covers_box(from: Vec3<i32>, to: Vec3<i32>, b: FillBounds, x: i32, y: i32, z: i32)
    requires
        bounds_of(b, from, to),
    ensures
        b.min.x <= x <= b.max.x && b.min.y <= y <= b.max.y && b.min.z <= z <= b.max.z ==> {
            let bx = action_box(spec_fill_action(b, x, y, z));
            &&& range_covers(spec_min(to.x, from.x), spec_max(to.x, from.x), x, bx.0)
            &&& range_covers(spec_min(to.y, from.y), spec_max(to.y, from.y), y, bx.1)
            &&& range_covers(spec_min(to.z, from.z), spec_max(to.z, from.z), z, bx.2)
        },
        x < b.min.x || x > b.max.x ==> forall|l: int|
            0 <= l < 16 ==> !(spec_min(to.x, from.x) <= #[trigger] world_coord(x, l) <= spec_max(to.x, from.x)),
        y < b.min.y || y > b.max.y ==> forall|l: int|
            0 <= l < 16 ==> !(spec_min(to.y, from.y) <= #[trigger] world_coord(y, l) <= spec_max(to.y, from.y)),
        z < b.min.z || z > b.max.z ==> forall|l: int|
            0 <= l < 16 ==> !(spec_min(to.z, from.z) <= #[trigger] world_coord(z, l) <= spec_max(to.z, from.z)),
{
    let (lx, hx) = (spec_min(to.x, from.x), spec_max(to.x, from.x));
    let (ly, hy) = (spec_min(to.y, from.y), spec_max(to.y, from.y));
    let (lz, hz) = (spec_min(to.z, from.z), spec_max(to.z, from.z));
    if b.min.x <= x <= b.max.x {
        lemma_axis_covers(lx, hx, b.min.x, b.max.x, b.local_min.x, b.local_max.x, x);
    } else {
        lemma_axis_misses(lx, hx, b.min.x, b.max.x, b.local_min.x, b.local_max.x, x);
    }
    if b.min.y <= y <= b.max.y {
        lemma_axis_covers(ly, hy, b.min.y, b.max.y, b.local_min.y, b.local_max.y, y);
    } else {
        lemma_axis_misses(ly, hy, b.min.y, b.max.y, b.local_min.y, b.local_max.y, y);
    }
    if b.min.z <= z <= b.max.z {
        lemma_axis_covers(lz, hz, b.min.z, b.max.z, b.local_min.z, b.local_max.z, z);
    } else {
        lemma_axis_misses(lz, hz, b.min.z, b.max.z, b.local_min.z, b.local_max.z, z);
    }
}

} // verus!

verus! {

/// The chunks that exist in a level, as (dimension, column) pairs, each held once.
pub struct ChunkExistence {
    chunks: Vec<(Dimension, Vec2<i32>)>,
}

fn same_chunk(a: &(Dimension, Vec2<i32>), b: &(Dimension, Vec2<i32>)) -> (r: bool)
    ensures
        r == (*a == *b),
{
    a.0 == b.0 && a.1.x == b.1.x && a.1.y == b.1.y
}

impl View for ChunkExistence {
    type V = Set<(Dimension, Vec2<i32>)>;

    closed spec fn view(&self) -> Set<(Dimension, Vec2<i32>)> {
        self.chunks@.to_set()
    }
}

impl ChunkExistence {
    #[verifier::type_invariant]
    spec fn held_once(self) -> bool {
        self.chunks@.no_duplicates()
    }

    /// No chunk.
    pub fn new() -> (r: Self)
        ensures
            r@ == Set::<(Dimension, Vec2<i32>)>::empty(),
    {
        let r = ChunkExistence { chunks: Vec::new() };
        assert(r.chunks@.to_set() =~= Set::<(Dimension, Vec2<i32>)>::empty());
        r
    }

    fn position_of(&self, chunk: &(Dimension, Vec2<i32>)) -> (r: Option<usize>)
        ensures
            match r {
                Some(i) => i < self.chunks@.len() && self.chunks@[i as int] == *chunk,
                None => !self.chunks@.contains(*chunk),
            },
    {
        let mut i: usize = 0;
        while i < self.chunks.len()
            invariant
                i <= self.chunks@.len(),
                forall|j: int| 0 <= j < i ==> self.chunks@[j] != *chunk,
            decreases self.chunks@.len() - i,
        {
            if same_chunk(&self.chunks[i], chunk) {
                return Some(i);
            }
            i = i + 1;
        }
        None
    }

    /// The chunks of a list, each once.
    pub fn from_chunks(chunks: Vec<(Dimension, Vec2<i32>)>) -> (r: Self)
        ensures
            r@ == chunks@.to_set(),
    {
        let mut r = ChunkExistence::new();
        let mut i: usize = 0;
        while i < chunks.len()
            invariant
                i <= chunks@.len(),
                r@ == chunks@.take(i as int).to_set(),
            decreases chunks@.len() - i,
        {
            let c = chunks[i];
            r.insert(c.0, c.1);
            proof {
                assert(chunks@.take(i + 1) =~= chunks@.take(i as int).push(c));
                broadcast use vstd::seq_lib::group_seq_properties;
                assert(chunks@.take(i + 1).to_set() =~= chunks@.take(i as int).to_set().insert(c));
            }
            i = i + 1;
        }
        assert(chunks@.take(i as int) =~= chunks@);
        r
    }

    /// Whether the chunk `xz` of `dim` exists.
    pub fn contains(&self, dim: Dimension, xz: Vec2<i32>) -> (r: bool)
        ensures
            r == self@.contains((dim, xz)),
    {
        let r = self.position_of(&(dim, xz)).is_some();
        proof {
            if r {
                assert(self.chunks@.contains((dim, xz)));
            }
        }
        r
    }

    /// Records that the chunk `xz` of `dim` exists.
    pub fn insert(&mut self, dim: Dimension, xz: Vec2<i32>)
        ensures
            final(self)@ == old(self)@.insert((dim, xz)),
    {
        proof {
            use_type_invariant(&*self);
        }
        let c = (dim, xz);
        if self.position_of(&c).is_none() {
            let mut chunks: Vec<(Dimension, Vec2<i32>)> = Vec::new();
            std::mem::swap(&mut chunks, &mut self.chunks);
            let ghost old_chunks = chunks@;
            chunks.push(c);
            proof {
                assert forall|i: int, j: int| 0 <= i < j < chunks@.len() implies chunks@[i] != chunks@[j] by {
                    if j == chunks@.len() - 1 {
                        assert(old_chunks.contains(chunks@[i]) || i >= old_chunks.len());
                    }
                }
                assert(chunks@.to_set() =~= old_chunks.to_set().insert(c)) by {
                    assert forall|x| chunks@.to_set().contains(x) <==> old_chunks.to_set().insert(c).contains(x) by {
                        if old_chunks.contains(x) {
                            let i = choose|i: int| 0 <= i < old_chunks.len() && old_chunks[i] == x;
                            assert(chunks@[i] == x);
                        }
                        if x == c {
                            assert(chunks@[old_chunks.len() as int] == c);
                        }
                        if chunks@.contains(x) && x != c {
                            let i = choose|i: int| 0 <= i < chunks@.len() && chunks@[i] == x;
                            assert(old_chunks[i] == x);
                        }
                    }
                }
            }
            self.chunks = chunks;
        } else {
            proof {
                assert(self.chunks@.contains(c));
                assert(self.chunks@.to_set() =~= self.chunks@.to_set().insert(c));
            }
        }
    }

    /// Records that the chunk `xz` of `dim` does not exist.
    pub fn remove(&mut self, dim: Dimension, xz: Vec2<i32>)
        ensures
            final(self)@ == old(self)@.remove((dim, xz)),
    {
        proof {
            use_type_invariant(&*self);
        }
        let c = (dim, xz);
        match self.position_of(&c) {
            Some(i) => {
                let mut chunks: Vec<(Dimension, Vec2<i32>)> = Vec::new();
                std::mem::swap(&mut chunks, &mut self.chunks);
                let ghost old_chunks = chunks@;
                chunks.remove(i);
                proof {
                    assert(chunks@ =~= old_chunks.remove(i as int));
                    assert forall|a: int, b: int| 0 <= a < b < chunks@.len() implies chunks@[a] != chunks@[b] by {
                        let oa = if a < i { a } else { a + 1 };
                        let ob = if b < i { b } else { b + 1 };
                        assert(chunks@[a] == old_chunks[oa]);
                        assert(chunks@[b] == old_chunks[ob]);
                    }
                    assert forall|x| chunks@.to_set().contains(x) <==> old_chunks.to_set().remove(c).contains(x) by {
                        if chunks@.contains(x) {
                            let a = choose|a: int| 0 <= a < chunks@.len() && chunks@[a] == x;
                            let oa = if a < i { a } else { a + 1 };
                            assert(old_chunks[oa] == x);
                            assert(oa != i);
                        }
                        if old_chunks.contains(x) && x != c {
                            let a = choose|a: int| 0 <= a < old_chunks.len() && old_chunks[a] == x;
                            assert(a != i);
                            let na = if a < i { a } else { a - 1 };
                            assert(chunks@[na] == x);
                        }
                    }
                    assert(chunks@.to_set() =~= old_chunks.to_set().remove(c));
                }
                self.chunks = chunks;
            },
            None => {
                assert(self.chunks@.to_set() =~= self.chunks@.to_set().remove(c));
            },
        }
    }

    /// Every chunk that exists, each once.
    pub fn entries(&self) -> (r: Vec<(Dimension, Vec2<i32>)>)
        ensures
            r@.to_set() == self@,
            r@.no_duplicates(),
    {
        proof {
            use_type_invariant(self);
        }
        let mut r: Vec<(Dimension, Vec2<i32>)> = Vec::new();
        let mut i: usize = 0;
        while i < self.chunks.len()
            invariant
                i <= self.chunks@.len(),
                r@ == self.chunks@.take(i as int),
            decreases self.chunks@.len() - i,
        {
            r.push(self.chunks[i]);
            i = i + 1;
            assert(r@ =~= self.chunks@.take(i as int));
        }
        assert(self.chunks@.take(i as int) =~= self.chunks@);
        r
    }

    /// The columns of the chunks of `dim` that exist, each once.
    pub fn chunks_in_dimension(&self, dim: Dimension) -> (r: Vec<Vec2<i32>>)
        ensures
            forall|xz: Vec2<i32>| r@.contains(xz) <==> self@.contains((dim, xz)),
            r@.no_duplicates(),
    {
        proof {
            use_type_invariant(self);
        }
        let mut r: Vec<Vec2<i32>> = Vec::new();
        let mut i: usize = 0;
        while i < self.chunks.len()
            invariant
                i <= self.chunks@.len(),
                self.chunks@.no_duplicates(),
                forall|xz: Vec2<i32>| r@.contains(xz) <==> (exists|j: int| 0 <= j < i && #[trigger] self.chunks@[j] == (dim, xz)),
                r@.no_duplicates(),
            decreases self.chunks@.len() - i,
        {
            let c = self.chunks[i];
            let ghost old_r = r@;
            if c.0 == dim {
                proof {
                    if old_r.contains(c.1) {
                        let j = choose|j: int| 0 <= j < i && #[trigger] self.chunks@[j] == (dim, c.1);
                        assert(self.chunks@[j] == self.chunks@[i as int]);
                    }
                }
                r.push(c.1);
                proof {
                    assert forall|xz: Vec2<i32>| r@.contains(xz) <==> (exists|j: int| 0 <= j < i + 1 && #[trigger] self.chunks@[j] == (dim, xz)) by {
                        if r@.contains(xz) {
                            let j = choose|j: int| 0 <= j < r@.len() && r@[j] == xz;
                            if j < old_r.len() {
                                assert(old_r[j] == xz);
                                assert(old_r.contains(xz));
                            } else {
                                assert(self.chunks@[i as int] == (dim, xz));
                            }
                        }
                        if exists|j: int| 0 <= j < i + 1 && #[trigger] self.chunks@[j] == (dim, xz) {
                            let j = choose|j: int| 0 <= j < i + 1 && #[trigger] self.chunks@[j] == (dim, xz);
                            if j < i {
                                assert(old_r.contains(xz));
                                let m = choose|m: int| 0 <= m < old_r.len() && old_r[m] == xz;
                                assert(r@[m] == xz);
                            } else {
                                assert(r@[old_r.len() as int] == xz);
                            }
                        }
                    }
                }
            } else {
                proof {
                    assert forall|xz: Vec2<i32>| r@.contains(xz) <==> (exists|j: int| 0 <= j < i + 1 && #[trigger] self.chunks@[j] == (dim, xz)) by {
                        if exists|j: int| 0 <= j < i + 1 && #[trigger] self.chunks@[j] == (dim, xz) {
                            let j = choose|j: int| 0 <= j < i + 1 && #[trigger] self.chunks@[j] == (dim, xz);
                            assert(j != i);
                        }
                    }
                }
            }
            i = i + 1;
        }
        proof {
            assert forall|xz: Vec2<i32>| r@.contains(xz) <==> self@.contains((dim, xz)) by {
                if self@.contains((dim, xz)) {
                    assert(self.chunks@.contains((dim, xz)));
                    let j = choose|j: int| 0 <= j < self.chunks@.len() && self.chunks@[j] == (dim, xz);
                }
            }
        }
        r
    }

    /// The marker keys of every chunk that exists, in the order of `entries`.
    pub fn marker_keys(&self) -> (r: Vec<ChunkKey>)
        ensures
            r@ == self.spec_entries().map_values(|c: (Dimension, Vec2<i32>)| ChunkKey::ChunkMarker { xz: c.1, dim: c.0 }),
            self.spec_entries().to_set() == self@,
    {
        let mut r: Vec<ChunkKey> = Vec::new();
        let mut i: usize = 0;
        while i < self.chunks.len()
            invariant
                i <= self.chunks@.len(),
                r@ == self.chunks@.take(i as int).map_values(|c: (Dimension, Vec2<i32>)| ChunkKey::ChunkMarker { xz: c.1, dim: c.0 }),
            decreases self.chunks@.len() - i,
        {
            let c = self.chunks[i];
            r.push(ChunkKey::chunk_marker(c.1, c.0));
            i = i + 1;
            assert(r@ =~= self.chunks@.take(i as int).map_values(|c: (Dimension, Vec2<i32>)| ChunkKey::ChunkMarker { xz: c.1, dim: c.0 }));
        }
        assert(self.chunks@.take(i as int) =~= self.chunks@);
        r
    }

    /// The chunks in the order in which `entries` gives them.
    pub closed spec fn spec_entries(&self) -> Seq<(Dimension, Vec2<i32>)> {
        self.chunks@
    }
}

/// After recording a chunk, it exists; after removing it, it does not; other chunks keep
/// their state.
pub proof fn lemma_existence_insert_remove(s: Set<(Dimension, Vec2<i32>)>, c: (Dimension, Vec2<i32>), other: (Dimension, Vec2<i32>))
    requires
        other != c,
    ensures
        s.insert(c).contains(c),
        !s.remove(c).contains(c),
        s.insert(c).contains(other) == s.contains(other),
        s.remove(c).contains(other) == s.contains(other),
{
}

} // verus!
