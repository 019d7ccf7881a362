use crate::level::dimension::Dimension;
use crate::level::error::SubChunkError;
use crate::level::world_block::{BlockTransition, LevelBlock, LevelBlockView};
use crate::utility::miner::{idx_3_to_1, spec_idx_3_to_1};
use crate::utility::vector::Vec3;
use vstd::prelude::*;

verus! {

/// The number of blocks in one layer of a sub chunk (16 * 16 * 16).
pub const SUB_CHUNK_VOLUME: usize = 4096;

/// One layer of a sub chunk in palette form: for every block the index of its palette
/// entry, and the palette.
pub type BlockLayer<T> = (Vec<u16>, Vec<T>);

/// A layer in palette form, as values: the indices and the palette.
pub type LayerView<T> = (Seq<u16>, Seq<T>);

/// The intermediate form of a sub chunk: its position, the version of its encoding and its
/// layers in palette form. Every layer has exactly `SUB_CHUNK_VOLUME` indices.
pub struct SubChunkTransition<Block = LevelBlock> {
    position: Vec3<i32>,
    data_version: u8,
    layers: Vec<BlockLayer<Block>>,
}

pub open spec fn layer_value<T>(l: BlockLayer<T>) -> LayerView<T> {
    (l.0@, l.1@)
}

impl<Block> SubChunkTransition<Block> {
    #[verifier::type_invariant]
    spec fn every_layer_is_full(self) -> bool {
        forall|i: int| 0 <= i < self.layers@.len() ==> (#[trigger] self.layers@[i]).0@.len() == SUB_CHUNK_VOLUME
    }

    pub closed spec fn spec_position(self) -> Vec3<i32> {
        self.position
    }

    pub closed spec fn spec_data_version(self) -> u8 {
        self.data_version
    }

    /// The layers as values.
    pub closed spec fn spec_layers(self) -> Seq<LayerView<Block>> {
        self.layers@.map_values(|l: BlockLayer<Block>| layer_value(l))
    }

    /// A transition at `position` with no layer yet.
    pub fn new(position: Vec3<i32>, layer_count: usize, version: u8) -> (r: Self)
        ensures
            r.spec_position() == position,
            r.spec_data_version() == version,
            r.spec_layers() == Seq::<LayerView<Block>>::empty(),
    {
        let r = SubChunkTransition { position, data_version: version, layers: Vec::with_capacity(layer_count) };
        assert(r.spec_layers() =~= Seq::<LayerView<Block>>::empty());
        r
    }

    /// Appends a layer.
    pub fn new_layer(&mut self, data: BlockLayer<Block>)
        requires
            data.0@.len() == SUB_CHUNK_VOLUME,
        ensures
            final(self).spec_position() == old(self).spec_position(),
            final(self).spec_data_version() == old(self).spec_data_version(),
            final(self).spec_layers() == old(self).spec_layers().push(layer_value(data)),
    {
        proof {
            use_type_invariant(&*self);
        }
        let ghost d = layer_value(data);
        let mut layers = Vec::new();
        std::mem::swap(&mut layers, &mut self.layers);
        layers.push(data);
        self.layers = layers;
        assert(self.spec_layers() =~= old(self).spec_layers().push(d));
    }

    pub fn position(&self) -> (r: Vec3<i32>)
        ensures
            r == self.spec_position(),
    {
        self.position
    }

    pub fn data_version(&self) -> (r: u8)
        ensures
            r == self.spec_data_version(),
    {
        self.data_version
    }

    pub fn layers(&self) -> (r: &Vec<BlockLayer<Block>>)
        ensures
            r@.map_values(|l: BlockLayer<Block>| layer_value(l)) == self.spec_layers(),
            forall|i: int| 0 <= i < r@.len() ==> (#[trigger] r@[i]).0@.len() == SUB_CHUNK_VOLUME,
    {
        proof {
            use_type_invariant(self);
        }
        &self.layers
    }

    /// Takes the layers out of the transition.
    pub fn into_layers(self) -> (r: Vec<BlockLayer<Block>>)
        ensures
            r@.map_values(|l: BlockLayer<Block>| layer_value(l)) == self.spec_layers(),
            forall|i: int| 0 <= i < r@.len() ==> (#[trigger] r@[i]).0@.len() == SUB_CHUNK_VOLUME,
    {
        proof {
            use_type_invariant(&self);
        }
        self.layers
    }
}

} // verus!

verus! {

/// The views of a sequence of blocks.
pub open spec fn block_views(v: Seq<LevelBlock>) -> Seq<LevelBlockView> {
    v.map_values(|b: LevelBlock| b@)
}

/// The air block as a value.
pub open spec fn air_view() -> LevelBlockView {
    LevelBlockView { name: "minecraft:air"@, states: Map::empty() }
}

/// The index of a position inside a sub chunk layer.
pub open spec fn block_index(xyz: Vec3<u8>) -> int {
    spec_idx_3_to_1(xyz.x as int, xyz.y as int, xyz.z as int, 16, 16)
}

/// The order in which a layer is walked when its palette is built: `z`, then `y`, then `x`
/// (fastest). Step `k` visits the block at this index.
pub open spec fn traversal_index(k: int) -> int {
    (k % 16) * 256 + (k / 256) * 16 + (k / 16) % 16
}

/// The step at which the walk visits the block at index `i`.
pub open spec fn traversal_step(i: int) -> int {
    ((i / 16) % 16) * 256 + (i % 16) * 16 + i / 256
}

/// A layer in walking order.
pub open spec fn traversal(layer: Seq<LevelBlockView>) -> Seq<LevelBlockView> {
    Seq::new(SUB_CHUNK_VOLUME as nat, |k: int| layer[traversal_index(k)])
}

/// The distinct elements of `s`, in the order of their first occurrence.
pub open spec fn dedup<T>(s: Seq<T>) -> Seq<T>
    decreases s.len(),
{
    if s.len() == 0 {
        s
    } else {
        let d = dedup(s.drop_last());
        if d.contains(s.last()) {
            d
        } else {
            d.push(s.last())
        }
    }
}

/// The palette of a layer: its distinct blocks in the order of the walk.
pub open spec fn palette_of(layer: Seq<LevelBlockView>) -> Seq<LevelBlockView> {
    dedup(traversal(layer))
}

/// For every block of a layer, the position of that block in the palette.
pub open spec fn palette_indices(layer: Seq<LevelBlockView>) -> Seq<u16> {
    Seq::new(SUB_CHUNK_VOLUME as nat, |i: int| palette_of(layer).index_of(layer[i]) as u16)
}

/// A layer in palette form.
pub open spec fn encode_layer_spec(layer: Seq<LevelBlockView>) -> LayerView<LevelBlockView> {
    (palette_indices(layer), palette_of(layer))
}

/// The blocks that a layer in palette form stands for.
pub open spec fn decode_layer_spec(l: LayerView<LevelBlockView>) -> Seq<LevelBlockView> {
    Seq::new(l.0.len(), |i: int| l.1[l.0[i] as int])
}

/// A layer in palette form whose indices all point into its palette.
pub open spec fn indices_in_palette<T>(l: LayerView<T>) -> bool {
    forall|i: int| 0 <= i < l.0.len() ==> (#[trigger] l.0[i]) < l.1.len()
}

pub proof fn lemma_traversal_is_bijective()
    ensures
        forall|k: int| 0 <= k < 4096 ==> 0 <= #[trigger] traversal_index(k) < 4096 && traversal_step(traversal_index(k)) == k,
        forall|i: int| 0 <= i < 4096 ==> 0 <= #[trigger] traversal_step(i) < 4096 && traversal_index(traversal_step(i)) == i,
{
    assert forall|k: int| 0 <= k < 4096 implies 0 <= #[trigger] traversal_index(k) < 4096 && traversal_step(traversal_index(k)) == k by {
        let x = k % 16;
        let y = (k / 16) % 16;
        let z = k / 256;
        assert(k == z * 256 + y * 16 + x);
        let i = traversal_index(k);
        assert(i == x * 256 + z * 16 + y);
        assert(i % 16 == y);
        assert(i / 16 == x * 16 + z);
        assert((i / 16) % 16 == z);
        assert(i / 256 == x);
    }
    assert forall|i: int| 0 <= i < 4096 implies 0 <= #[trigger] traversal_step(i) < 4096 && traversal_index(traversal_step(i)) == i by {
        let y = i % 16;
        let z = (i / 16) % 16;
        let x = i / 256;
        assert(i == x * 256 + z * 16 + y);
        let k = traversal_step(i);
        assert(k == z * 256 + y * 16 + x);
        assert(k % 16 == x);
        assert(k / 16 == z * 16 + y);
        assert((k / 16) % 16 == y);
        assert(k / 256 == z);
    }
}

pub proof fn lemma_dedup<T>(s: Seq<T>)
    ensures
        dedup(s).no_duplicates(),
        dedup(s).len() <= s.len(),
        forall|x: T| dedup(s).contains(x) <==> s.contains(x),
    decreases s.len(),
{
    if s.len() > 0 {
        lemma_dedup(s.drop_last());
        let d = dedup(s.drop_last());
        assert forall|x: T| dedup(s).contains(x) <==> s.contains(x) by {
            if s.contains(x) {
                let j = choose|j: int| 0 <= j < s.len() && s[j] == x;
                if j < s.len() - 1 {
                    assert(s.drop_last()[j] == x);
                    assert(s.drop_last().contains(x));
                    assert(d.contains(x));
                    let m = choose|m: int| 0 <= m < d.len() && d[m] == x;
                    if !d.contains(s.last()) {
                        assert(d.push(s.last())[m] == x);
                    }
                } else {
                    if !d.contains(s.last()) {
                        assert(d.push(s.last())[d.len() as int] == x);
                    }
                }
            }
            if dedup(s).contains(x) {
                if x == s.last() {
                    assert(s[s.len() - 1] == x);
                } else {
                    let m = choose|m: int| 0 <= m < dedup(s).len() && dedup(s)[m] == x;
                    if !d.contains(s.last()) {
                        assert(m < d.len());
                        assert(d[m] == x);
                    }
                    assert(d.contains(x));
                    assert(s.drop_last().contains(x));
                    let j = choose|j: int| 0 <= j < s.drop_last().len() && s.drop_last()[j] == x;
                    assert(s[j] == x);
                }
            }
        }
    }
}

/// Rebuilding the blocks from the palette form of a layer gives the layer back.
pub proof fn lemma_layer_round_trip(layer: Seq<LevelBlockView>)
    requires
        layer.len() == SUB_CHUNK_VOLUME,
    ensures
        indices_in_palette(encode_layer_spec(layer)),
        palette_of(layer).len() <= SUB_CHUNK_VOLUME,
        palette_of(layer).no_duplicates(),
        decode_layer_spec(encode_layer_spec(layer)) == layer,
{
    lemma_traversal_is_bijective();
    lemma_dedup(traversal(layer));
    let p = palette_of(layer);
    assert forall|i: int| 0 <= i < 4096 implies p.contains(layer[i]) && 0 <= #[trigger] p.index_of(layer[i]) < p.len()
        && p[p.index_of(layer[i])] == layer[i] by {
        let k = traversal_step(i);
        assert(traversal(layer)[k] == layer[i]);
        assert(traversal(layer).contains(layer[i]));
    }
    assert(decode_layer_spec(encode_layer_spec(layer)) =~= layer);
}

} // verus!

verus! {

/// A sub chunk: `16 * 16 * 16` blocks in one or more layers, with the layer that block
/// operations act on, and whether it holds only air.
pub struct SubChunk {
    blocks: Vec<Vec<LevelBlock>>,
    position: Vec3<i32>,
    dimension: Dimension,
    active_layer: u8,
    is_empty: bool,
}

/// A sub chunk as a value.
pub struct SubChunkView {
    pub layers: Seq<Seq<LevelBlockView>>,
    pub position: Vec3<i32>,
    pub dimension: Dimension,
    pub active_layer: u8,
    pub is_empty: bool,
}

impl SubChunkView {
    /// Every layer holds `SUB_CHUNK_VOLUME` blocks.
    pub open spec fn layers_full(self) -> bool {
        forall|l: int| 0 <= l < self.layers.len() ==> (#[trigger] self.layers[l]).len() == SUB_CHUNK_VOLUME
    }

    /// Whether the active layer exists.
    pub open spec fn has_active_layer(self) -> bool {
        self.active_layer < self.layers.len()
    }

    /// A sub chunk marked as holding only air holds only air: every operation but
    /// `force_empty` keeps this.
    pub open spec fn air_when_empty(self) -> bool {
        self.is_empty ==> forall|l: int, i: int|
            0 <= l < self.layers.len() && 0 <= i < self.layers[l].len() ==> #[trigger] self.layers[l][i] == air_view()
    }
}

pub open spec fn layers_view(blocks: Seq<Vec<LevelBlock>>) -> Seq<Seq<LevelBlockView>> {
    blocks.map_values(|l: Vec<LevelBlock>| block_views(l@))
}

/// A layer filled with one block.
pub open spec fn uniform_layer(b: LevelBlockView) -> Seq<LevelBlockView> {
    Seq::new(SUB_CHUNK_VOLUME as nat, |i: int| b)
}

impl View for SubChunk {
    type V = SubChunkView;

    closed spec fn view(&self) -> SubChunkView {
        SubChunkView {
            layers: layers_view(self.blocks@),
            position: self.position,
            dimension: self.dimension,
            active_layer: self.active_layer,
            is_empty: self.is_empty,
        }
    }
}

/// What `get_block` reads at `xyz`: the block there in the active layer, if that layer
/// exists and `xyz` lies inside it.
pub open spec fn block_at(v: SubChunkView, xyz: Vec3<u8>) -> Option<LevelBlockView> {
    if v.has_active_layer() && block_index(xyz) < v.layers[v.active_layer as int].len() {
        Some(v.layers[v.active_layer as int][block_index(xyz)])
    } else {
        None
    }
}

/// The sub chunk after `set_block` put `b` at `xyz` in the active layer.
pub open spec fn with_block(v: SubChunkView, xyz: Vec3<u8>, b: LevelBlockView) -> SubChunkView {
    SubChunkView {
        layers: v.layers.update(v.active_layer as int, v.layers[v.active_layer as int].update(block_index(xyz), b)),
        is_empty: false,
        ..v
    }
}

/// Positions inside a sub chunk: every coordinate below 16.
pub open spec fn inside_sub_chunk(xyz: Vec3<u8>) -> bool {
    xyz.x < 16 && xyz.y < 16 && xyz.z < 16
}

/// Distinct positions inside a sub chunk have distinct indices, all below `SUB_CHUNK_VOLUME`.
pub proof fn lemma_block_index_injective(a: Vec3<u8>, b: Vec3<u8>)
    requires
        inside_sub_chunk(a),
        inside_sub_chunk(b),
    ensures
        0 <= block_index(a) < SUB_CHUNK_VOLUME,
        block_index(a) == block_index(b) ==> a == b,
{
    let (ax, ay, az) = (a.x as int, a.y as int, a.z as int);
    let (bx, by, bz) = (b.x as int, b.y as int, b.z as int);
    assert(block_index(a) == ax * 256 + az * 16 + ay) by (nonlinear_arith)
        requires
            block_index(a) == ax * 16 * 16 + az * 16 + ay,
    ;
    assert(block_index(b) == bx * 256 + bz * 16 + by) by (nonlinear_arith)
        requires
            block_index(b) == bx * 16 * 16 + bz * 16 + by,
    ;
    if block_index(a) == block_index(b) {
        assert(ax == bx && az == bz && ay == by) by (nonlinear_arith)
            requires
                ax * 256 + az * 16 + ay == bx * 256 + bz * 16 + by,
                0 <= ax < 16,
                0 <= ay < 16,
                0 <= az < 16,
                0 <= bx < 16,
                0 <= by < 16,
                0 <= bz < 16,
        ;
    }
}

/// Reading a position after a block was set there gives that block back, and every other
/// position inside the sub chunk reads as before.
pub proof fn lemma_set_then_get(v: SubChunkView, xyz: Vec3<u8>, other: Vec3<u8>, b: LevelBlockView)
    requires
        v.layers_full(),
        v.has_active_layer(),
        inside_sub_chunk(xyz),
        inside_sub_chunk(other),
    ensures
        block_at(with_block(v, xyz, b), xyz) == Some(b),
        other != xyz ==> block_at(with_block(v, xyz, b), other) == block_at(v, other),
        with_block(v, xyz, b).layers_full(),
{
    lemma_block_index_injective(xyz, other);
    lemma_block_index_injective(other, xyz);
    let w = with_block(v, xyz, b);
    assert forall|l: int| 0 <= l < w.layers.len() implies (#[trigger] w.layers[l]).len() == SUB_CHUNK_VOLUME by {
        assert(v.layers[l].len() == SUB_CHUNK_VOLUME);
    }
}

/// `SUB_CHUNK_VOLUME` copies of `block`.
fn uniform_blocks(block: &LevelBlock) -> (r: Vec<LevelBlock>)
    ensures
        r@.len() == SUB_CHUNK_VOLUME,
        block_views(r@) == uniform_layer(block@),
{
    let mut r: Vec<LevelBlock> = Vec::new();
    let mut i: usize = 0;
    while i < SUB_CHUNK_VOLUME
        invariant
            i <= SUB_CHUNK_VOLUME,
            block_views(r@) == Seq::new(i as nat, |j: int| block@),
            r@.len() == i,
        decreases SUB_CHUNK_VOLUME - i,
    {
        let b = block.clone();
        let ghost old_r = r@;
        r.push(b);
        assert(block_views(r@) =~= block_views(old_r).push(block@));
        i = i + 1;
        assert(block_views(r@) =~= Seq::new(i as nat, |j: int| block@));
    }
    r
}

/// The position of `block` in `palette`, if it occurs there.
fn find_block(palette: &Vec<LevelBlock>, block: &LevelBlock) -> (r: Option<usize>)
    ensures
        match r {
            Some(j) => j < palette@.len() && palette@[j as int]@ == block@,
            None => !block_views(palette@).contains(block@),
        },
{
    let mut j: usize = 0;
    while j < palette.len()
        invariant
            j <= palette@.len(),
            forall|m: int| 0 <= m < j ==> palette@[m]@ != block@,
        decreases palette@.len() - j,
    {
        if palette[j] == *block {
            return Some(j);
        }
        j = j + 1;
    }
    proof {
        if block_views(palette@).contains(block@) {
            let m = choose|m: int| 0 <= m < block_views(palette@).len() && block_views(palette@)[m] == block@;
            assert(palette@[m]@ == block@);
        }
    }
    None
}

impl SubChunk {
    #[verifier::type_invariant]
    spec fn every_layer_is_full(self) -> bool {
        forall|l: int| 0 <= l < self.blocks@.len() ==> (#[trigger] self.blocks@[l])@.len() == SUB_CHUNK_VOLUME
    }

    /// Marks the sub chunk as holding more than air.
    pub fn force_non_empty(&mut self)
        ensures
            final(self)@ == (SubChunkView { is_empty: false, ..old(self)@ }),
            final(self)@.air_when_empty(),
    {
        proof {
            use_type_invariant(&*self);
        }
        self.is_empty = false;
    }

    /// Marks the sub chunk as holding only air.
    pub fn force_empty(&mut self)
        ensures
            final(self)@ == (SubChunkView { is_empty: true, ..old(self)@ }),
    {
        proof {
            use_type_invariant(&*self);
        }
        self.is_empty = true;
    }

    /// A sub chunk with one layer filled with `block`.
    pub fn full<Block: BlockTransition>(position: Vec3<i32>, dimension: Dimension, block: Block) -> (r: Self)
        ensures
            r@ == (SubChunkView {
                layers: seq![uniform_layer(block.transition_view())],
                position,
                dimension,
                active_layer: 0,
                is_empty: false,
            }),
            r@.air_when_empty(),
    {
        let b = block.into_transition();
        let layer = uniform_blocks(&b);
        let mut blocks: Vec<Vec<LevelBlock>> = Vec::with_capacity(1);
        blocks.push(layer);
        let r = SubChunk { blocks, position, dimension, active_layer: 0, is_empty: false };
        assert(r@.layers =~= seq![uniform_layer(block.transition_view())]);
        r
    }

    /// A sub chunk with one layer of air, marked as empty.
    pub fn empty(position: Vec3<i32>, dimension: Dimension) -> (r: Self)
        ensures
            r@ == (SubChunkView {
                layers: seq![uniform_layer(air_view())],
                position,
                dimension,
                active_layer: 0,
                is_empty: true,
            }),
            r@.air_when_empty(),
    {
        let air = LevelBlock::air();
        let layer = uniform_blocks(&air);
        let mut blocks: Vec<Vec<LevelBlock>> = Vec::with_capacity(1);
        blocks.push(layer);
        let r = SubChunk { blocks, position, dimension, active_layer: 0, is_empty: true };
        assert(air@ == air_view());
        assert(r@.layers =~= seq![uniform_layer(air_view())]);
        r
    }

    /// The same sub chunk, marked as holding more than air.
    pub fn to_init(self) -> (r: Self)
        ensures
            r@ == (SubChunkView { is_empty: false, ..self@ }),
            r@.air_when_empty(),
    {
        proof {
            use_type_invariant(&self);
        }
        let mut s = self;
        s.is_empty = false;
        s
    }

    /// The block at `xyz` in the active layer, if that layer exists and `xyz` lies inside it.
    pub fn get_block(&self, xyz: Vec3<u8>) -> (r: Option<&LevelBlock>)
        ensures
            r is Some <==> block_at(self@, xyz) is Some,
            r matches Some(b) ==> block_at(self@, xyz) == Some(b@),
    {
        proof {
            use_type_invariant(self);
        }
        let layer = self.active_layer as usize;
        if layer >= self.blocks.len() {
            return None;
        }
        let idx = idx_3_to_1(xyz, 16u8, 16u8);
        if idx >= self.blocks[layer].len() {
            return None;
        }
        Some(&self.blocks[layer][idx])
    }

    /// Sets the block at `xyz` in the active layer and marks the sub chunk as holding
    /// more than air; fails, changing nothing, when the active layer does not exist.
    pub fn set_block<Block: BlockTransition>(&mut self, xyz: Vec3<u8>, block: Block) -> (r: Result<(), SubChunkError>)
        requires
            old(self)@.has_active_layer() ==> block_index(xyz) < SUB_CHUNK_VOLUME,
        ensures
            !old(self)@.has_active_layer() ==> r == Err::<(), SubChunkError>(SubChunkError::LayerError(old(self)@.active_layer))
                && final(self)@ == old(self)@,
            old(self)@.has_active_layer() ==> r is Ok && final(self)@ == with_block(old(self)@, xyz, block.transition_view()),
            old(self)@.air_when_empty() ==> final(self)@.air_when_empty(),
    {
        proof {
            use_type_invariant(&*self);
        }
        let layer = self.active_layer as usize;
        if layer >= self.blocks.len() {
            return Err(SubChunkError::LayerError(self.active_layer));
        }
        let idx = idx_3_to_1(xyz, 16u8, 16u8);
        let b = block.into_transition();
        let mut blocks: Vec<Vec<LevelBlock>> = Vec::new();
        std::mem::swap(&mut blocks, &mut self.blocks);
        let ghost old_blocks = blocks@;
        let mut row: Vec<LevelBlock> = Vec::new();
        std::mem::swap(&mut row, &mut blocks[layer]);
        let ghost old_row = row@;
        row.set(idx, b);
        std::mem::swap(&mut row, &mut blocks[layer]);
        self.blocks = blocks;
        self.is_empty = false;
        proof {
            assert(block_views(self.blocks@[layer as int]@) =~= block_views(old_row).update(idx as int, b@));
            assert(layers_view(self.blocks@) =~= layers_view(old_blocks).update(
                layer as int,
                block_views(old_row).update(idx as int, b@),
            ));
        }
        Ok(())
    }

    pub fn get_active_layer(&self) -> (r: u8)
        ensures
            r == self@.active_layer,
    {
        self.active_layer
    }

    /// Selects the layer that block operations act on.
    pub fn set_active_layer(&mut self, idx: u8)
        requires
            (idx as int) < old(self)@.layers.len(),
        ensures
            final(self)@ == (SubChunkView { active_layer: idx, ..old(self)@ }),
            old(self)@.air_when_empty() ==> final(self)@.air_when_empty(),
    {
        proof {
            use_type_invariant(&*self);
        }
        self.active_layer = idx;
    }

    /// Appends a layer of air.
    pub fn add_sub_layer(&mut self)
        ensures
            final(self)@ == (SubChunkView { layers: old(self)@.layers.push(uniform_layer(air_view())), ..old(self)@ }),
            old(self)@.air_when_empty() ==> final(self)@.air_when_empty(),
    {
        proof {
            use_type_invariant(&*self);
        }
        let air = LevelBlock::air();
        let layer = uniform_blocks(&air);
        let mut blocks: Vec<Vec<LevelBlock>> = Vec::new();
        std::mem::swap(&mut blocks, &mut self.blocks);
        let ghost old_blocks = blocks@;
        blocks.push(layer);
        self.blocks = blocks;
        assert(layers_view(self.blocks@) =~= layers_view(old_blocks).push(uniform_layer(air_view())));
    }

    pub fn get_sub_layer_count(&self) -> (r: usize)
        ensures
            r == self@.layers.len(),
    {
        self.blocks.len()
    }

    /// Every layer of a sub chunk holds `SUB_CHUNK_VOLUME` blocks.
    pub fn layers_are_full(&self) -> (r: bool)
        ensures
            r,
            self@.layers_full(),
    {
        proof {
            use_type_invariant(self);
        }
        true
    }
}

} // verus!

verus! {

/// The layers of a transition of blocks, as values.
pub open spec fn transition_layer_views(t: SubChunkTransition<LevelBlock>) -> Seq<LayerView<LevelBlockView>> {
    t.spec_layers().map_values(|l: LayerView<LevelBlock>| (l.0, block_views(l.1)))
}

/// The version of the sub chunk encoding that `SubChunk::to_transition` writes.
pub const TRANSITION_DATA_VERSION: u8 = 9;

/// The step after which the palette holds the blocks that the walk visited first.
proof fn lemma_dedup_step(t: Seq<LevelBlockView>, k: int)
    requires
        0 <= k < t.len(),
    ensures
        dedup(t.take(k + 1)) == (if dedup(t.take(k)).contains(t[k]) {
            dedup(t.take(k))
        } else {
            dedup(t.take(k)).push(t[k])
        }),
{
    assert(t.take(k + 1).drop_last() =~= t.take(k));
}

impl SubChunk {
    /// The palette form of one layer: the distinct blocks in the order in which a walk over
    /// `z`, `y`, then `x` meets them, and for every block the index of its palette entry.
    pub fn encode_single_layer(&self, layer_override: usize) -> (r: BlockLayer<LevelBlock>)
        requires
            layer_override < self@.layers.len(),
        ensures
            r.0@ == palette_indices(self@.layers[layer_override as int]),
            block_views(r.1@) == palette_of(self@.layers[layer_override as int]),
    {
        proof {
            use_type_invariant(self);
            lemma_traversal_is_bijective();
        }
        let ghost lv = self@.layers[layer_override as int];
        let ghost t = traversal(lv);
        let layer = &self.blocks[layer_override];
        assert(block_views(layer@) == lv);
        let mut indices: Vec<u16> = vec![0u16; SUB_CHUNK_VOLUME];
        let mut palette: Vec<LevelBlock> = Vec::new();
        let mut k: usize = 0;
        proof {
            assert(t.take(0) =~= Seq::<LevelBlockView>::empty());
            assert(block_views(palette@) =~= dedup(t.take(0)));
        }
        while k < SUB_CHUNK_VOLUME
            invariant
                k <= SUB_CHUNK_VOLUME,
                indices@.len() == SUB_CHUNK_VOLUME,
                layer@.len() == SUB_CHUNK_VOLUME,
                block_views(layer@) == lv,
                t == traversal(lv),
                block_views(palette@) == dedup(t.take(k as int)),
                palette@.len() <= k,
                forall|kk: int| 0 <= kk < 4096 ==> 0 <= #[trigger] traversal_index(kk) < 4096 && traversal_step(traversal_index(kk)) == kk,
                forall|s: int| 0 <= s < k ==> {
                    let i = #[trigger] traversal_index(s);
                    (indices@[i] as int) < palette@.len() && palette@[indices@[i] as int]@ == lv[i]
                },
            decreases SUB_CHUNK_VOLUME - k,
        {
            let x = (k % 16) as u8;
            let y = ((k / 16) % 16) as u8;
            let z = (k / 256) as u8;
            let idx = idx_3_to_1(Vec3::new(x, y, z), 16u8, 16u8);
            assert(idx == traversal_index(k as int));
            let current = &layer[idx];
            assert(current@ == lv[idx as int]);
            assert(t[k as int] == lv[idx as int]);
            proof {
                lemma_dedup_step(t, k as int);
                lemma_dedup(t.take(k as int));
            }
            let ghost old_palette = palette@;
            let ghost old_indices = indices@;
            match find_block(&palette, current) {
                Some(j) => {
                    proof {
                        assert(block_views(palette@)[j as int] == current@);
                        assert(block_views(palette@).contains(current@));
                    }
                    indices.set(idx, j as u16);
                },
                None => {
                    let c = current.clone();
                    palette.push(c);
                    assert(block_views(palette@) =~= block_views(old_palette).push(current@));
                    indices.set(idx, (palette.len() - 1) as u16);
                },
            }
            proof {
                assert forall|s: int| 0 <= s < k + 1 implies {
                    let i = #[trigger] traversal_index(s);
                    (indices@[i] as int) < palette@.len() && palette@[indices@[i] as int]@ == lv[i]
                } by {
                    if s < k {
                        let i = traversal_index(s);
                        assert(i != idx);
                        assert(indices@[i] == old_indices[i]);
                    }
                }
            }
            k = k + 1;
        }
        proof {
            assert(t.take(4096) =~= t);
            lemma_dedup(t);
            let p = palette_of(lv);
            assert forall|i: int| 0 <= i < 4096 implies indices@[i] == #[trigger] palette_indices(lv)[i] by {
                let s = traversal_step(i);
                assert(traversal_index(s) == i);
                let j = indices@[i] as int;
                assert(p[j] == lv[i]);
                assert(p.contains(lv[i]));
                let m = p.index_of(lv[i]);
                assert(p[m] == lv[i]);
                assert(m == j);
            }
            assert(indices@ =~= palette_indices(lv));
        }
        (indices, palette)
    }

    /// Builds a sub chunk from its intermediate form: every layer gets, at every index,
    /// the palette entry that the index points to. The sub chunk is at the transition's
    /// position, its first layer is active, and it is marked as holding more than air.
    pub fn decode_from_transition(data: SubChunkTransition<LevelBlock>, dimension: Dimension, info: &mut ()) -> (r: Result<Self, ()>)
        requires
            forall|l: int| 0 <= l < data.spec_layers().len() ==> indices_in_palette(#[trigger] data.spec_layers()[l]),
        ensures
            r matches Ok(s) && s@ == (SubChunkView {
                layers: transition_layer_views(data).map_values(|l: LayerView<LevelBlockView>| decode_layer_spec(l)),
                position: data.spec_position(),
                dimension,
                active_layer: 0,
                is_empty: false,
            }) && s@.air_when_empty(),
    {
        proof {
            use_type_invariant(&data);
        }
        let ghost tl = transition_layer_views(data);
        let mut blocks: Vec<Vec<LevelBlock>> = Vec::new();
        let mut l: usize = 0;
        while l < data.layers.len()
            invariant
                l <= data.layers@.len(),
                tl == transition_layer_views(data),
                forall|m: int| 0 <= m < data.spec_layers().len() ==> indices_in_palette(#[trigger] data.spec_layers()[m]),
                forall|m: int| 0 <= m < data.layers@.len() ==> (#[trigger] data.layers@[m]).0@.len() == SUB_CHUNK_VOLUME,
                blocks@.len() == l,
                forall|m: int| 0 <= m < l ==> (#[trigger] blocks@[m])@.len() == SUB_CHUNK_VOLUME,
                layers_view(blocks@) == tl.take(l as int).map_values(|x: LayerView<LevelBlockView>| decode_layer_spec(x)),
            decreases data.layers@.len() - l,
        {
            let layer = &data.layers[l];
            assert(data.spec_layers()[l as int] == layer_value(*layer));
            assert(indices_in_palette(layer_value(*layer)));
            let mut out: Vec<LevelBlock> = Vec::new();
            let mut i: usize = 0;
            while i < SUB_CHUNK_VOLUME
                invariant
                    i <= SUB_CHUNK_VOLUME,
                    layer.0@.len() == SUB_CHUNK_VOLUME,
                    indices_in_palette(layer_value(*layer)),
                    out@.len() == i,
                    block_views(out@) == Seq::new(i as nat, |j: int| layer.1@[layer.0@[j] as int]@),
                decreases SUB_CHUNK_VOLUME - i,
            {
                let index = layer.0[i] as usize;
                assert(layer_value(*layer).0[i as int] < layer_value(*layer).1.len());
                let b = LevelBlock::from_other(&layer.1[index]);
                let ghost old_out = out@;
                out.push(b);
                assert(block_views(out@) =~= block_views(old_out).push(b@));
                i = i + 1;
                assert(block_views(out@) =~= Seq::new(i as nat, |j: int| layer.1@[layer.0@[j] as int]@));
            }
            let ghost old_blocks = blocks@;
            proof {
                assert(tl[l as int] == (layer.0@, block_views(layer.1@)));
                assert(block_views(out@) =~= decode_layer_spec(tl[l as int]));
            }
            blocks.push(out);
            l = l + 1;
            proof {
                assert(tl.take(l as int).drop_last() =~= tl.take(l - 1));
                assert(layers_view(blocks@) =~= layers_view(old_blocks).push(block_views(out@)));
                assert(layers_view(blocks@) =~= tl.take(l as int).map_values(
                    |x: LayerView<LevelBlockView>| decode_layer_spec(x),
                ));
            }
        }
        assert(tl.take(l as int) =~= tl);
        let s = SubChunk { blocks, position: data.position, dimension, active_layer: 0, is_empty: false };
        Ok(s)
    }

    /// The intermediate form of the sub chunk: every layer in palette form, at the sub
    /// chunk's position, with data version `TRANSITION_DATA_VERSION`.
    pub fn to_transition(&self, info: &mut ()) -> (r: Result<SubChunkTransition<LevelBlock>, ()>)
        ensures
            r matches Ok(t) && t.spec_position() == self@.position && t.spec_data_version() == TRANSITION_DATA_VERSION
                && transition_layer_views(t) == self@.layers.map_values(|l: Seq<LevelBlockView>| encode_layer_spec(l)),
    {
        let mut t: SubChunkTransition<LevelBlock> = SubChunkTransition::new(self.position, self.blocks.len(), TRANSITION_DATA_VERSION);
        let ghost lv = self@.layers;
        let mut l: usize = 0;
        while l < self.blocks.len()
            invariant
                l <= lv.len(),
                lv == self@.layers,
                lv.len() == self.blocks@.len(),
                t.spec_position() == self@.position,
                t.spec_data_version() == TRANSITION_DATA_VERSION,
                transition_layer_views(t) == lv.take(l as int).map_values(|x: Seq<LevelBlockView>| encode_layer_spec(x)),
            decreases lv.len() - l,
        {
            let layer = self.encode_single_layer(l);
            let ghost old_t = transition_layer_views(t);
            assert(layer.0@.len() == SUB_CHUNK_VOLUME);
            let ghost lval = (layer.0@, block_views(layer.1@));
            t.new_layer(layer);
            l = l + 1;
            proof {
                assert(transition_layer_views(t) =~= old_t.push(lval));
                assert(lv.take(l as int).drop_last() =~= lv.take(l - 1));
                assert(transition_layer_views(t) =~= lv.take(l as int).map_values(
                    |x: Seq<LevelBlockView>| encode_layer_spec(x),
                ));
            }
        }
        assert(lv.take(l as int) =~= lv);
        Ok(t)
    }

    /// Whether the sub chunk is marked as holding only air.
    pub fn is_empty(&self) -> (r: bool)
        ensures
            r == self@.is_empty,
    {
        self.is_empty
    }

    pub fn dimension(&self) -> (r: Dimension)
        ensures
            r == self@.dimension,
    {
        self.dimension
    }

    pub fn position(&self) -> (r: Vec3<i32>)
        ensures
            r == self@.position,
    {
        self.position
    }
}

/// Turning a sub chunk into its intermediate form and back gives the same layers:
/// every index of the palette form points into its palette, and the blocks rebuilt from
/// it are the blocks of the layer.
pub proof fn lemma_sub_chunk_transition_round_trip(v: SubChunkView)
    requires
        v.layers_full(),
    ensures
        forall|l: int| 0 <= l < v.layers.len() ==> indices_in_palette(#[trigger] encode_layer_spec(v.layers[l])),
        v.layers.map_values(|l: Seq<LevelBlockView>| encode_layer_spec(l)).map_values(
            |l: LayerView<LevelBlockView>| decode_layer_spec(l),
        ) == v.layers,
{
    assert forall|l: int| 0 <= l < v.layers.len() implies indices_in_palette(#[trigger] encode_layer_spec(v.layers[l]))
        && decode_layer_spec(encode_layer_spec(v.layers[l])) == v.layers[l] by {
        lemma_layer_round_trip(v.layers[l]);
    }
    assert(v.layers.map_values(|l: Seq<LevelBlockView>| encode_layer_spec(l)).map_values(
        |l: LayerView<LevelBlockView>| decode_layer_spec(l),
    ) =~= v.layers);
}

} // verus!

verus! {

/// `SUB_CHUNK_VOLUME` zeros.
fn zero_indices() -> (r: Vec<u16>)
    ensures
        r@ == Seq::new(SUB_CHUNK_VOLUME as nat, |i: int| 0u16),
{
    let mut r: Vec<u16> = Vec::new();
    let mut i: usize = 0;
    while i < SUB_CHUNK_VOLUME
        invariant
            i <= SUB_CHUNK_VOLUME,
            r@ == Seq::new(i as nat, |j: int| 0u16),
        decreases SUB_CHUNK_VOLUME - i,
    {
        r.push(0u16);
        i = i + 1;
        assert(r@ =~= Seq::new(i as nat, |j: int| 0u16));
    }
    r
}

impl SubChunkTransition<LevelBlock> {
    /// A transition with one layer that is filled with `block`: every index is 0 and the
    /// palette is `[block]`.
    pub fn full(position: Vec3<i32>, version: u8, block: LevelBlock) -> (r: Self)
        ensures
            r.spec_position() == position,
            r.spec_data_version() == version,
            transition_layer_views(r) == seq![(Seq::new(SUB_CHUNK_VOLUME as nat, |i: int| 0u16), seq![block@])],
    {
        let ghost bv = block@;
        let mut ret = Self::new(position, 1, version);
        let palette = vec![block];
        let buffer: BlockLayer<LevelBlock> = (zero_indices(), palette);
        ret.new_layer(buffer);
        assert(block_views(buffer.1@) =~= seq![bv]);
        assert(transition_layer_views(ret) =~= seq![(Seq::new(SUB_CHUNK_VOLUME as nat, |i: int| 0u16), seq![bv])]);
        ret
    }

    /// A transition with one layer of air.
    pub fn air(position: Vec3<i32>, version: u8) -> (r: Self)
        ensures
            r.spec_position() == position,
            r.spec_data_version() == version,
            transition_layer_views(r) == seq![(Seq::new(SUB_CHUNK_VOLUME as nat, |i: int| 0u16), seq![air_view()])],
    {
        Self::full(position, version, LevelBlock::air())
    }
}

} // verus!

verus! {

/// Whether the block at index `i` of a layer lies in the box given by the inclusive
/// ranges `x`, `y` and `z`.
pub open spec fn in_box(i: int, x: (u8, u8), y: (u8, u8), z: (u8, u8)) -> bool {
    let bx = i / 256;
    let bz = (i / 16) % 16;
    let by = i % 16;
    x.0 <= bx <= x.1 && y.0 <= by <= y.1 && z.0 <= bz <= z.1
}

pub open spec fn box_is_empty(x: (u8, u8), y: (u8, u8), z: (u8, u8)) -> bool {
    x.0 > x.1 || y.0 > y.1 || z.0 > z.1
}

impl SubChunk {
    /// Sets `block` at every position of the box given by the inclusive ranges `x`, `y` and
    /// `z` in the active layer, and marks the sub chunk as holding more than air. Fails,
    /// changing nothing, when the box is not empty and the active layer does not exist.
    pub fn fill_region(&mut self, x: (u8, u8), y: (u8, u8), z: (u8, u8), block: &LevelBlock) -> (r: Result<(), SubChunkError>)
        requires
            x.1 <= 15,
            y.1 <= 15,
            z.1 <= 15,
        ensures
            box_is_empty(x, y, z) ==> r is Ok && final(self)@ == old(self)@,
            !box_is_empty(x, y, z) && !old(self)@.has_active_layer() ==> r == Err::<(), SubChunkError>(
                SubChunkError::LayerError(old(self)@.active_layer),
            ) && final(self)@ == old(self)@,
            !box_is_empty(x, y, z) && old(self)@.has_active_layer() ==> r is Ok && final(self)@ == (SubChunkView {
                layers: old(self)@.layers.update(
                    old(self)@.active_layer as int,
                    Seq::new(
                        SUB_CHUNK_VOLUME as nat,
                        |i: int|
                            if in_box(i, x, y, z) {
                                block@
                            } else {
                                old(self)@.layers[old(self)@.active_layer as int][i]
                            },
                    ),
                ),
                is_empty: false,
                ..old(self)@
            }),
            old(self)@.air_when_empty() ==> final(self)@.air_when_empty(),
    {
        proof {
            use_type_invariant(&*self);
        }
        if x.0 > x.1 || y.0 > y.1 || z.0 > z.1 {
            return Ok(());
        }
        let layer = self.active_layer as usize;
        if layer >= self.blocks.len() {
            return Err(SubChunkError::LayerError(self.active_layer));
        }
        let mut blocks: Vec<Vec<LevelBlock>> = Vec::new();
        std::mem::swap(&mut blocks, &mut self.blocks);
        let ghost old_blocks = blocks@;
        let mut row: Vec<LevelBlock> = Vec::new();
        std::mem::swap(&mut row, &mut blocks[layer]);
        let ghost old_row = block_views(row@);
        let mut i: usize = 0;
        while i < SUB_CHUNK_VOLUME
            invariant
                i <= SUB_CHUNK_VOLUME,
                row@.len() == SUB_CHUNK_VOLUME,
                old_row.len() == SUB_CHUNK_VOLUME,
                block_views(row@) == Seq::new(
                    SUB_CHUNK_VOLUME as nat,
                    |m: int|
                        if m < i && in_box(m, x, y, z) {
                            block@
                        } else {
                            old_row[m]
                        },
                ),
            decreases SUB_CHUNK_VOLUME - i,
        {
            let bx = (i / 256) as u8;
            let bz = ((i / 16) % 16) as u8;
            let by = (i % 16) as u8;
            let inside = x.0 <= bx && bx <= x.1 && y.0 <= by && by <= y.1 && z.0 <= bz && bz <= z.1;
            assert(inside == in_box(i as int, x, y, z));
            let ghost before = block_views(row@);
            if inside {
                let b = block.clone();
                row.set(i, b);
                assert(block_views(row@) =~= before.update(i as int, block@));
            }
            i = i + 1;
            assert(block_views(row@) =~= Seq::new(
                SUB_CHUNK_VOLUME as nat,
                |m: int|
                    if m < i && in_box(m, x, y, z) {
                        block@
                    } else {
                        old_row[m]
                    },
            ));
        }
        let ghost new_row = block_views(row@);
        std::mem::swap(&mut row, &mut blocks[layer]);
        self.blocks = blocks;
        self.is_empty = false;
        proof {
            assert(layers_view(self.blocks@) =~= layers_view(old_blocks).update(layer as int, new_row));
            assert(new_row =~= Seq::new(
                SUB_CHUNK_VOLUME as nat,
                |m: int|
                    if in_box(m, x, y, z) {
                        block@
                    } else {
                        old_row[m]
                    },
            ));
        }
        Ok(())
    }

    /// The sub chunk that block operations on a missing sub chunk use: `layer + 1` layers of
    /// air with `layer` active, marked as empty.
    pub fn empty_at_layer(position: Vec3<i32>, dimension: Dimension, layer: u8) -> (r: Self)
        ensures
            r@ == (SubChunkView {
                layers: Seq::new(layer as nat + 1, |i: int| uniform_layer(air_view())),
                position,
                dimension,
                active_layer: layer,
                is_empty: true,
            }),
            r@.air_when_empty(),
    {
        let mut out = SubChunk::empty(position, dimension);
        let mut k: u8 = 0;
        assert(out@.layers =~= Seq::new(1, |i: int| uniform_layer(air_view())));
        while k < layer
            invariant
                k <= layer,
                out@ == (SubChunkView {
                    layers: Seq::new(k as nat + 1, |i: int| uniform_layer(air_view())),
                    position,
                    dimension,
                    active_layer: 0,
                    is_empty: true,
                }),
            decreases layer - k,
        {
            out.add_sub_layer();
            k = k + 1;
            assert(out@.layers =~= Seq::new(k as nat + 1, |i: int| uniform_layer(air_view())));
        }
        out.set_active_layer(layer);
        out
    }
}

impl<Block> SubChunkTransition<Block> {
    /// Whether every index of every layer points into the palette of its layer.
    pub fn indices_in_palette(&self) -> (r: bool)
        ensures
            r == forall|l: int| 0 <= l < self.spec_layers().len() ==> indices_in_palette(#[trigger] self.spec_layers()[l]),
    {
        let mut l: usize = 0;
        while l < self.layers.len()
            invariant
                l <= self.layers@.len(),
                forall|m: int| 0 <= m < l ==> indices_in_palette(#[trigger] self.spec_layers()[m]),
            decreases self.layers@.len() - l,
        {
            let layer = &self.layers[l];
            let n = layer.1.len();
            let mut i: usize = 0;
            while i < layer.0.len()
                invariant
                    l < self.layers@.len(),
                    *layer == self.layers@[l as int],
                    i <= layer.0@.len(),
                    n == layer.1@.len(),
                    forall|j: int| 0 <= j < i ==> (#[trigger] layer.0@[j]) < n,
                decreases layer.0@.len() - i,
            {
                if layer.0[i] as usize >= n {
                    assert(self.spec_layers()[l as int] == layer_value(*layer));
                    assert(layer_value(*layer).0[i as int] >= layer_value(*layer).1.len());
                    return false;
                }
                i = i + 1;
            }
            assert(self.spec_layers()[l as int] == layer_value(*layer));
            l = l + 1;
        }
        true
    }
}

} // verus!

verus! {

fn clone_layer(layer: &Vec<LevelBlock>) -> (r: Vec<LevelBlock>)
    ensures
        block_views(r@) == block_views(layer@),
        r@.len() == layer@.len(),
{
    let mut r: Vec<LevelBlock> = Vec::with_capacity(layer.len());
    let mut i: usize = 0;
    while i < layer.len()
        invariant
            i <= layer@.len(),
            r@.len() == i,
            block_views(r@) == block_views(layer@).take(i as int),
        decreases layer@.len() - i,
    {
        let ghost before = block_views(r@);
        r.push(layer[i].clone());
        i = i + 1;
        assert(block_views(r@) =~= block_views(layer@).take(i as int));
    }
    assert(block_views(layer@).take(i as int) =~= block_views(layer@));
    r
}

impl Clone for SubChunk {
    fn clone(&self) -> (r: Self)
        ensures
            r@ == self@,
    {
        proof {
            use_type_invariant(self);
        }
        let mut blocks: Vec<Vec<LevelBlock>> = Vec::with_capacity(self.blocks.len());
        let mut l: usize = 0;
        while l < self.blocks.len()
            invariant
                l <= self.blocks@.len(),
                blocks@.len() == l,
                forall|m: int| 0 <= m < self.blocks@.len() ==> (#[trigger] self.blocks@[m])@.len() == SUB_CHUNK_VOLUME,
                forall|m: int| 0 <= m < l ==> (#[trigger] blocks@[m])@.len() == SUB_CHUNK_VOLUME,
                layers_view(blocks@) == layers_view(self.blocks@).take(l as int),
            decreases self.blocks@.len() - l,
        {
            let layer = clone_layer(&self.blocks[l]);
            let ghost before = layers_view(blocks@);
            blocks.push(layer);
            l = l + 1;
            assert(layers_view(blocks@) =~= layers_view(self.blocks@).take(l as int));
        }
        assert(layers_view(self.blocks@).take(l as int) =~= layers_view(self.blocks@));
        SubChunk {
            blocks,
            position: self.position,
            dimension: self.dimension,
            active_layer: self.active_layer,
            is_empty: self.is_empty,
        }
    }
}

} // verus!

verus! {

fn same_layers(a: &Vec<Vec<LevelBlock>>, b: &Vec<Vec<LevelBlock>>) -> (r: bool)
    ensures
        r == (layers_view(a@) == layers_view(b@)),
{
    if a.len() != b.len() {
        assert(layers_view(a@).len() != layers_view(b@).len());
        return false;
    }
    let mut l: usize = 0;
    while l < a.len()
        invariant
            a@.len() == b@.len(),
            l <= a@.len(),
            forall|m: int| 0 <= m < l ==> #[trigger] layers_view(a@)[m] == layers_view(b@)[m],
        decreases a@.len() - l,
    {
        let x = &a[l];
        let y = &b[l];
        if x.len() != y.len() {
            assert(layers_view(a@)[l as int].len() != layers_view(b@)[l as int].len());
            return false;
        }
        let mut i: usize = 0;
        while i < x.len()
            invariant
                a@.len() == b@.len(),
                l < a@.len(),
                *x == a@[l as int],
                *y == b@[l as int],
                x@.len() == y@.len(),
                i <= x@.len(),
                forall|j: int| 0 <= j < i ==> (#[trigger] x@[j])@ == y@[j]@,
            decreases x@.len() - i,
        {
            if !(x[i] == y[i]) {
                assert(block_views(x@)[i as int] != block_views(y@)[i as int]);
                assert(layers_view(a@)[l as int] == block_views(x@));
                assert(layers_view(b@)[l as int] == block_views(y@));
                return false;
            }
            i = i + 1;
        }
        assert(block_views(x@) =~= block_views(y@));
        l = l + 1;
    }
    assert(layers_view(a@) =~= layers_view(b@));
    true
}

impl PartialEq for SubChunk {
    fn eq(&self, other: &Self) -> (r: bool) {
        same_layers(&self.blocks, &other.blocks) && self.position == other.position && self.dimension == other.dimension
            && self.active_layer == other.active_layer && self.is_empty == other.is_empty
    }
}

impl vstd::std_specs::cmp::PartialEqSpecImpl for SubChunk {
    open spec fn obeys_eq_spec() -> bool {
        true
    }

    open spec fn eq_spec(&self, other: &Self) -> bool {
        self@ == other@
    }
}

} // verus!
