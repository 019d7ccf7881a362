use crate::level::byte_order::{le_bytes, le_u32_at, read_u32_le, write_u32_le};
use crate::level::nbt_frame::{nbt_le_rest_len, nbt_net_rest_len, read_le_value, read_net_value};
use crate::level::nbt_net_scan::{net_varints_fit, net_varints_fit_in};
use crate::level::sub_chunk::{layer_value, BlockLayer, LayerView, SubChunkTransition, SUB_CHUNK_VOLUME};
use crate::utility::vector::{Vec2, Vec3};
use vstd::prelude::*;
use vstd::slice::{slice_subrange, slice_to_vec};

verus! {

#[verifier::external_type_specification]
#[verifier::external_body]
pub struct ExIoError(std::io::Error);

/// One palette entry in its encoded form: the bytes of one NBT value, and whether they are
/// in the network variant of NBT (otherwise in the little endian variant of disk data).
pub struct NbtBlock {
    pub network: bool,
    pub bytes: Vec<u8>,
}

impl View for NbtBlock {
    type V = (bool, Seq<u8>);

    open spec fn view(&self) -> (bool, Seq<u8>) {
        (self.network, self.bytes@)
    }
}

/// A layer with encoded palette entries, as values.
pub type NbtLayerView = LayerView<(bool, Seq<u8>)>;

/// A sub chunk transition with encoded palette entries, as a value.
pub struct TransitionValue {
    pub position: Vec3<i32>,
    pub data_version: u8,
    pub layers: Seq<NbtLayerView>,
}

pub open spec fn nbt_layer_value(l: LayerView<NbtBlock>) -> NbtLayerView {
    (l.0, l.1.map_values(|b: NbtBlock| b@))
}

pub open spec fn transition_value(t: SubChunkTransition<NbtBlock>) -> TransitionValue {
    TransitionValue {
        position: t.spec_position(),
        data_version: t.spec_data_version(),
        layers: t.spec_layers().map_values(|l: LayerView<NbtBlock>| nbt_layer_value(l)),
    }
}

/// Why decoding a sub chunk fails.
pub enum DecodeFailure {
    /// The bytes end before the value being read.
    Binary,
    /// The version byte is neither 8 nor 9.
    UnknownVersion(u8),
    /// A palette type holds a number of bits per block outside `1..=31`.
    Palette,
    /// A palette entry is not a readable NBT value.
    Nbt,
    /// A palette entry in the network variant holds, on the path along which it is read, a
    /// varint longer than its type allows.
    LongVarint,
}

/// Errors of decoding a sub chunk.
#[derive(Debug)]
pub enum SubChunkDecoderError {
    SubChunkVersion,
    UnknownVersion(u8),
    LayerError,
    IndexError,
    PaletteError,
    WordError,
    PaletteCountError,
    /// A palette entry in the network variant holds a varint longer than its type allows.
    SliceError,
    BinaryError(std::io::Error),
    NBTError(nbtx::Error),
}

/// The error that reports a failure.
pub open spec fn reports(e: SubChunkDecoderError, f: DecodeFailure) -> bool {
    match f {
        DecodeFailure::Binary => e is BinaryError,
        DecodeFailure::UnknownVersion(v) => e matches SubChunkDecoderError::UnknownVersion(w) && w == v,
        DecodeFailure::Palette => e is PaletteError,
        DecodeFailure::Nbt => e is NBTError,
        DecodeFailure::LongVarint => e is SliceError,
    }
}

/// `std::io::Error::new` with the kind `UnexpectedEof`: the error that reading past the
/// end of the bytes gives. Nothing is stated of the value.
#[verifier::external_body]
fn end_of_input() -> std::io::Error {
    std::io::Error::new(std::io::ErrorKind::UnexpectedEof, "failed to fill whole buffer")
}

/// A number of bits per block that the decoder accepts.
pub open spec fn valid_bits(bits: u8) -> bool {
    1 <= bits <= 31
}

/// How many block indices one word of 32 bits holds.
pub open spec fn blocks_per_word(bits: u8) -> nat {
    32nat / (bits as nat)
}

/// How many words the block indices of one layer take.
pub open spec fn word_count(bits: u8) -> nat {
    ((SUB_CHUNK_VOLUME + blocks_per_word(bits) - 1) / (blocks_per_word(bits) as int)) as nat
}

/// The mask of the low `bits` bits.
pub open spec fn index_mask(bits: u8) -> u32 {
    (((1u32 << (bits as u32)) as int) - 1) as u32
}

/// The `j`-th index packed in word `w`.
pub open spec fn slot(w: u32, j: nat, bits: u8) -> u16 {
    ((w >> ((j * (bits as nat)) as u32)) & index_mask(bits)) as u16
}

/// The `i`-th block index of a layer whose words start at `words_at`.
pub open spec fn read_index(b: Seq<u8>, words_at: int, bits: u8, i: int) -> u16 {
    slot(le_u32_at(b, words_at + 4 * (i / blocks_per_word(bits) as int)), (i % blocks_per_word(bits) as int) as nat, bits)
}

/// The block indices of a layer whose words start at `words_at`.
pub open spec fn read_indices(b: Seq<u8>, words_at: int, bits: u8) -> Seq<u16> {
    Seq::new(SUB_CHUNK_VOLUME as nat, |i: int| read_index(b, words_at, bits, i))
}

/// The bytes left after one NBT value at the start of `s`.
pub open spec fn nbt_rest_len(network: bool, s: Seq<u8>) -> Option<nat> {
    if network {
        nbt_net_rest_len(s)
    } else {
        nbt_le_rest_len(s)
    }
}

/// Reads `n` NBT palette entries that start at `at`: the entries and the position after them.
pub open spec fn spec_read_palette(b: Seq<u8>, at: int, n: nat, network: bool) -> Result<(Seq<(bool, Seq<u8>)>, int), DecodeFailure>
    decreases n,
{
    if n == 0 {
        Ok((Seq::empty(), at))
    } else {
        match spec_read_palette(b, at, (n - 1) as nat, network) {
            Ok((es, p)) => if network && !net_varints_fit(b.subrange(p, b.len() as int)) {
                Err(DecodeFailure::LongVarint)
            } else {
                match nbt_rest_len(network, b.subrange(p, b.len() as int)) {
                    Some(r) => if 0 <= p && r <= b.len() - p {
                        Ok((es.push((network, b.subrange(p, b.len() - r))), b.len() - r))
                    } else {
                        Err(DecodeFailure::Nbt)
                    },
                    None => Err(DecodeFailure::Nbt),
                }
            },
            Err(f) => Err(f),
        }
    }
}

/// Reads one layer that starts at `at`: its palette type, its words of block indices,
/// its palette size and its palette entries; gives the layer and the position after it.
pub open spec fn spec_read_layer(b: Seq<u8>, at: int) -> Result<(NbtLayerView, int), DecodeFailure> {
    if at < 0 || at >= b.len() {
        Err(DecodeFailure::Binary)
    } else {
        let palette_type = b[at];
        let bits = palette_type >> 1u8;
        let network = palette_type & 1u8 == 1u8;
        if !valid_bits(bits) {
            Err(DecodeFailure::Palette)
        } else if at + 1 + 4 * word_count(bits) + 4 > b.len() {
            Err(DecodeFailure::Binary)
        } else {
            let count_at = at + 1 + 4 * word_count(bits);
            match spec_read_palette(b, count_at + 4, le_u32_at(b, count_at) as nat, network) {
                Ok((palette, p)) => Ok(((read_indices(b, at + 1, bits), palette), p)),
                Err(f) => Err(f),
            }
        }
    }
}

/// Reads `n` layers that start at `at`.
pub open spec fn spec_read_layers(b: Seq<u8>, at: int, n: nat) -> Result<(Seq<NbtLayerView>, int), DecodeFailure>
    decreases n,
{
    if n == 0 {
        Ok((Seq::empty(), at))
    } else {
        match spec_read_layers(b, at, (n - 1) as nat) {
            Ok((ls, p)) => match spec_read_layer(b, p) {
                Ok((l, p2)) => Ok((ls.push(l), p2)),
                Err(f) => Err(f),
            },
            Err(f) => Err(f),
        }
    }
}

/// Decodes the bytes of a sub chunk whose column is `xz`: a version byte (8 or 9), the
/// number of layers, the `y` of the sub chunk, then the layers. Gives the sub chunk and the
/// number of bytes that it takes.
pub open spec fn spec_decode(b: Seq<u8>, xz: Vec2<i32>) -> Result<(TransitionValue, int), DecodeFailure> {
    if b.len() < 1 {
        Err(DecodeFailure::Binary)
    } else if b[0] != 8 && b[0] != 9 {
        Err(DecodeFailure::UnknownVersion(b[0]))
    } else if b.len() < 3 {
        Err(DecodeFailure::Binary)
    } else {
        match spec_read_layers(b, 3, b[1] as nat) {
            Ok((ls, end)) => Ok(
                (
                    TransitionValue {
                        position: Vec3 { x: xz.x, y: (b[2] as i8) as i32, z: xz.y },
                        data_version: b[0],
                        layers: ls,
                    },
                    end,
                ),
            ),
            Err(f) => Err(f),
        }
    }
}

} // verus!

verus! {

pub(crate) proof fn lemma_word_layout(bits: u8)
    requires
        1 <= bits <= 32,
    ensures
        1 <= blocks_per_word(bits) <= 32,
        blocks_per_word(bits) * (bits as nat) <= 32,
        word_count(bits) * blocks_per_word(bits) >= SUB_CHUNK_VOLUME,
        (word_count(bits) - 1) * blocks_per_word(bits) < SUB_CHUNK_VOLUME,
        1 <= word_count(bits) <= SUB_CHUNK_VOLUME,
{
    let d = bits as int;
    let q = blocks_per_word(bits) as int;
    vstd::arithmetic::div_mod::lemma_fundamental_div_mod(32, d);
    assert(32 == d * q + 32int % d);
    assert(0 <= 32int % d < d);
    assert(q >= 1) by (nonlinear_arith)
        requires
            32 == d * q + 32int % d,
            0 <= 32int % d < d,
            d <= 32,
            q >= 0,
    ;
    assert(q <= 32) by (nonlinear_arith)
        requires
            32 == d * q + 32int % d,
            0 <= 32int % d,
            d >= 1,
    ;
    assert(q * d <= 32) by (nonlinear_arith)
        requires
            32 == d * q + 32int % d,
            0 <= 32int % d,
    ;
    let n = 4096 + q - 1;
    let w = word_count(bits) as int;
    vstd::arithmetic::div_mod::lemma_fundamental_div_mod(n, q);
    assert(w == n / q);
    assert(w * q >= 4096) by (nonlinear_arith)
        requires
            n == q * (n / q) + n % q,
            0 <= n % q < q,
            w == n / q,
            n == 4096 + q - 1,
    ;
    assert((w - 1) * q < 4096) by (nonlinear_arith)
        requires
            n == q * (n / q) + n % q,
            0 <= n % q < q,
            w == n / q,
            n == 4096 + q - 1,
    ;
    assert(1 <= w <= 4096) by (nonlinear_arith)
        requires
            n == q * (n / q) + n % q,
            0 <= n % q < q,
            w == n / q,
            n == 4096 + q - 1,
            q >= 1,
    ;
}

proof fn lemma_palette_failure_persists(b: Seq<u8>, at: int, m: nat, n: nat, network: bool)
    requires
        m <= n,
        spec_read_palette(b, at, m, network) is Err,
    ensures
        spec_read_palette(b, at, n, network) == spec_read_palette(b, at, m, network),
    decreases n,
{
    if n > m {
        lemma_palette_failure_persists(b, at, m, (n - 1) as nat, network);
    }
}

proof fn lemma_layers_failure_persists(b: Seq<u8>, at: int, m: nat, n: nat)
    requires
        m <= n,
        spec_read_layers(b, at, m) is Err,
    ensures
        spec_read_layers(b, at, n) == spec_read_layers(b, at, m),
    decreases n,
{
    if n > m {
        lemma_layers_failure_persists(b, at, m, (n - 1) as nat);
    }
}

/// Reads the `SUB_CHUNK_VOLUME` block indices of a layer from the words at `words_at`.
fn read_block_indices(bytes: &[u8], words_at: usize, bits: u8) -> (r: Vec<u16>)
    requires
        valid_bits(bits),
        words_at + 4 * word_count(bits) <= bytes@.len(),
    ensures
        r@ == read_indices(bytes@, words_at as int, bits),
{
    proof {
        lemma_word_layout(bits);
    }
    let ghost b = bytes@;
    let bpw: usize = (32u32 / (bits as u32)) as usize;
    assert(bpw == blocks_per_word(bits));
    let wc: usize = (SUB_CHUNK_VOLUME + bpw - 1) / bpw;
    assert(wc == word_count(bits));
    assert(1u32 <= (1u32 << (bits as u32))) by (bit_vector)
        requires
            bits <= 31,
    ;
    let mask: u32 = (1u32 << (bits as u32)) - 1;
    assert(mask == index_mask(bits));
    let len = bytes.len();
    let mut indices: Vec<u16> = Vec::with_capacity(SUB_CHUNK_VOLUME);
    let mut i: usize = 0;
    let mut k: usize = 0;
    let mut o: usize = words_at;
    while k < wc
        invariant
            b == bytes@,
            len == b.len(),
            valid_bits(bits),
            bpw == blocks_per_word(bits),
            wc == word_count(bits),
            mask == index_mask(bits),
            1 <= bpw <= 32,
            bpw * (bits as nat) <= 32,
            wc * bpw >= SUB_CHUNK_VOLUME,
            words_at + 4 * wc <= b.len(),
            k <= wc,
            o == words_at + 4 * k,
            i <= SUB_CHUNK_VOLUME,
            i == k * bpw || i == SUB_CHUNK_VOLUME,
            indices@ == Seq::new(i as nat, |m: int| read_index(b, words_at as int, bits, m)),
        decreases wc - k,
    {
        let sub = slice_subrange(bytes, o, o + 4);
        let word = read_u32_le(sub);
        assert(word == le_u32_at(b, o as int));
        let ghost i0 = i;
        let mut j: usize = 0;
        let mut shift: u32 = 0;
        while j < bpw && i < SUB_CHUNK_VOLUME
            invariant
                b == bytes@,
                valid_bits(bits),
                bpw == blocks_per_word(bits),
                mask == index_mask(bits),
                1 <= bpw <= 32,
                bpw * (bits as nat) <= 32,
                word == le_u32_at(b, words_at + 4 * k),
                j <= bpw,
                shift == j * (bits as nat),
                i <= SUB_CHUNK_VOLUME,
                i == i0 + j,
                i0 == k * bpw || (i0 == SUB_CHUNK_VOLUME && j == 0),
                indices@ == Seq::new(i as nat, |m: int| read_index(b, words_at as int, bits, m)),
            decreases bpw - j,
        {
            assert(j * (bits as nat) <= 31) by (nonlinear_arith)
                requires
                    j < bpw,
                    bpw * (bits as nat) <= 32,
                    bits >= 1,
            ;
            let index = #[verifier::truncate] (((word >> shift) & mask) as u16);
            proof {
                assert(i0 == k * bpw);
                vstd::arithmetic::div_mod::lemma_fundamental_div_mod_converse(i as int, bpw as int, k as int, j as int);
                assert(index == read_index(b, words_at as int, bits, i as int));
            }
            let ghost old_indices = indices@;
            indices.push(index);
            i = i + 1;
            j = j + 1;
            shift = shift + bits as u32;
            proof {
                assert(shift == j * (bits as nat)) by (nonlinear_arith)
                    requires
                        shift == (j - 1) * (bits as nat) + bits,
                ;
                assert(indices@ =~= Seq::new(i as nat, |m: int| read_index(b, words_at as int, bits, m)));
            }
        }
        proof {
            if i0 == k * bpw && j == bpw {
                assert(i == (k + 1) * bpw) by (nonlinear_arith)
                    requires
                        i == k * bpw + bpw,
                ;
            }
        }
        k = k + 1;
        o = o + 4;
    }
    proof {
        if i == k * bpw {
            assert(i >= SUB_CHUNK_VOLUME);
        }
        assert(i == SUB_CHUNK_VOLUME);
    }
    indices
}

} // verus!

verus! {

pub open spec fn nbt_blocks_value(v: Seq<NbtBlock>) -> Seq<(bool, Seq<u8>)> {
    v.map_values(|b: NbtBlock| b@)
}

/// Reads `count` palette entries that start at `at`.
fn read_palette(bytes: &[u8], at: usize, count: u32, network: bool) -> (r: Result<(Vec<NbtBlock>, usize), SubChunkDecoderError>)
    requires
        at <= bytes@.len(),
    ensures
        match spec_read_palette(bytes@, at as int, count as nat, network) {
            Ok((es, p)) => r matches Ok((v, q)) && nbt_blocks_value(v@) == es && q == p && q <= bytes@.len(),
            Err(f) => r matches Err(e) && reports(e, f),
        },
{
    let ghost b = bytes@;
    let len = bytes.len();
    let mut blocks: Vec<NbtBlock> = Vec::new();
    let mut pos: usize = at;
    let mut e: u32 = 0;
    assert(nbt_blocks_value(blocks@) =~= Seq::<(bool, Seq<u8>)>::empty());
    while e < count
        invariant
            b == bytes@,
            len == b.len(),
            e <= count,
            pos <= len,
            spec_read_palette(b, at as int, e as nat, network) == Ok::<_, DecodeFailure>((nbt_blocks_value(blocks@), pos as int)),
        decreases count - e,
    {
        let rest = slice_subrange(bytes, pos, len);
        assert(rest@ == b.subrange(pos as int, b.len() as int));
        if network && !net_varints_fit_in(rest) {
            proof {
                lemma_palette_failure_persists(b, at as int, (e + 1) as nat, count as nat, network);
            }
            return Err(SubChunkDecoderError::SliceError);
        }
        let read = if network {
            read_net_value(rest)
        } else {
            read_le_value(rest)
        };
        match read {
            Ok(left) => {
                let end = len - left;
                let entry = slice_to_vec(slice_subrange(bytes, pos, end));
                let ghost old_blocks = nbt_blocks_value(blocks@);
                let blk = NbtBlock { network, bytes: entry };
                blocks.push(blk);
                assert(nbt_blocks_value(blocks@) =~= old_blocks.push((network, b.subrange(pos as int, b.len() - left))));
                pos = end;
                e = e + 1;
            },
            Err(err) => {
                proof {
                    lemma_palette_failure_persists(b, at as int, (e + 1) as nat, count as nat, network);
                }
                return Err(SubChunkDecoderError::NBTError(err));
            },
        }
    }
    Ok((blocks, pos))
}

/// Reads one layer that starts at `at`.
fn read_layer(bytes: &[u8], at: usize) -> (r: Result<(BlockLayer<NbtBlock>, usize), SubChunkDecoderError>)
    ensures
        match spec_read_layer(bytes@, at as int) {
            Ok((l, p)) => r matches Ok((x, q)) && nbt_layer_value(layer_value(x)) == l && q == p
                && x.0@.len() == SUB_CHUNK_VOLUME && q <= bytes@.len(),
            Err(f) => r matches Err(e) && reports(e, f),
        },
{
    let len = bytes.len();
    if at >= len {
        return Err(SubChunkDecoderError::BinaryError(end_of_input()));
    }
    let palette_type = bytes[at];
    let bits = palette_type >> 1u8;
    let network = palette_type & 1u8 == 1u8;
    if bits == 0 || bits > 31 {
        return Err(SubChunkDecoderError::PaletteError);
    }
    proof {
        lemma_word_layout(bits);
    }
    let bpw: usize = (32u32 / (bits as u32)) as usize;
    let wc: usize = (SUB_CHUNK_VOLUME + bpw - 1) / bpw;
    assert(wc == word_count(bits));
    if len - (at + 1) < 4 * wc + 4 {
        return Err(SubChunkDecoderError::BinaryError(end_of_input()));
    }
    let indices = read_block_indices(bytes, at + 1, bits);
    let count_at = at + 1 + 4 * wc;
    let count = read_u32_le(slice_subrange(bytes, count_at, count_at + 4));
    assert(count == le_u32_at(bytes@, count_at as int));
    match read_palette(bytes, count_at + 4, count, network) {
        Ok((palette, end)) => {
            let ghost iv = indices@;
            let layer: BlockLayer<NbtBlock> = (indices, palette);
            assert(nbt_layer_value(layer_value(layer)) == (iv, nbt_blocks_value(palette@)));
            Ok((layer, end))
        },
        Err(e) => Err(e),
    }
}

/// The codec of the sub chunk format of Bedrock level data.
pub struct SubChunkSerDe;

impl Default for SubChunkSerDe {
    fn default() -> (r: Self) {
        SubChunkSerDe
    }
}

/// The bytes from `position` on; none where `position` lies past the end.
pub open spec fn rest_from(b: Seq<u8>, position: usize) -> Seq<u8> {
    if position <= b.len() {
        b.subrange(position as int, b.len() as int)
    } else {
        Seq::empty()
    }
}

/// Where the read position stands after a failed decode that started at `start`: one byte
/// on after an unknown version byte, else at the end of the bytes (a short read leaves the
/// reader at the end, and nothing after a failure is read on).
pub open spec fn position_after_failure(f: DecodeFailure, len: nat, start: usize) -> int {
    match f {
        DecodeFailure::UnknownVersion(_) => start + 1,
        _ => len as int,
    }
}

impl SubChunkSerDe {
    /// Decodes the sub chunk whose column is `xz` from the bytes that start at `position`,
    /// into its intermediate form; the palette entries stay encoded as the NBT bytes that
    /// the format holds. The position moves on past the bytes read: past the whole sub
    /// chunk where it decodes, else as `position_after_failure` says.
    pub fn decode_bytes_as_sub_chunk(&mut self, bytes: &[u8], position: &mut usize, xz: Vec2<i32>) -> (r: Result<SubChunkTransition<NbtBlock>, SubChunkDecoderError>)
        ensures
            match spec_decode(rest_from(bytes@, *old(position)), xz) {
                Ok((t, n)) => r matches Ok(x) && transition_value(x) == t && *final(position) == *old(position) + n,
                Err(f) => r matches Err(e) && reports(e, f) && *final(position) == position_after_failure(f, bytes@.len(), *old(position)),
            },
    {
        let len = bytes.len();
        let start = *position;
        let rest = if start <= len {
            slice_subrange(bytes, start, len)
        } else {
            slice_subrange(bytes, len, len)
        };
        assert(rest@ == rest_from(bytes@, start));
        match decode_from(rest, xz) {
            Ok((t, n)) => {
                *position = start + n;
                Ok(t)
            },
            Err(e) => {
                match e {
                    SubChunkDecoderError::UnknownVersion(_) => {
                        *position = start + 1;
                    },
                    _ => {
                        *position = len;
                    },
                }
                Err(e)
            },
        }
    }
}

/// Decodes a sub chunk from the start of `bytes`; gives it and the number of bytes read.
fn decode_from(bytes: &[u8], xz: Vec2<i32>) -> (r: Result<(SubChunkTransition<NbtBlock>, usize), SubChunkDecoderError>)
    ensures
        match spec_decode(bytes@, xz) {
            Ok((t, n)) => r matches Ok((x, m)) && transition_value(x) == t && m == n && m <= bytes@.len(),
            Err(f) => r matches Err(e) && reports(e, f),
        },
{
    let ghost b = bytes@;
    let len = bytes.len();
    if len < 1 {
        return Err(SubChunkDecoderError::BinaryError(end_of_input()));
    }
    let version = bytes[0];
    if version != 8 && version != 9 {
        return Err(SubChunkDecoderError::UnknownVersion(version));
    }
    if len < 3 {
        return Err(SubChunkDecoderError::BinaryError(end_of_input()));
    }
    let storage_layer_count = bytes[1];
    let y_index = #[verifier::truncate] (bytes[2] as i8);
    let mut transitiondata: SubChunkTransition<NbtBlock> = SubChunkTransition::new(
        Vec3::new(xz.x, y_index as i32, xz.y),
        storage_layer_count as usize,
        version,
    );
    let mut pos: usize = 3;
    let mut l: u8 = 0;
    assert(transition_value(transitiondata).layers =~= Seq::<NbtLayerView>::empty());
    while l < storage_layer_count
        invariant
            b == bytes@,
            b.len() >= 3,
            b[0] == 8 || b[0] == 9,
            l <= storage_layer_count,
            storage_layer_count == b[1],
            transitiondata.spec_position() == (Vec3 { x: xz.x, y: (b[2] as i8) as i32, z: xz.y }),
            transitiondata.spec_data_version() == b[0],
            spec_read_layers(b, 3, l as nat) == Ok::<_, DecodeFailure>((transition_value(transitiondata).layers, pos as int)),
            pos <= b.len(),
        decreases storage_layer_count - l,
    {
        match read_layer(bytes, pos) {
            Ok((layer, end)) => {
                let ghost lv = nbt_layer_value(layer_value(layer));
                let ghost old_layers = transition_value(transitiondata).layers;
                transitiondata.new_layer(layer);
                assert(transition_value(transitiondata).layers =~= old_layers.push(lv));
                pos = end;
                l = l + 1;
            },
            Err(e) => {
                proof {
                    assert(spec_read_layer(b, pos as int) is Err);
                    assert(spec_read_layers(b, 3, (l + 1) as nat) is Err);
                    lemma_layers_failure_persists(b, 3, (l + 1) as nat, storage_layer_count as nat);
                }
                return Err(e);
            },
        }
    }
    Ok((transitiondata, pos))
}

} // verus!

verus! {

/// The number of bits of `v` (0 for 0).
pub open spec fn bit_length(v: nat) -> nat
    decreases v,
{
    if v == 0 {
        0
    } else {
        1 + bit_length(v / 2)
    }
}

/// The bits per block that the encoder uses for a palette of `len` entries: the number of
/// bits of `len`, at least 1.
pub open spec fn spec_bits_needed(len: u32) -> u8 {
    if len == 0 {
        1
    } else {
        bit_length(len as nat) as u8
    }
}

pub proof fn lemma_bit_length(v: nat)
    ensures
        v < vstd::arithmetic::power2::pow2(bit_length(v)),
        v > 0 ==> vstd::arithmetic::power2::pow2((bit_length(v) - 1) as nat) <= v,
        forall|k: nat| v < vstd::arithmetic::power2::pow2(k) ==> bit_length(v) <= k,
    decreases v,
{
    vstd::arithmetic::power2::lemma2_to64();
    if v > 0 {
        let h = v / 2;
        let l = bit_length(v);
        lemma_bit_length(h);
        vstd::arithmetic::power2::lemma_pow2_unfold(l);
        if h > 0 {
            vstd::arithmetic::power2::lemma_pow2_unfold((l - 1) as nat);
        }
        assert forall|k: nat| v < vstd::arithmetic::power2::pow2(k) implies bit_length(v) <= k by {
            if k > 0 {
                vstd::arithmetic::power2::lemma_pow2_unfold(k);
                assert(h < vstd::arithmetic::power2::pow2((k - 1) as nat));
            }
        }
    }
}

/// The number of bits that the palette indices of a palette of `val` entries take: the
/// number of bits of `val`, at least 1.
fn bits_needed_to_store(val: u32) -> (r: u8)
    ensures
        r == spec_bits_needed(val),
        1 <= r <= 32,
{
    proof {
        lemma_bit_length(val as nat);
        vstd::arithmetic::power2::lemma2_to64();
    }
    if val == 0 {
        1
    } else {
        let mut n: u8 = 0;
        let mut v: u32 = val;
        while v > 0
            invariant
                bit_length(val as nat) == n + bit_length(v as nat),
                bit_length(val as nat) <= 32,
            decreases v,
        {
            v = v / 2;
            n = n + 1;
        }
        n
    }
}

/// The palette type byte of a layer: the bits per block, shifted left by one, or by two
/// when encoding for the network.
pub open spec fn palette_type_byte(bits: u8, network: bool) -> u8 {
    bits << (if network {
        2u8
    } else {
        1u8
    })
}

/// The `k`-th group of indices that one word holds.
pub open spec fn word_group(indices: Seq<u16>, bits: u8, k: nat) -> Seq<u16> {
    let bpw = blocks_per_word(bits);
    let end: int = if (k + 1) * bpw < indices.len() {
        ((k + 1) * bpw) as int
    } else {
        indices.len() as int
    };
    indices.subrange((k * bpw) as int, end)
}

/// The sum that packs indices into a word: index `m` shifted left by `m * bits` (within 32
/// bits), added up.
pub open spec fn pack_sum(s: Seq<u16>, bits: u8) -> int
    decreases s.len(),
{
    if s.len() == 0 {
        0
    } else {
        pack_sum(s.drop_last(), bits) + ((s.last() as u32) << (((s.len() - 1) * (bits as nat)) as u32)) as int
    }
}

/// The bytes of the first `n` words of a layer's indices.
pub open spec fn words_bytes(indices: Seq<u16>, bits: u8, n: nat) -> Seq<u8>
    decreases n,
{
    if n == 0 {
        Seq::empty()
    } else {
        words_bytes(indices, bits, (n - 1) as nat) + le_bytes(pack_sum(word_group(indices, bits, (n - 1) as nat), bits) as u32)
    }
}

/// The palette entries, one after the other.
pub open spec fn concat_entries(es: Seq<(bool, Seq<u8>)>) -> Seq<u8>
    decreases es.len(),
{
    if es.len() == 0 {
        Seq::empty()
    } else {
        concat_entries(es.drop_last()) + es.last().1
    }
}

/// The bytes of one layer: palette type, words of indices, palette size, palette entries.
pub open spec fn spec_encode_layer(l: NbtLayerView, network: bool) -> Seq<u8> {
    let bits = spec_bits_needed(l.1.len() as u32);
    seq![palette_type_byte(bits, network)] + words_bytes(l.0, bits, word_count(bits)) + le_bytes(l.1.len() as u32)
        + concat_entries(l.1)
}

pub open spec fn spec_encode_layers(ls: Seq<NbtLayerView>, network: bool) -> Seq<u8>
    decreases ls.len(),
{
    if ls.len() == 0 {
        Seq::empty()
    } else {
        spec_encode_layers(ls.drop_last(), network) + spec_encode_layer(ls.last(), network)
    }
}

/// The bytes of a sub chunk: version, number of layers, `y`, then the layers.
pub open spec fn spec_encode(t: TransitionValue, network: bool) -> Seq<u8> {
    seq![t.data_version, t.layers.len() as u8, (t.position.y as i8) as u8] + spec_encode_layers(t.layers, network)
}

/// Every palette entry of the layer is in the NBT variant that `network` selects.
pub open spec fn entries_in_variant(l: NbtLayerView, network: bool) -> bool {
    forall|e: int| 0 <= e < l.1.len() ==> (#[trigger] l.1[e]).0 == network
}

/// Packing the indices of every word of the layer stays within 32 bits.
pub open spec fn words_fit(l: NbtLayerView) -> bool {
    let bits = spec_bits_needed(l.1.len() as u32);
    forall|k: nat| k < word_count(bits) ==> #[trigger] pack_sum(word_group(l.0, bits, k), bits) <= u32::MAX
}

proof fn lemma_pack_sum_monotone(s: Seq<u16>, bits: u8, m: int)
    requires
        0 <= m <= s.len(),
    ensures
        0 <= pack_sum(s.take(m), bits) <= pack_sum(s, bits),
    decreases s.len(),
{
    if m < s.len() {
        assert(s.drop_last().take(m) =~= s.take(m));
        lemma_pack_sum_monotone(s.drop_last(), bits, m);
    } else {
        assert(s.take(m) =~= s);
    }
    lemma_pack_sum_nonneg(s.take(m), bits);
}

proof fn lemma_pack_sum_nonneg(s: Seq<u16>, bits: u8)
    ensures
        0 <= pack_sum(s, bits),
    decreases s.len(),
{
    if s.len() > 0 {
        lemma_pack_sum_nonneg(s.drop_last(), bits);
    }
}

proof fn lemma_concat_push(es: Seq<(bool, Seq<u8>)>, e: (bool, Seq<u8>))
    ensures
        concat_entries(es.push(e)) == concat_entries(es) + e.1,
{
    assert(es.push(e).drop_last() =~= es);
}

/// Appends the bytes of `src` to `out`.
fn append_bytes(out: &mut Vec<u8>, src: &Vec<u8>)
    ensures
        final(out)@ == old(out)@ + src@,
{
    let mut i: usize = 0;
    while i < src.len()
        invariant
            i <= src@.len(),
            out@ == old(out)@ + src@.take(i as int),
        decreases src@.len() - i,
    {
        out.push(src[i]);
        i = i + 1;
        assert(out@ =~= old(out)@ + src@.take(i as int));
    }
    assert(src@.take(i as int) =~= src@);
}

/// Appends the little endian bytes of `n` to `out`.
fn append_u32_le(out: &mut Vec<u8>, n: u32)
    ensures
        final(out)@ == old(out)@ + le_bytes(n),
{
    let b = write_u32_le(n);
    out.push(b[0]);
    out.push(b[1]);
    out.push(b[2]);
    out.push(b[3]);
    assert(out@ =~= old(out)@ + le_bytes(n));
}

} // verus!

verus! {

/// Appends the words that hold the block indices of a layer.
fn write_words(out: &mut Vec<u8>, indices: &Vec<u16>, bits: u8)
    requires
        1 <= bits <= 32,
        indices@.len() == SUB_CHUNK_VOLUME,
        forall|k: nat| k < word_count(bits) ==> #[trigger] pack_sum(word_group(indices@, bits, k), bits) <= u32::MAX,
    ensures
        final(out)@ == old(out)@ + words_bytes(indices@, bits, word_count(bits)),
{
    proof {
        lemma_word_layout(bits);
    }
    let ghost s = indices@;
    let bpw: usize = (32u32 / (bits as u32)) as usize;
    let wc: usize = (SUB_CHUNK_VOLUME + bpw - 1) / bpw;
    assert(wc == word_count(bits));
    let mut i: usize = 0;
    let mut k: usize = 0;
    assert(words_bytes(s, bits, 0) =~= Seq::<u8>::empty());
    assert(out@ =~= old(out)@ + words_bytes(s, bits, 0));
    while k < wc
        invariant
            s == indices@,
            s.len() == SUB_CHUNK_VOLUME,
            1 <= bits <= 32,
            bpw == blocks_per_word(bits),
            wc == word_count(bits),
            1 <= bpw <= 32,
            bpw * (bits as nat) <= 32,
            wc * bpw >= SUB_CHUNK_VOLUME,
            (wc - 1) * bpw < SUB_CHUNK_VOLUME,
            forall|kk: nat| kk < word_count(bits) ==> #[trigger] pack_sum(word_group(s, bits, kk), bits) <= u32::MAX,
            k <= wc,
            i == (if k < wc {
                (k * bpw) as int
            } else {
                SUB_CHUNK_VOLUME as int
            }),
            out@ == old(out)@ + words_bytes(s, bits, k as nat),
        decreases wc - k,
    {
        assert(k * bpw < SUB_CHUNK_VOLUME) by (nonlinear_arith)
            requires
                k < wc,
                (wc - 1) * bpw < SUB_CHUNK_VOLUME,
                bpw >= 1,
        ;
        let ghost i0 = i;
        let ghost group = word_group(s, bits, k as nat);
        assert(pack_sum(group, bits) <= u32::MAX);
        assert((k + 1) * bpw == i0 + bpw) by (nonlinear_arith)
            requires
                i0 == k * bpw,
        ;
        assert(group.len() == (if i0 + bpw < SUB_CHUNK_VOLUME { i0 + bpw } else { SUB_CHUNK_VOLUME as int }) - i0);
        let mut word: u32 = 0;
        let mut j: usize = 0;
        let mut shift: u32 = 0;
        assert(s.subrange(i0 as int, i0 as int) =~= Seq::<u16>::empty());
        while j < bpw && i < SUB_CHUNK_VOLUME
            invariant
                s == indices@,
                s.len() == SUB_CHUNK_VOLUME,
                1 <= bits <= 32,
                bpw == blocks_per_word(bits),
                1 <= bpw <= 32,
                bpw * (bits as nat) <= 32,
                i0 == k * bpw,
                i0 < SUB_CHUNK_VOLUME,
                group == word_group(s, bits, k as nat),
                group.len() == (if i0 + bpw < SUB_CHUNK_VOLUME { i0 + bpw } else { SUB_CHUNK_VOLUME as int }) - i0,
                group =~= s.subrange(i0 as int, i0 + group.len()),
                pack_sum(group, bits) <= u32::MAX,
                j <= bpw,
                i == i0 + j,
                i <= SUB_CHUNK_VOLUME,
                shift == j * (bits as nat),
                word as int == pack_sum(s.subrange(i0 as int, i as int), bits),
            decreases bpw - j,
        {
            assert(j * (bits as nat) <= 31) by (nonlinear_arith)
                requires
                    j < bpw,
                    bpw * (bits as nat) <= 32,
                    bits >= 1,
            ;
            let e = indices[i] as u32;
            let term = e << shift;
            proof {
                let next = s.subrange(i0 as int, i + 1);
                assert(next.drop_last() =~= s.subrange(i0 as int, i as int));
                assert(next.last() == s[i as int]);
                assert(term == ((next.last() as u32) << (((next.len() - 1) * (bits as nat)) as u32)));
                assert(pack_sum(next, bits) == word + term);
                assert(group.take(j + 1) =~= next);
                lemma_pack_sum_monotone(group, bits, j + 1);
            }
            word = word + term;
            i = i + 1;
            j = j + 1;
            shift = shift + bits as u32;
            proof {
                assert(shift == j * (bits as nat)) by (nonlinear_arith)
                    requires
                        shift == (j - 1) * (bits as nat) + bits,
                ;
            }
        }
        proof {
            assert(s.subrange(i0 as int, i as int) =~= group);
        }
        let ghost before = out@;
        append_u32_le(out, word);
        k = k + 1;
        proof {
            assert(out@ =~= old(out)@ + words_bytes(s, bits, k as nat));
            if k < wc {
                assert(i == k * bpw) by (nonlinear_arith)
                    requires
                        i == i0 + j,
                        j <= bpw,
                        j == bpw || i == SUB_CHUNK_VOLUME,
                        i0 == (k - 1) * bpw,
                        k <= wc - 1,
                        (wc - 1) * bpw < SUB_CHUNK_VOLUME,
                        bpw >= 1,
                ;
            } else {
                assert(i == SUB_CHUNK_VOLUME) by (nonlinear_arith)
                    requires
                        i == i0 + j,
                        j <= bpw,
                        j == bpw || i == SUB_CHUNK_VOLUME,
                        i0 == (k - 1) * bpw,
                        k == wc,
                        wc * bpw >= SUB_CHUNK_VOLUME,
                        i <= SUB_CHUNK_VOLUME,
                ;
            }
        }
    }
}

} // verus!

verus! {

/// Appends the bytes of one layer.
fn write_layer(out: &mut Vec<u8>, layer: &BlockLayer<NbtBlock>, network: bool)
    requires
        layer.0@.len() == SUB_CHUNK_VOLUME,
        words_fit(nbt_layer_value(layer_value(*layer))),
    ensures
        final(out)@ == old(out)@ + spec_encode_layer(nbt_layer_value(layer_value(*layer)), network),
{
    let ghost lv = nbt_layer_value(layer_value(*layer));
    let count = #[verifier::truncate] (layer.1.len() as u32);
    assert(count == #[verifier::truncate] (lv.1.len() as u32));
    let bits = bits_needed_to_store(count);
    let palette_type = bits << (if network {
        2u8
    } else {
        1u8
    });
    out.push(palette_type);
    let ghost after_type = out@;
    assert(lv.0 == layer.0@);
    assert(bits == spec_bits_needed(lv.1.len() as u32));
    assert(forall|k: nat| k < word_count(bits) ==> #[trigger] pack_sum(word_group(layer.0@, bits, k), bits) <= u32::MAX);
    write_words(out, &layer.0, bits);
    append_u32_le(out, count);
    let ghost base = out@;
    let mut e: usize = 0;
    assert(lv.1.take(0) =~= Seq::<(bool, Seq<u8>)>::empty());
    assert(out@ =~= base + concat_entries(lv.1.take(0)));
    while e < layer.1.len()
        invariant
            lv == nbt_layer_value(layer_value(*layer)),
            e <= layer.1@.len(),
            lv.1.len() == layer.1@.len(),
            out@ == base + concat_entries(lv.1.take(e as int)),
        decreases layer.1@.len() - e,
    {
        append_bytes(out, &layer.1[e].bytes);
        proof {
            assert(lv.1.take(e + 1) =~= lv.1.take(e as int).push(lv.1[e as int]));
            lemma_concat_push(lv.1.take(e as int), lv.1[e as int]);
        }
        e = e + 1;
        assert(out@ =~= base + concat_entries(lv.1.take(e as int)));
    }
    assert(lv.1.take(e as int) =~= lv.1);
    assert(out@ =~= old(out)@ + spec_encode_layer(lv, network));
}

impl SubChunkSerDe {
    /// Encodes a sub chunk in its intermediate form (with palette entries already in NBT
    /// form, in the variant that `network` selects) into the bytes that the level database
    /// holds: version, number of layers, `y`, and each layer's palette type, words of
    /// indices, palette size and entries.
    pub fn write_as_bytes(&mut self, chunk_state: SubChunkTransition<NbtBlock>, network: bool) -> (r: Result<Vec<u8>, SubChunkDecoderError>)
        requires
            forall|l: int| 0 <= l < transition_value(chunk_state).layers.len() ==> words_fit(#[trigger] transition_value(chunk_state).layers[l]),
            forall|l: int| 0 <= l < transition_value(chunk_state).layers.len() ==> entries_in_variant(#[trigger] transition_value(chunk_state).layers[l], network),
        ensures
            r matches Ok(v) && v@ == spec_encode(transition_value(chunk_state), network),
    {
        let ghost tv = transition_value(chunk_state);
        let layers = chunk_state.layers();
        let mut buffer: Vec<u8> = Vec::new();
        buffer.push(chunk_state.data_version());
        buffer.push(#[verifier::truncate] (layers.len() as u8));
        let y = #[verifier::truncate] (chunk_state.position().y as i8);
        buffer.push(#[verifier::truncate] (y as u8));
        let ghost header = buffer@;
        assert(tv.layers.len() == layers@.len());
        let mut l: usize = 0;
        assert(tv.layers.take(0) =~= Seq::<NbtLayerView>::empty());
        assert(buffer@ =~= header + spec_encode_layers(tv.layers.take(0), network));
        while l < layers.len()
            invariant
                tv == transition_value(chunk_state),
                layers@.map_values(|x: BlockLayer<NbtBlock>| layer_value(x)) == chunk_state.spec_layers(),
                forall|i: int| 0 <= i < layers@.len() ==> (#[trigger] layers@[i]).0@.len() == SUB_CHUNK_VOLUME,
                forall|i: int| 0 <= i < tv.layers.len() ==> words_fit(#[trigger] tv.layers[i]),
                tv.layers.len() == layers@.len(),
                l <= layers@.len(),
                buffer@ == header + spec_encode_layers(tv.layers.take(l as int), network),
            decreases layers@.len() - l,
        {
            assert(tv.layers[l as int] == nbt_layer_value(layer_value(layers@[l as int])));
            write_layer(&mut buffer, &layers[l], network);
            proof {
                assert(tv.layers.take(l + 1).drop_last() =~= tv.layers.take(l as int));
            }
            l = l + 1;
            assert(buffer@ =~= header + spec_encode_layers(tv.layers.take(l as int), network));
        }
        assert(tv.layers.take(l as int) =~= tv.layers);
        assert(buffer@ =~= spec_encode(tv, network));
        Ok(buffer)
    }
}

} // verus!
