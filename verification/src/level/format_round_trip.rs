use crate::level::byte_order::{le_bytes, le_u32_at, lemma_le_round_trip};
use crate::level::sub_chunk::{indices_in_palette, SUB_CHUNK_VOLUME};
use crate::level::sub_chunk_format::{
    blocks_per_word, concat_entries, index_mask, lemma_bit_length, lemma_word_layout, nbt_rest_len, pack_sum, palette_type_byte,
    entries_in_variant, read_index, read_indices, slot, spec_bits_needed, spec_decode, spec_encode, spec_encode_layer, spec_encode_layers,
    spec_read_layer, spec_read_layers, spec_read_palette, valid_bits, word_count, word_group, words_bytes, words_fit,
    NbtLayerView, TransitionValue,
};
use crate::utility::vector::Vec2;
use vstd::arithmetic::power2::pow2;
use vstd::prelude::*;

verus! {

/// An encoded palette entry that the NBT reader reads exactly, whatever bytes follow it.
pub open spec fn entry_frames_alone(e: (bool, Seq<u8>)) -> bool {
    forall|rest: Seq<u8>| #[trigger] nbt_rest_len(e.0, e.1 + rest) == Some(rest.len())
}

/// A layer that encoding (for disk) and decoding give back: a full set of indices, a
/// palette of fewer than 2^31 entries, every index within the bits per block of the
/// palette, and every entry a disk NBT value that is read exactly.
pub open spec fn layer_round_trips(l: NbtLayerView) -> bool {
    &&& l.0.len() == SUB_CHUNK_VOLUME
    &&& l.1.len() < 0x8000_0000
    &&& forall|i: int| 0 <= i < l.0.len() ==> (#[trigger] l.0[i]) < pow2(spec_bits_needed(l.1.len() as u32) as nat)
    &&& forall|e: int| 0 <= e < l.1.len() ==> !(#[trigger] l.1[e]).0 && entry_frames_alone(l.1[e])
}

/// A transition that encoding (for disk) and decoding give back: a version that the
/// decoder knows, at most 255 layers, a `y` that fits a byte, and layers that round trip.
pub open spec fn transition_round_trips(t: TransitionValue) -> bool {
    &&& t.data_version == 8 || t.data_version == 9
    &&& t.layers.len() <= 255
    &&& -128 <= t.position.y <= 127
    &&& forall|l: int| 0 <= l < t.layers.len() ==> layer_round_trips(#[trigger] t.layers[l])
}

/// Packing indices with `|`, as the bits of the word hold them.
spec fn pack_or(s: Seq<u16>, bits: u8) -> u32
    decreases s.len(),
{
    if s.len() == 0 {
        0
    } else {
        pack_or(s.drop_last(), bits) | ((s.last() as u32) << (((s.len() - 1) * (bits as nat)) as u32))
    }
}

proof fn lemma_pack_step(p: u32, x: u32, sh: u32, bits: u32, m: u32)
    requires
        1 <= bits <= 31,
        sh + bits <= 32,
        (p as u64) < (1u64 << (sh as u64)),
        (x as u64) < (1u64 << (bits as u64)),
        m + 1 == (1u32 << bits),
    ensures
        p + (x << sh) == (p | (x << sh)),
        ((p | (x << sh)) as u64) < (1u64 << ((sh + bits) as u64)),
        ((p | (x << sh)) >> sh) & m == x,
{
    assert(p + (x << sh) == (p | (x << sh))) by (bit_vector)
        requires
            1 <= bits <= 31,
            sh + bits <= 32,
            (p as u64) < (1u64 << (sh as u64)),
            (x as u64) < (1u64 << (bits as u64)),
    ;
    assert(((p | (x << sh)) as u64) < (1u64 << ((sh + bits) as u64))) by (bit_vector)
        requires
            1 <= bits <= 31,
            sh + bits <= 32,
            (p as u64) < (1u64 << (sh as u64)),
            (x as u64) < (1u64 << (bits as u64)),
    ;
    assert(((p | (x << sh)) >> sh) & m == x) by (bit_vector)
        requires
            1 <= bits <= 31,
            sh + bits <= 32,
            (p as u64) < (1u64 << (sh as u64)),
            (x as u64) < (1u64 << (bits as u64)),
            m + 1 == (1u32 << bits),
    ;
}

proof fn lemma_pack_keep(p: u32, x: u32, sh: u32, bits: u32, m: u32, jb: u32)
    requires
        1 <= bits <= 31,
        sh + bits <= 32,
        jb + bits <= sh,
        m + 1 == (1u32 << bits),
    ensures
        ((p | (x << sh)) >> jb) & m == (p >> jb) & m,
{
    assert(((p | (x << sh)) >> jb) & m == (p >> jb) & m) by (bit_vector)
        requires
            1 <= bits <= 31,
            sh + bits <= 32,
            jb + bits <= sh,
            m + 1 == (1u32 << bits),
    ;
}

proof fn lemma_mask(bits: u8)
    requires
        1 <= bits <= 31,
    ensures
        index_mask(bits) + 1 == (1u32 << (bits as u32)),
{
    let b = bits as u32;
    assert(1u32 <= (1u32 << b)) by (bit_vector)
        requires
            b <= 31,
    ;
}

/// Indices that fit their bits can be packed into a word and read back from it.
proof fn lemma_pack(s: Seq<u16>, bits: u8)
    requires
        1 <= bits <= 31,
        s.len() * (bits as nat) <= 32,
        forall|i: int| 0 <= i < s.len() ==> ((#[trigger] s[i]) as u64) < (1u64 << (bits as u64)),
    ensures
        pack_sum(s, bits) == pack_or(s, bits) as int,
        (pack_or(s, bits) as u64) < (1u64 << ((s.len() * (bits as nat)) as u64)),
        forall|j: int| 0 <= j < s.len() ==> slot(pack_or(s, bits), j as nat, bits) == #[trigger] s[j],
    decreases s.len(),
{
    if s.len() == 0 {
        assert((0u32 as u64) < (1u64 << 0u64)) by (bit_vector);
    } else {
        let s1 = s.drop_last();
        let n = s.len();
        assert((n - 1) * (bits as nat) + (bits as nat) == n * (bits as nat)) by (nonlinear_arith);
        assert(s1.len() * (bits as nat) <= 32);
        lemma_pack(s1, bits);
        let p = pack_or(s1, bits);
        let x = s.last() as u32;
        let sh = ((n - 1) * (bits as nat)) as u32;
        assert(sh as nat == (n - 1) * (bits as nat));
        let m = index_mask(bits);
        lemma_mask(bits);
        assert((x as u64) < (1u64 << (bits as u64))) by {
            assert(s[n - 1] == s.last());
        }
        lemma_pack_step(p, x, sh, bits as u32, m);
        assert(pack_or(s, bits) == p | (x << sh));
        assert((sh + bits) as u64 == (n * (bits as nat)) as u64);
        assert forall|j: int| 0 <= j < s.len() implies slot(pack_or(s, bits), j as nat, bits) == #[trigger] s[j] by {
            if j == n - 1 {
                assert(((j as nat) * (bits as nat)) as u32 == sh);
            } else {
                assert(s1[j] == s[j]);
                assert((j as nat) * (bits as nat) + (bits as nat) <= (n - 1) * (bits as nat)) by (nonlinear_arith)
                    requires
                        0 <= j < n - 1,
                        bits >= 1,
                ;
                lemma_pack_keep(p, x, sh, bits as u32, m, ((j as nat) * (bits as nat)) as u32);
            }
        }
    }
}

proof fn lemma_words_bytes(s: Seq<u16>, bits: u8, n: nat)
    ensures
        words_bytes(s, bits, n).len() == 4 * n,
        forall|k: int, d: int|
            0 <= k < n && 0 <= d < 4 ==> #[trigger] words_bytes(s, bits, n)[4 * k + d] == le_bytes(
                pack_sum(word_group(s, bits, k as nat), bits) as u32,
            )[d],
    decreases n,
{
    if n > 0 {
        lemma_words_bytes(s, bits, (n - 1) as nat);
    }
}

/// Decoding the words of a layer gives the indices that were packed into them.
proof fn lemma_read_indices(b: Seq<u8>, q: int, s: Seq<u16>, bits: u8)
    requires
        valid_bits(bits),
        s.len() == SUB_CHUNK_VOLUME,
        forall|i: int| 0 <= i < s.len() ==> ((#[trigger] s[i]) as u64) < (1u64 << (bits as u64)),
        0 <= q,
        q + 4 * word_count(bits) <= b.len(),
        b.subrange(q, q + 4 * word_count(bits)) == words_bytes(s, bits, word_count(bits)),
    ensures
        read_indices(b, q, bits) == s,
{
    lemma_word_layout(bits);
    let bpw = blocks_per_word(bits);
    let wc = word_count(bits);
    let wb = words_bytes(s, bits, wc);
    lemma_words_bytes(s, bits, wc);
    assert forall|i: int| 0 <= i < SUB_CHUNK_VOLUME implies #[trigger] read_index(b, q, bits, i) == s[i] by {
        let k = i / (bpw as int);
        let j = i % (bpw as int);
        vstd::arithmetic::div_mod::lemma_fundamental_div_mod(i, bpw as int);
        assert(0 <= j < bpw);
        assert(0 <= k);
        assert(k < wc) by (nonlinear_arith)
            requires
                i == bpw * k + j,
                0 <= j,
                i < 4096,
                wc * bpw >= 4096,
                bpw >= 1,
        ;
        let g = word_group(s, bits, k as nat);
        assert(k * bpw + j == i) by (nonlinear_arith)
            requires
                i == bpw * k + j,
        ;
        assert((k + 1) * bpw == k * bpw + bpw) by (nonlinear_arith);
        assert(g.len() <= bpw);
        assert(j < g.len());
        assert(g[j] == s[i]);
        assert(g.len() * (bits as nat) <= 32) by (nonlinear_arith)
            requires
                g.len() <= bpw,
                bpw * (bits as nat) <= 32,
        ;
        assert forall|t: int| 0 <= t < g.len() implies ((#[trigger] g[t]) as u64) < (1u64 << (bits as u64)) by {
            assert(g[t] == s[k * bpw + t]);
        }
        lemma_pack(g, bits);
        let w = pack_sum(g, bits) as u32;
        assert(pack_or(g, bits) as int == pack_sum(g, bits));
        assert(w == pack_or(g, bits));
        let at = q + 4 * k;
        assert(4 * k + 3 < 4 * wc);
        assert forall|d: int| 0 <= d < 4 implies b[at + d] == le_bytes(w)[d] by {
            assert(b[at + d] == wb[4 * k + d]);
        }
        lemma_le_round_trip(w);
        assert(le_u32_at(b, at) == le_u32_at(le_bytes(w), 0));
        assert(slot(w, j as nat, bits) == g[j]);
    }
    assert(read_indices(b, q, bits) =~= s);
}

proof fn lemma_read_palette(b: Seq<u8>, at: int, es: Seq<(bool, Seq<u8>)>)
    requires
        0 <= at,
        at + concat_entries(es).len() <= b.len(),
        b.subrange(at, at + concat_entries(es).len()) == concat_entries(es),
        forall|e: int| 0 <= e < es.len() ==> !(#[trigger] es[e]).0 && entry_frames_alone(es[e]),
    ensures
        spec_read_palette(b, at, es.len(), false) == Ok::<_, crate::level::sub_chunk_format::DecodeFailure>((es, at + concat_entries(es).len())),
    decreases es.len(),
{
    if es.len() > 0 {
        let es1 = es.drop_last();
        let e = es.last();
        let c1 = concat_entries(es1);
        assert(concat_entries(es) == c1 + e.1);
        assert(b.subrange(at, at + c1.len()) =~= c1) by {
            assert(b.subrange(at, at + c1.len()) =~= b.subrange(at, at + concat_entries(es).len()).subrange(0, c1.len() as int));
        }
        assert forall|i: int| 0 <= i < es1.len() implies !(#[trigger] es1[i]).0 && entry_frames_alone(es1[i]) by {
            assert(es1[i] == es[i]);
        }
        lemma_read_palette(b, at, es1);
        let p = at + c1.len();
        assert(es[es.len() - 1] == e);
        let rest = b.subrange(p + e.1.len(), b.len() as int);
        assert(b.subrange(p, b.len() as int) =~= e.1 + rest) by {
            assert(b.subrange(p, p + e.1.len()) =~= b.subrange(at, at + concat_entries(es).len()).subrange(c1.len() as int, concat_entries(es).len() as int));
        }
        assert(!e.0 && entry_frames_alone(e));
        assert(nbt_rest_len(e.0, e.1 + rest) == Some(rest.len()));
        assert(nbt_rest_len(false, b.subrange(p, b.len() as int)) == Some(rest.len()));
        assert(rest.len() == b.len() - (p + e.1.len()));
        assert(b.subrange(p, b.len() - rest.len()) =~= e.1) by {
            assert(b.subrange(p, p + e.1.len()) =~= b.subrange(at, at + concat_entries(es).len()).subrange(c1.len() as int, concat_entries(es).len() as int));
        }
        assert(es1.push((false, e.1)) =~= es);
        assert(es1.len() == (es.len() - 1) as nat);
        assert(spec_read_palette(b, at, es1.len(), false) == Ok::<_, crate::level::sub_chunk_format::DecodeFailure>((es1, p)));
        assert(spec_read_palette(b, at, es.len(), false) == Ok::<_, crate::level::sub_chunk_format::DecodeFailure>((
            es1.push((false, b.subrange(p, b.len() - rest.len()))),
            b.len() - rest.len(),
        )));
    } else {
        assert(es =~= Seq::<(bool, Seq<u8>)>::empty());
    }
}

proof fn lemma_bits_fit(len: nat)
    requires
        len < 0x8000_0000,
    ensures
        1 <= spec_bits_needed(len as u32) <= 31,
        (len as u32) as nat == len,
{
    lemma_bit_length(len);
    vstd::arithmetic::power2::lemma2_to64();
    vstd::arithmetic::power2::lemma2_to64_rest();
    if len > 0 {
        assert(bit_length_le_31(len));
    }
}

spec fn bit_length_le_31(len: nat) -> bool {
    crate::level::sub_chunk_format::bit_length(len) <= 31
}

} // verus!

verus! {

proof fn lemma_index_bound(x: u16, bits: u8)
    requires
        1 <= bits <= 31,
        (x as int) < pow2(bits as nat),
    ensures
        (x as u64) < (1u64 << (bits as u64)),
{
    vstd::bits::lemma_u64_pow2_no_overflow(bits as nat);
    vstd::bits::lemma_u64_shl_is_mul(1u64, bits as u64);
}

proof fn lemma_palette_type(bits: u8)
    requires
        1 <= bits <= 31,
    ensures
        palette_type_byte(bits, false) >> 1u8 == bits,
        palette_type_byte(bits, false) & 1u8 != 1u8,
{
    assert((bits << 1u8) >> 1u8 == bits && (bits << 1u8) & 1u8 == 0u8) by (bit_vector)
        requires
            1 <= bits <= 31,
    ;
}

proof fn lemma_y_byte(y: i32)
    requires
        -128 <= y <= 127,
    ensures
        (((y as i8) as u8) as i8) as i32 == y,
{
    assert((((y as i8) as u8) as i8) as i32 == y) by (bit_vector)
        requires
            -128 <= y <= 127,
    ;
}

/// Every word of a layer whose indices fit their bits is within 32 bits.
proof fn lemma_layer_words_fit(l: NbtLayerView)
    requires
        l.0.len() == SUB_CHUNK_VOLUME,
        l.1.len() < 0x8000_0000,
        forall|i: int| 0 <= i < l.0.len() ==> (#[trigger] l.0[i]) < pow2(spec_bits_needed(l.1.len() as u32) as nat),
    ensures
        words_fit(l),
{
    let bits = spec_bits_needed(l.1.len() as u32);
    lemma_bits_fit(l.1.len());
    lemma_word_layout(bits);
    let bpw = blocks_per_word(bits);
    assert forall|k: nat| k < word_count(bits) implies #[trigger] pack_sum(word_group(l.0, bits, k), bits) <= u32::MAX by {
        let g = word_group(l.0, bits, k);
        assert(k * bpw < 4096) by (nonlinear_arith)
            requires
                k < word_count(bits),
                (word_count(bits) - 1) * bpw < 4096,
                bpw >= 1,
        ;
        assert((k + 1) * bpw == k * bpw + bpw) by (nonlinear_arith);
        assert(g.len() <= bpw);
        assert(g.len() * (bits as nat) <= 32) by (nonlinear_arith)
            requires
                g.len() <= bpw,
                bpw * (bits as nat) <= 32,
        ;
        assert forall|t: int| 0 <= t < g.len() implies ((#[trigger] g[t]) as u64) < (1u64 << (bits as u64)) by {
            assert(g[t] == l.0[k * bpw + t]);
            lemma_index_bound(l.0[k * bpw + t], bits);
        }
        lemma_pack(g, bits);
    }
}

proof fn lemma_read_layer(b: Seq<u8>, p: int, l: NbtLayerView)
    requires
        layer_round_trips(l),
        0 <= p,
        p + spec_encode_layer(l, false).len() <= b.len(),
        b.subrange(p, p + spec_encode_layer(l, false).len()) == spec_encode_layer(l, false),
    ensures
        spec_read_layer(b, p) == Ok::<_, crate::level::sub_chunk_format::DecodeFailure>((l, p + spec_encode_layer(l, false).len())),
{
    let e = spec_encode_layer(l, false);
    let len = l.1.len();
    let bits = spec_bits_needed(len as u32);
    lemma_bits_fit(len);
    lemma_word_layout(bits);
    lemma_palette_type(bits);
    let wc = word_count(bits);
    let wb = words_bytes(l.0, bits, wc);
    lemma_words_bytes(l.0, bits, wc);
    let lb = le_bytes(len as u32);
    let c = concat_entries(l.1);
    assert(e == seq![palette_type_byte(bits, false)] + wb + lb + c);
    assert(e.len() == 1 + 4 * wc + 4 + c.len());
    assert(b[p] == e[0]);
    assert(b.subrange(p + 1, p + 1 + 4 * wc) =~= wb) by {
        assert(b.subrange(p + 1, p + 1 + 4 * wc) =~= e.subrange(1, 1 + 4 * wc as int));
    }
    assert forall|i: int| 0 <= i < l.0.len() implies ((#[trigger] l.0[i]) as u64) < (1u64 << (bits as u64)) by {
        lemma_index_bound(l.0[i], bits);
    }
    lemma_read_indices(b, p + 1, l.0, bits);
    let cq = p + 1 + 4 * wc;
    assert(forall|d: int| 0 <= d < 4 ==> b[cq + d] == #[trigger] lb[d]) by {
        assert forall|d: int| 0 <= d < 4 implies b[cq + d] == #[trigger] lb[d] by {
            assert(b[cq + d] == e[1 + 4 * wc + d]);
        }
    }
    lemma_le_round_trip(len as u32);
    assert(le_u32_at(b, cq) == le_u32_at(lb, 0));
    assert(b.subrange(cq + 4, cq + 4 + c.len()) =~= c) by {
        assert(b.subrange(cq + 4, cq + 4 + c.len()) =~= e.subrange((1 + 4 * wc + 4) as int, e.len() as int));
    }
    lemma_read_palette(b, cq + 4, l.1);
    assert(palette_type_byte(bits, false) & 1u8 != 1u8);
}

proof fn lemma_read_layers(b: Seq<u8>, at: int, ls: Seq<NbtLayerView>)
    requires
        0 <= at,
        forall|l: int| 0 <= l < ls.len() ==> layer_round_trips(#[trigger] ls[l]),
        at + spec_encode_layers(ls, false).len() <= b.len(),
        b.subrange(at, at + spec_encode_layers(ls, false).len()) == spec_encode_layers(ls, false),
    ensures
        spec_read_layers(b, at, ls.len()) == Ok::<_, crate::level::sub_chunk_format::DecodeFailure>((ls, at + spec_encode_layers(ls, false).len())),
    decreases ls.len(),
{
    if ls.len() == 0 {
        assert(ls =~= Seq::<NbtLayerView>::empty());
    } else {
        let ls1 = ls.drop_last();
        let last = ls.last();
        let el1 = spec_encode_layers(ls1, false);
        let e = spec_encode_layer(last, false);
        let el = spec_encode_layers(ls, false);
        assert(el == el1 + e);
        assert(b.subrange(at, at + el1.len()) =~= el1) by {
            assert(b.subrange(at, at + el1.len()) =~= el.subrange(0, el1.len() as int));
        }
        assert forall|l: int| 0 <= l < ls1.len() implies layer_round_trips(#[trigger] ls1[l]) by {
            assert(ls1[l] == ls[l]);
        }
        lemma_read_layers(b, at, ls1);
        assert(ls[ls.len() - 1] == last);
        let p = at + el1.len();
        assert(b.subrange(p, p + e.len()) =~= e) by {
            assert(b.subrange(p, p + e.len()) =~= el.subrange(el1.len() as int, el.len() as int));
        }
        lemma_read_layer(b, p, last);
        assert(ls1.push(last) =~= ls);
        assert(ls1.len() == (ls.len() - 1) as nat);
    }
}

/// Encoding a sub chunk for disk and decoding the bytes (with the column of the sub chunk)
/// gives the sub chunk back and reads every byte of the encoding, for every transition that
/// `transition_round_trips` admits;
/// and the encoder accepts every such transition (no word overflows).
pub proof fn lemma_encode_decode_round_trip(t: TransitionValue)
    requires
        transition_round_trips(t),
    ensures
        forall|l: int| 0 <= l < t.layers.len() ==> words_fit(#[trigger] t.layers[l]) && entries_in_variant(t.layers[l], false),
        spec_decode(spec_encode(t, false), Vec2 { x: t.position.x, y: t.position.z }) == Ok::<
            (TransitionValue, int),
            crate::level::sub_chunk_format::DecodeFailure,
        >((t, spec_encode(t, false).len() as int)),
{
    assert forall|l: int| 0 <= l < t.layers.len() implies words_fit(#[trigger] t.layers[l]) by {
        lemma_layer_words_fit(t.layers[l]);
    }
    let b = spec_encode(t, false);
    let el = spec_encode_layers(t.layers, false);
    assert(b == seq![t.data_version, t.layers.len() as u8, (t.position.y as i8) as u8] + el);
    assert(b.subrange(3, 3 + el.len() as int) =~= el);
    lemma_read_layers(b, 3, t.layers);
    lemma_y_byte(t.position.y);
    assert(b[1] as nat == t.layers.len());
}

} // verus!

verus! {

/// A layer whose indices point into its palette (of fewer than 2^31 entries) has every
/// index within the bits per block of the palette, so its words fit in 32 bits.
pub proof fn lemma_indices_in_palette_fit(l: NbtLayerView)
    requires
        l.0.len() == SUB_CHUNK_VOLUME,
        indices_in_palette(l),
        l.1.len() < 0x8000_0000,
    ensures
        forall|i: int| 0 <= i < l.0.len() ==> (#[trigger] l.0[i]) < pow2(spec_bits_needed(l.1.len() as u32) as nat),
        words_fit(l),
{
    let len = l.1.len();
    lemma_bits_fit(len);
    crate::level::sub_chunk_format::lemma_bit_length(len);
    assert(l.0[0] < len);
    let bl = crate::level::sub_chunk_format::bit_length(len);
    vstd::arithmetic::power2::lemma2_to64_rest();
    assert(bl <= 31);
    assert(spec_bits_needed(len as u32) == bl as u8);
    assert(spec_bits_needed(len as u32) as nat == bl);
    assert forall|i: int| 0 <= i < l.0.len() implies (#[trigger] l.0[i]) < pow2(spec_bits_needed(l.1.len() as u32) as nat) by {
        assert(l.0[i] < len);
    }
    lemma_layer_words_fit(l);
}

} // verus!
