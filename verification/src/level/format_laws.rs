use crate::level::byte_order::le_u32_at;
use crate::level::sub_chunk::{block_index, traversal_index, SUB_CHUNK_VOLUME};
use crate::utility::vector::Vec3;
use vstd::arithmetic::power2::pow2;
use crate::level::sub_chunk_format::{
    bit_length, blocks_per_word, concat_entries, lemma_bit_length, lemma_word_layout, nbt_rest_len, read_index, read_indices, spec_bits_needed, spec_encode, spec_encode_layer, spec_encode_layers, spec_read_layer,
    spec_read_palette, word_count, NbtLayerView, TransitionValue,
};
use vstd::prelude::*;

verus! {

/// Decoding one layer that starts at `at` takes its bits per block from the palette type
/// byte (`b[at] >> 1`) and only from it, and its NBT variant from the low bit of that byte
/// and only from it:
/// - whenever it succeeds, the bits per block lie in `1..=31`, the block indices are the
///   slots of the words that follow the type byte (`read_indices`), whatever the network bit,
///   and the palette is the entries read, in the variant that the network bit selects, from
///   after the palette size;
/// - it succeeds for every such bits per block and every palette size whose entries read,
///   whether or not the bits per block is the one that the encoder would choose for that
///   palette size.
pub proof fn lemma_layer_decoding(b: Seq<u8>, at: int)
    ensures
        spec_read_layer(b, at) matches Ok((l, p)) ==> {
            let bits = b[at] >> 1u8;
            let count_at = at + 1 + 4 * word_count(bits);
            &&& 0 <= at < b.len()
            &&& 1 <= bits <= 31
            &&& l.0 == read_indices(b, at + 1, bits)
            &&& count_at + 4 <= b.len()
            &&& spec_read_palette(b, count_at + 4, le_u32_at(b, count_at) as nat, b[at] & 1u8 == 1u8) == Ok::<
                _,
                crate::level::sub_chunk_format::DecodeFailure,
            >((l.1, p))
        },
        ({
            let bits = b[at] >> 1u8;
            let count_at = at + 1 + 4 * word_count(bits);
            0 <= at < b.len() && 1 <= bits <= 31 && count_at + 4 <= b.len() && spec_read_palette(
                b,
                count_at + 4,
                le_u32_at(b, count_at) as nat,
                b[at] & 1u8 == 1u8,
            ) is Ok ==> spec_read_layer(b, at) is Ok
        }),
{
}

/// Two decodings of the same layer bytes that differ only in the network bit of the
/// palette type give the same block indices.
pub proof fn lemma_layer_indices_ignore_network_bit(b: Seq<u8>, c: Seq<u8>, at: int)
    requires
        0 <= at < b.len(),
        b.len() == c.len(),
        forall|i: int| 0 <= i < b.len() && i != at ==> b[i] == c[i],
        b[at] >> 1u8 == c[at] >> 1u8,
    ensures
        spec_read_layer(b, at) matches Ok((lb, _)) ==> spec_read_layer(c, at) matches Ok((lc, _)) ==> lb.0 == lc.0,
{
    let bits = b[at] >> 1u8;
    if spec_read_layer(b, at) is Ok && spec_read_layer(c, at) is Ok {
        lemma_layer_decoding(b, at);
        lemma_layer_decoding(c, at);
        lemma_word_layout(bits);
        let bpw = blocks_per_word(bits) as int;
        let wc = word_count(bits) as int;
        assert forall|i: int| 0 <= i < SUB_CHUNK_VOLUME implies #[trigger] read_index(b, at + 1, bits, i) == read_index(c, at + 1, bits, i) by {
            let k = i / bpw;
            assert(k < wc) by (nonlinear_arith)
                requires
                    0 <= i < 4096,
                    bpw >= 1,
                    wc * bpw >= 4096,
                    k == i / bpw,
            ;
            assert(0 <= k) by (nonlinear_arith)
                requires
                    0 <= i,
                    bpw >= 1,
                    k == i / bpw,
            ;
            let w = at + 1 + 4 * k;
            assert(w + 3 < at + 1 + 4 * wc);
            assert(b[w] == c[w] && b[w + 1] == c[w + 1] && b[w + 2] == c[w + 2] && b[w + 3] == c[w + 3]);
        }
        assert(read_indices(b, at + 1, bits) =~= read_indices(c, at + 1, bits));
    }
}

/// Encoding a layer for the network gives the bytes of encoding it for disk but for the
/// palette type byte, which holds the bits per block shifted by two in place of one; in
/// both variants the layer ends with all its palette entries, one after the other.
pub proof fn lemma_network_layer_encoding(l: NbtLayerView)
    ensures
        ({
            let bits = spec_bits_needed(l.1.len() as u32);
            let d = spec_encode_layer(l, false);
            let n = spec_encode_layer(l, true);
            let e = concat_entries(l.1);
            &&& d.len() == n.len()
            &&& d.len() >= 1 + e.len()
            &&& d[0] == bits << 1u8
            &&& n[0] == bits << 2u8
            &&& forall|i: int| 1 <= i < d.len() ==> d[i] == n[i]
            &&& d.subrange(d.len() - e.len(), d.len() as int) == e
            &&& n.subrange(n.len() - e.len(), n.len() as int) == e
        }),
{
    let bits = spec_bits_needed(l.1.len() as u32);
    let d = spec_encode_layer(l, false);
    let n = spec_encode_layer(l, true);
    let e = concat_entries(l.1);
    assert(d.subrange(d.len() - e.len(), d.len() as int) =~= e);
    assert(n.subrange(n.len() - e.len(), n.len() as int) =~= e);
}

/// Encoding layers for the network takes as many bytes as encoding them for disk.
pub proof fn lemma_network_layers_length(ls: Seq<NbtLayerView>)
    ensures
        spec_encode_layers(ls, true).len() == spec_encode_layers(ls, false).len(),
    decreases ls.len(),
{
    if ls.len() > 0 {
        lemma_network_layers_length(ls.drop_last());
        lemma_network_layer_encoding(ls.last());
    }
}

/// Encoding a sub chunk for the network takes as many bytes as encoding it for disk, and
/// starts with the same version, number of layers and `y`.
pub proof fn lemma_network_encoding_length(t: TransitionValue)
    ensures
        spec_encode(t, true).len() == spec_encode(t, false).len(),
        spec_encode(t, true).subrange(0, 3) == spec_encode(t, false).subrange(0, 3),
{
    lemma_network_layers_length(t.layers);
    assert(spec_encode(t, true).subrange(0, 3) =~= spec_encode(t, false).subrange(0, 3));
}

} // verus!

verus! {

/// Reading `n` palette entries from `at` on gives `n` entries in the variant asked for,
/// which lie one after the other from `at` up to the position given back; each entry is
/// exactly one NBT value: the reader, started where the entry starts, leaves unread all the
/// bytes after it.
pub proof fn lemma_palette_reading(b: Seq<u8>, at: int, n: nat, network: bool)
    requires
        0 <= at <= b.len(),
    ensures
        spec_read_palette(b, at, n, network) matches Ok((es, p)) ==> {
            &&& es.len() == n
            &&& 0 <= at <= p <= b.len()
            &&& concat_entries(es) == b.subrange(at, p)
            &&& forall|e: int| 0 <= e < n ==> (#[trigger] es[e]).0 == network
            &&& forall|e: int| 0 <= e < n ==> nbt_rest_len(network, b.subrange(at + #[trigger] concat_entries(es.take(e)).len(), b.len() as int))
                == Some((b.len() - (at + concat_entries(es.take(e + 1)).len())) as nat)
        },
    decreases n,
{
    if n > 0 {
        lemma_palette_reading(b, at, (n - 1) as nat, network);
        if let Ok((es, p)) = spec_read_palette(b, at, n, network) {
            let (es0, p0) = spec_read_palette(b, at, (n - 1) as nat, network)->Ok_0;
            let r = nbt_rest_len(network, b.subrange(p0, b.len() as int))->Some_0;
            let entry = (network, b.subrange(p0, b.len() - r));
            assert(es == es0.push(entry));
            assert(es.drop_last() =~= es0);
            assert(concat_entries(es) == concat_entries(es0) + entry.1);
            assert(concat_entries(es) =~= b.subrange(at, p));
            assert(concat_entries(es0).len() == p0 - at);
            assert(concat_entries(es).len() == p - at);
            assert(p == b.len() - r);
            assert forall|e: int| 0 <= e < n implies nbt_rest_len(network, b.subrange(at + #[trigger] concat_entries(es.take(e)).len(), b.len() as int))
                == Some((b.len() - (at + concat_entries(es.take(e + 1)).len())) as nat) by {
                if e < n - 1 {
                    assert(es.take(e) =~= es0.take(e));
                    assert(es.take(e + 1) =~= es0.take(e + 1));
                } else {
                    assert(es.take(e) =~= es0);
                    assert(es.take(e + 1) =~= es);
                }
            }
            assert forall|e: int| 0 <= e < n implies (#[trigger] es[e]).0 == network by {
                if e < n - 1 {
                    assert(es[e] == es0[e]);
                }
            }
        }
    } else {
        if let Ok((es, p)) = spec_read_palette(b, at, n, network) {
            assert(concat_entries(es) =~= b.subrange(at, p));
        }
    }
}

} // verus!

verus! {

/// The bits per block that the encoder uses for a palette of `n` entries is the least
/// number of bits, at least one, in which `n` can be written: `n < 2^bits`, and
/// `n >= 2^(bits - 1)` for `n >= 1`; it is at most 32.
pub proof fn lemma_bits_per_block_is_least(n: u32)
    ensures
        1 <= spec_bits_needed(n) <= 32,
        (n as nat) < pow2(spec_bits_needed(n) as nat),
        n >= 1 ==> pow2((spec_bits_needed(n) - 1) as nat) <= n,
        forall|k: nat| 1 <= k && (n as nat) < pow2(k) ==> spec_bits_needed(n) <= k,
{
    lemma_bit_length(n as nat);
    vstd::arithmetic::power2::lemma2_to64();
    vstd::arithmetic::power2::lemma2_to64_rest();
    if n > 0 {
        assert(bit_length(n as nat) <= 32) by {
            assert((n as nat) < pow2(32));
        }
    }
}

/// The walk that builds a palette visits, at step `k`, the block at `x = k % 16`,
/// `y = (k / 16) % 16`, `z = k / 256`: `x` fastest, then `y`, then `z`.
pub proof fn lemma_walk_order(k: int)
    requires
        0 <= k < SUB_CHUNK_VOLUME,
    ensures
        traversal_index(k) == block_index(Vec3 { x: (k % 16) as u8, y: ((k / 16) % 16) as u8, z: (k / 256) as u8 }),
{
}

} // verus!
