//! The search drivers' consensus step: testing one password block against
//! every encrypted entry, keeping only the last characters all entries
//! accept, removing the duplicates the chunk padding introduced, and
//! spelling out the confirmed passwords.

use vstd::prelude::*;

use crate::decrypt::keys_view;
use crate::decrypt::lemma_concat_contains;
use crate::decrypt::lemma_unrolled_matches_scalar;
use crate::decrypt::match_buffer_new;
use crate::decrypt::match_buffer_to_vec;
use crate::decrypt::password_matches_unrolled;
use crate::decrypt::spec_all_match;
use crate::decrypt::spec_block_matches;
use crate::decrypt::spec_chunk_flat;
use crate::decrypt::spec_chunk_matches_upto;
use crate::decrypt::spec_matches;
use crate::decrypt::spec_update_keys;
use crate::decrypt::Crc32Table;
use crate::decrypt::EncryptionData;
use crate::decrypt::PasswordBlock;

verus! {

/// The last characters among the first `n` lanes of `chunk` that extend the
/// prefix keyed to `keys` into a match for every entry, in lane order.
pub open spec fn spec_multi_upto(
    eds: Seq<EncryptionData>,
    keys: (u32, u32, u32),
    chunk: [u8; 8],
    n: nat,
) -> Seq<u8>
    decreases n,
{
    if n == 0 {
        Seq::empty()
    } else {
        let prev = spec_multi_upto(eds, keys, chunk, (n - 1) as nat);
        if spec_all_match(eds, spec_update_keys(keys, chunk[n - 1])) {
            prev.push(chunk[n - 1])
        } else {
            prev
        }
    }
}

/// The all-entries matching last characters over a whole chunk sequence.
pub open spec fn spec_multi_block(
    eds: Seq<EncryptionData>,
    keys: (u32, u32, u32),
    chunks: Seq<[u8; 8]>,
) -> Seq<u8>
    decreases chunks.len(),
{
    if chunks.len() == 0 {
        Seq::empty()
    } else {
        spec_multi_block(eds, keys, chunks.drop_last()) + spec_multi_upto(
            eds,
            keys,
            chunks.last(),
            8,
        )
    }
}

/// The elements of `s` whose value also occurs in `o`, in order.
pub open spec fn spec_keep(s: Seq<u8>, o: Seq<u8>) -> Seq<u8>
    decreases s.len(),
{
    if s.len() == 0 {
        Seq::empty()
    } else {
        spec_keep(s.drop_last(), o) + (if o.contains(s.last()) {
            seq![s.last()]
        } else {
            Seq::<u8>::empty()
        })
    }
}

/// `s` with every repeated value removed, keeping first occurrences.
pub open spec fn spec_dedup(s: Seq<u8>) -> Seq<u8>
    decreases s.len(),
{
    if s.len() == 0 {
        Seq::empty()
    } else {
        spec_dedup(s.drop_last()) + (if s.drop_last().contains(s.last()) {
            Seq::<u8>::empty()
        } else {
            seq![s.last()]
        })
    }
}

/// The confirmed passwords of one block: the prefix extended by each last
/// character that every entry accepts, duplicates from chunk padding
/// removed. With no entries nothing is confirmed.
pub open spec fn spec_with_prefix(prefix: Seq<u8>, chars: Seq<u8>) -> Seq<Seq<u8>> {
    Seq::new(chars.len(), |i: int| prefix.push(chars[i]))
}

pub open spec fn spec_block_hits(
    eds: Seq<EncryptionData>,
    keys: (u32, u32, u32),
    chunks: Seq<[u8; 8]>,
    prefix: Seq<u8>,
) -> Seq<Seq<u8>> {
    if eds.len() == 0 {
        Seq::empty()
    } else {
        spec_with_prefix(prefix, spec_dedup(spec_multi_block(eds, keys, chunks)))
    }
}

/// A key state matches all of `eds.push(ed)` exactly when it matches all of
/// `eds` and also `ed`.
pub proof fn lemma_all_match_push(eds: Seq<EncryptionData>, ed: EncryptionData, keys: (u32, u32, u32))
    ensures
        spec_all_match(eds.push(ed), keys) <==> (spec_all_match(eds, keys) && spec_matches(
            ed,
            keys,
        )),
{
    if spec_all_match(eds.push(ed), keys) {
        assert(eds.push(ed)[eds.len() as int] == ed);
        assert forall|i: int| 0 <= i < eds.len() implies spec_matches(eds[i], keys) by {
            assert(eds.push(ed)[i] == eds[i]);
        }
    }
    if spec_all_match(eds, keys) && spec_matches(ed, keys) {
        assert forall|i: int| 0 <= i < eds.push(ed).len() implies spec_matches(
            eds.push(ed)[i],
            keys,
        ) by {
            if i < eds.len() {
                assert(eds.push(ed)[i] == eds[i]);
            }
        }
    }
}

/// With a single entry the all-entries match list is that entry's list.
pub proof fn lemma_multi_single(ed: EncryptionData, keys: (u32, u32, u32), chunks: Seq<[u8; 8]>)
    ensures
        spec_multi_block(seq![ed], keys, chunks) == spec_block_matches(ed, keys, chunks),
    decreases chunks.len(),
{
    assert forall|k: (u32, u32, u32)| spec_all_match(seq![ed], k) == spec_matches(ed, k) by {
        assert(seq![ed][0] == ed);
    }
    if chunks.len() > 0 {
        lemma_multi_single(ed, keys, chunks.drop_last());
        assert forall|n: nat|
            n <= 8 implies spec_multi_upto(seq![ed], keys, chunks.last(), n)
            == spec_chunk_matches_upto(ed, keys, chunks.last(), n) by {
            lemma_multi_upto_single(ed, keys, chunks.last(), n);
        }
    }
}

proof fn lemma_multi_upto_single(ed: EncryptionData, keys: (u32, u32, u32), chunk: [u8; 8], n: nat)
    ensures
        spec_multi_upto(seq![ed], keys, chunk, n) == spec_chunk_matches_upto(ed, keys, chunk, n),
    decreases n,
{
    assert(seq![ed][0] == ed);
    if n > 0 {
        lemma_multi_upto_single(ed, keys, chunk, (n - 1) as nat);
        assert(spec_all_match(seq![ed], spec_update_keys(keys, chunk[n - 1])) == spec_matches(
            ed,
            spec_update_keys(keys, chunk[n - 1]),
        ));
    }
}

/// Keeping distributes over concatenation.
pub proof fn lemma_keep_concat(s1: Seq<u8>, s2: Seq<u8>, o: Seq<u8>)
    ensures
        spec_keep(s1 + s2, o) == spec_keep(s1, o) + spec_keep(s2, o),
    decreases s2.len(),
{
    if s2.len() == 0 {
        assert(s1 + s2 =~= s1);
        assert(spec_keep(s1, o) + spec_keep(s2, o) =~= spec_keep(s1, o));
    } else {
        lemma_keep_concat(s1, s2.drop_last(), o);
        assert((s1 + s2).drop_last() =~= s1 + s2.drop_last());
        assert((s1 + s2).last() == s2.last());
        assert(spec_keep(s1, o) + spec_keep(s2, o) =~= (spec_keep(s1, o) + spec_keep(
            s2.drop_last(),
            o,
        )) + (if o.contains(s2.last()) {
            seq![s2.last()]
        } else {
            Seq::<u8>::empty()
        }));
    }
}

/// Every lane of every chunk occurs in the flattened chunk sequence.
pub proof fn lemma_flat_has_lane(chunks: Seq<[u8; 8]>, j: int, l: int)
    requires
        0 <= j < chunks.len(),
        0 <= l < 8,
    ensures
        spec_chunk_flat(chunks).contains(chunks[j][l]),
    decreases chunks.len(),
{
    let c = chunks[j][l];
    if j == chunks.len() - 1 {
        assert(chunks.last()@[l] == c);
        assert(chunks.last()@.contains(c));
        lemma_concat_contains(spec_chunk_flat(chunks.drop_last()), chunks.last()@, c);
    } else {
        lemma_flat_has_lane(chunks.drop_last(), j, l);
        assert(chunks.drop_last()[j] == chunks[j]);
        lemma_concat_contains(spec_chunk_flat(chunks.drop_last()), chunks.last()@, c);
    }
}

/// Filtering the all-entries match list by membership in one more entry's
/// match list yields the match list with that entry adjoined.
pub proof fn lemma_keep_block(
    eds: Seq<EncryptionData>,
    ed2: EncryptionData,
    keys: (u32, u32, u32),
    chunks: Seq<[u8; 8]>,
)
    ensures
        spec_keep(spec_multi_block(eds, keys, chunks), spec_block_matches(ed2, keys, chunks))
            == spec_multi_block(eds.push(ed2), keys, chunks),
    decreases chunks.len(),
{
    if chunks.len() > 0 {
        lemma_keep_block(eds, ed2, keys, chunks.drop_last());
        let o = spec_block_matches(ed2, keys, chunks);
        let o1 = spec_block_matches(ed2, keys, chunks.drop_last());
        lemma_keep_concat(
            spec_multi_block(eds, keys, chunks.drop_last()),
            spec_multi_upto(eds, keys, chunks.last(), 8),
            o,
        );
        // The two membership tests agree on what the lanes can offer, so
        // filtering against the full match list equals filtering against
        // the shorter one.
        lemma_keep_upto(eds, ed2, keys, chunks, 8);
        lemma_keep_same_on_prefix(eds, ed2, keys, chunks);
    }
}

/// Over the lanes of the final chunk, keeping by the adjoined entry's match
/// list is adjoining the entry.
proof fn lemma_keep_upto(
    eds: Seq<EncryptionData>,
    ed2: EncryptionData,
    keys: (u32, u32, u32),
    chunks: Seq<[u8; 8]>,
    n: nat,
)
    requires
        chunks.len() > 0,
        n <= 8,
    ensures
        spec_keep(
            spec_multi_upto(eds, keys, chunks.last(), n),
            spec_block_matches(ed2, keys, chunks),
        ) == spec_multi_upto(eds.push(ed2), keys, chunks.last(), n),
    decreases n,
{
    if n > 0 {
        lemma_keep_upto(eds, ed2, keys, chunks, (n - 1) as nat);
        let chunk = chunks.last();
        let c = chunk[n - 1];
        let k2 = spec_update_keys(keys, c);
        let o = spec_block_matches(ed2, keys, chunks);
        let prev = spec_multi_upto(eds, keys, chunk, (n - 1) as nat);
        lemma_unrolled_matches_scalar(ed2, keys, chunks, c);
        lemma_flat_has_lane(chunks, chunks.len() - 1, n - 1);
        lemma_all_match_push(eds, ed2, k2);
        if spec_all_match(eds, k2) {
            assert(prev.push(c).drop_last() =~= prev);
            assert(spec_keep(prev.push(c), o) == spec_keep(prev, o) + (if o.contains(c) {
                seq![c]
            } else {
                Seq::<u8>::empty()
            }));
            if !o.contains(c) {
                assert(spec_keep(prev, o) + Seq::<u8>::empty() =~= spec_keep(prev, o));
            }
        }
    }
}

/// Keeping by the full match list and by the list of all but the final
/// chunk agree on the final chunk's earlier lanes' output; stated for the
/// prefix part of the block.
proof fn lemma_keep_same_on_prefix(
    eds: Seq<EncryptionData>,
    ed2: EncryptionData,
    keys: (u32, u32, u32),
    chunks: Seq<[u8; 8]>,
)
    requires
        chunks.len() > 0,
    ensures
        spec_keep(
            spec_multi_block(eds, keys, chunks.drop_last()),
            spec_block_matches(ed2, keys, chunks),
        ) == spec_keep(
            spec_multi_block(eds, keys, chunks.drop_last()),
            spec_block_matches(ed2, keys, chunks.drop_last()),
        ),
{
    let s = spec_multi_block(eds, keys, chunks.drop_last());
    assert forall|i: int|
        0 <= i < s.len() implies spec_chunk_flat(chunks.drop_last()).contains(#[trigger] s[i]) by {
        lemma_multi_block_in_flat(eds, keys, chunks.drop_last(), i);
    }
    lemma_keep_agrees(
        s,
        spec_block_matches(ed2, keys, chunks),
        spec_block_matches(ed2, keys, chunks.drop_last()),
        eds,
        ed2,
        keys,
        chunks,
    );
}

/// Membership in the two match lists coincides for every character the
/// earlier chunks can emit, so keeping by either list is the same.
proof fn lemma_keep_agrees(
    s: Seq<u8>,
    o1: Seq<u8>,
    o2: Seq<u8>,
    eds: Seq<EncryptionData>,
    ed2: EncryptionData,
    keys: (u32, u32, u32),
    chunks: Seq<[u8; 8]>,
)
    requires
        chunks.len() > 0,
        o1 == spec_block_matches(ed2, keys, chunks),
        o2 == spec_block_matches(ed2, keys, chunks.drop_last()),
        forall|i: int|
            0 <= i < s.len() ==> spec_chunk_flat(chunks.drop_last()).contains(#[trigger] s[i]),
    ensures
        spec_keep(s, o1) == spec_keep(s, o2),
    decreases s.len(),
{
    if s.len() > 0 {
        lemma_keep_agrees(s.drop_last(), o1, o2, eds, ed2, keys, chunks);
        let c = s.last();
        assert(spec_chunk_flat(chunks.drop_last()).contains(c)) by {
            assert(s[s.len() - 1] == c);
        }
        lemma_unrolled_matches_scalar(ed2, keys, chunks, c);
        lemma_unrolled_matches_scalar(ed2, keys, chunks.drop_last(), c);
        assert(spec_chunk_flat(chunks).contains(c)) by {
            lemma_concat_contains(spec_chunk_flat(chunks.drop_last()), chunks.last()@, c);
        }
        assert(o1.contains(c) == o2.contains(c));
        assert(forall|i: int| 0 <= i < s.len() - 1 ==> s.drop_last()[i] == s[i]);
    }
}

/// Every element of the all-entries match list comes from the flattened
/// earlier chunks, as `lemma_keep_agrees` expects.
pub proof fn lemma_multi_block_in_flat(
    eds: Seq<EncryptionData>,
    keys: (u32, u32, u32),
    chunks: Seq<[u8; 8]>,
    i: int,
)
    requires
        0 <= i < spec_multi_block(eds, keys, chunks).len(),
    ensures
        spec_chunk_flat(chunks).contains(spec_multi_block(eds, keys, chunks)[i]),
    decreases chunks.len(),
{
    let s = spec_multi_block(eds, keys, chunks);
    if chunks.len() > 0 {
        let s1 = spec_multi_block(eds, keys, chunks.drop_last());
        let s2 = spec_multi_upto(eds, keys, chunks.last(), 8);
        if i < s1.len() {
            lemma_multi_block_in_flat(eds, keys, chunks.drop_last(), i);
            let c = s1[i];
            lemma_concat_contains(spec_chunk_flat(chunks.drop_last()), chunks.last()@, c);
            assert(s[i] == c);
        } else {
            lemma_multi_upto_in_chunk(eds, keys, chunks.last(), 8, i - s1.len());
            let c = s2[i - s1.len()];
            let l = choose|l: int| 0 <= l < 8 && chunks.last()[l] == c;
            lemma_flat_has_lane(chunks, chunks.len() - 1, l);
            assert(s[i] == c);
        }
    }
}

proof fn lemma_multi_upto_in_chunk(
    eds: Seq<EncryptionData>,
    keys: (u32, u32, u32),
    chunk: [u8; 8],
    n: nat,
    i: int,
)
    requires
        n <= 8,
        0 <= i < spec_multi_upto(eds, keys, chunk, n).len(),
    ensures
        exists|l: int| 0 <= l < 8 && chunk[l] == spec_multi_upto(eds, keys, chunk, n)[i],
    decreases n,
{
    let s = spec_multi_upto(eds, keys, chunk, n);
    let prev = spec_multi_upto(eds, keys, chunk, (n - 1) as nat);
    if i < prev.len() {
        lemma_multi_upto_in_chunk(eds, keys, chunk, (n - 1) as nat, i);
        assert(s[i] == prev[i]);
    } else {
        assert(chunk[n - 1] == s[i]);
    }
}

/// Deduplication keeps exactly the values of the sequence it came from.
pub proof fn lemma_dedup_contains(s: Seq<u8>, b: u8)
    ensures
        spec_dedup(s).contains(b) <==> s.contains(b),
    decreases s.len(),
{
    if s.len() > 0 {
        lemma_dedup_contains(s.drop_last(), b);
        let d1 = spec_dedup(s.drop_last());
        let tailseq = if s.drop_last().contains(s.last()) {
            Seq::<u8>::empty()
        } else {
            seq![s.last()]
        };
        lemma_concat_contains(d1, tailseq, b);
        if s.last() == b {
            assert(s.contains(b)) by {
                assert(s[s.len() - 1] == b);
            }
            if !s.drop_last().contains(b) {
                assert(tailseq[0] == b);
            }
        }
        assert forall|i: int| 0 <= i < s.len() - 1 implies s.drop_last()[i] == s[i] by {}
        if s.contains(b) && s.last() != b {
            let i = choose|i: int| 0 <= i < s.len() && s[i] == b;
            assert(s.drop_last()[i] == b);
        }
        if s.drop_last().contains(b) {
            let i = choose|i: int| 0 <= i < s.len() - 1 && s.drop_last()[i] == b;
            assert(s[i] == b);
        }
    }
}

/// The alphabet padded to a multiple of eight by repeating its last letter:
/// what the chunked alphabet offers, flattened.
pub open spec fn spec_padded(a: Seq<u8>) -> Seq<u8> {
    a + Seq::new((8 * ((a.len() + 7) / 8) - a.len()) as nat, |i: int| a.last())
}

/// The characters of `s` that extend the prefix keyed to `keys` into a
/// match for every entry, in order.
pub open spec fn spec_matching_in(
    s: Seq<u8>,
    eds: Seq<EncryptionData>,
    keys: (u32, u32, u32),
) -> Seq<u8>
    decreases s.len(),
{
    if s.len() == 0 {
        Seq::empty()
    } else {
        spec_matching_in(s.drop_last(), eds, keys) + (if spec_all_match(
            eds,
            spec_update_keys(keys, s.last()),
        ) {
            seq![s.last()]
        } else {
            Seq::<u8>::empty()
        })
    }
}

/// Filtering by the all-entries match distributes over concatenation.
pub proof fn lemma_matching_in_concat(
    s1: Seq<u8>,
    s2: Seq<u8>,
    eds: Seq<EncryptionData>,
    keys: (u32, u32, u32),
)
    ensures
        spec_matching_in(s1 + s2, eds, keys) == spec_matching_in(s1, eds, keys)
            + spec_matching_in(s2, eds, keys),
    decreases s2.len(),
{
    if s2.len() == 0 {
        assert(s1 + s2 =~= s1);
        assert(spec_matching_in(s1, eds, keys) + spec_matching_in(s2, eds, keys)
            =~= spec_matching_in(s1, eds, keys));
    } else {
        lemma_matching_in_concat(s1, s2.drop_last(), eds, keys);
        assert((s1 + s2).drop_last() =~= s1 + s2.drop_last());
        assert((s1 + s2).last() == s2.last());
        assert(spec_matching_in(s1, eds, keys) + spec_matching_in(s2, eds, keys)
            =~= (spec_matching_in(s1, eds, keys) + spec_matching_in(s2.drop_last(), eds, keys)) + (
        if spec_all_match(eds, spec_update_keys(keys, s2.last())) {
            seq![s2.last()]
        } else {
            Seq::<u8>::empty()
        }));
    }
}

proof fn lemma_multi_upto_is_matching_take(
    eds: Seq<EncryptionData>,
    keys: (u32, u32, u32),
    chunk: [u8; 8],
    n: nat,
)
    requires
        n <= 8,
    ensures
        spec_multi_upto(eds, keys, chunk, n) == spec_matching_in(chunk@.take(n as int), eds, keys),
    decreases n,
{
    if n > 0 {
        lemma_multi_upto_is_matching_take(eds, keys, chunk, (n - 1) as nat);
        assert(chunk@.take(n as int).drop_last() =~= chunk@.take(n - 1));
        assert(chunk@.take(n as int).last() == chunk[n - 1]);
    }
}

/// The all-entries match list over chunks is the filter of the flattened
/// chunks.
pub proof fn lemma_multi_block_is_matching_flat(
    eds: Seq<EncryptionData>,
    keys: (u32, u32, u32),
    chunks: Seq<[u8; 8]>,
)
    ensures
        spec_multi_block(eds, keys, chunks) == spec_matching_in(
            spec_chunk_flat(chunks),
            eds,
            keys,
        ),
    decreases chunks.len(),
{
    if chunks.len() > 0 {
        lemma_multi_block_is_matching_flat(eds, keys, chunks.drop_last());
        lemma_multi_upto_is_matching_take(eds, keys, chunks.last(), 8);
        assert(chunks.last()@.take(8) =~= chunks.last()@);
        lemma_matching_in_concat(spec_chunk_flat(chunks.drop_last()), chunks.last()@, eds, keys);
    }
}

/// The flattened chunks have eight letters per chunk.
pub proof fn lemma_flat_len(chunks: Seq<[u8; 8]>)
    ensures
        spec_chunk_flat(chunks).len() == 8 * chunks.len(),
    decreases chunks.len(),
{
    if chunks.len() > 0 {
        lemma_flat_len(chunks.drop_last());
    }
}

/// Letter `8j + l` of the flattened chunks is lane `l` of chunk `j`.
pub proof fn lemma_flat_index(chunks: Seq<[u8; 8]>, j: int, l: int)
    requires
        0 <= j < chunks.len(),
        0 <= l < 8,
    ensures
        spec_chunk_flat(chunks).len() == 8 * chunks.len(),
        spec_chunk_flat(chunks)[8 * j + l] == chunks[j][l],
    decreases chunks.len(),
{
    lemma_flat_len(chunks);
    lemma_flat_len(chunks.drop_last());
    if j == chunks.len() - 1 {
        assert(spec_chunk_flat(chunks)[8 * j + l] == chunks.last()@[l]);
    } else {
        lemma_flat_index(chunks.drop_last(), j, l);
        assert(chunks.drop_last()[j] == chunks[j]);
    }
}

/// The flattened chunked alphabet is the alphabet padded by its last
/// letter.
pub proof fn lemma_flat_of_chunked(a: Seq<u8>, chunks: Seq<[u8; 8]>)
    requires
        0 < a.len(),
        chunks.len() == (a.len() + 7) / 8,
        forall|j: int, l: int|
            0 <= j < chunks.len() && 0 <= l < 8 && 8 * j + l < a.len()
                ==> #[trigger] crate::password_iter::spec_lane(chunks, j, l) == a[8 * j + l],
        forall|j: int, l: int|
            0 <= j < chunks.len() && 0 <= l < 8 && 8 * j + l >= a.len()
                ==> #[trigger] crate::password_iter::spec_lane(chunks, j, l) == a[a.len() - 1],
    ensures
        spec_chunk_flat(chunks) == spec_padded(a),
{
    lemma_flat_len(chunks);
    let flat = spec_chunk_flat(chunks);
    let padded = spec_padded(a);
    assert(8 * ((a.len() + 7) / 8) >= a.len()) by {
        let la = a.len() as int;
        vstd::arithmetic::div_mod::lemma_fundamental_div_mod(la + 7, 8);
        vstd::arithmetic::div_mod::lemma_mod_bound(la + 7, 8);
    }
    assert forall|i: int| 0 <= i < flat.len() implies flat[i] == padded[i] by {
        vstd::arithmetic::div_mod::lemma_fundamental_div_mod(i, 8);
        vstd::arithmetic::div_mod::lemma_mod_bound(i, 8);
        let j = i / 8;
        let l = i % 8;
        assert(0 <= j < chunks.len()) by (nonlinear_arith)
            requires
                i == 8 * j + l,
                0 <= l < 8,
                0 <= i < 8 * chunks.len(),
        ;
        lemma_flat_index(chunks, j, l);
        assert(crate::password_iter::spec_lane(chunks, j, l) == chunks[j][l]);
    }
    assert(flat =~= padded);
}

/// Deduplicating a sequence followed by repeats of a value it already holds
/// gives the deduplication of the sequence itself.
proof fn lemma_dedup_absorb_pad(s: Seq<u8>, pad: Seq<u8>)
    requires
        forall|i: int| 0 <= i < pad.len() ==> s.contains(#[trigger] pad[i]),
    ensures
        spec_dedup(s + pad) == spec_dedup(s),
    decreases pad.len(),
{
    if pad.len() == 0 {
        assert(s + pad =~= s);
    } else {
        lemma_dedup_absorb_pad(s, pad.drop_last());
        assert(forall|i: int| 0 <= i < pad.len() - 1 ==> pad.drop_last()[i] == pad[i]);
        assert((s + pad).drop_last() =~= s + pad.drop_last());
        assert((s + pad).last() == pad.last());
        assert(s.contains(pad.last())) by {
            assert(pad[pad.len() - 1] == pad.last());
        }
        assert((s + pad.drop_last()).contains(pad.last())) by {
            lemma_concat_contains(s, pad.drop_last(), pad.last());
        }
        assert(spec_dedup(s + pad.drop_last()) + Seq::<u8>::empty() =~= spec_dedup(
            s + pad.drop_last(),
        ));
    }
}

/// A duplicate-free sequence is its own deduplication.
proof fn lemma_dedup_distinct(s: Seq<u8>)
    requires
        forall|x: int, y: int| 0 <= x < y < s.len() ==> s[x] != s[y],
    ensures
        spec_dedup(s) == s,
    decreases s.len(),
{
    if s.len() > 0 {
        assert(forall|x: int, y: int|
            0 <= x < y < s.len() - 1 ==> s.drop_last()[x] != s.drop_last()[y]);
        lemma_dedup_distinct(s.drop_last());
        if s.drop_last().contains(s.last()) {
            let i = choose|i: int| 0 <= i < s.len() - 1 && s.drop_last()[i] == s.last();
            assert(s[i] == s[s.len() - 1]);
            assert(false);
        }
        assert(s.drop_last() + seq![s.last()] =~= s);
    }
}

/// Duplicate suppression: deduplicating the padded alphabet that the chunk
/// expansion offers restores the alphabet itself, so the block-expanded
/// emission, after deduplication, equals the plain emission one character
/// longer.
pub proof fn lemma_dedup_expansion(a: Seq<u8>)
    requires
        0 < a.len(),
        forall|x: int, y: int| 0 <= x < y < a.len() ==> a[x] != a[y],
    ensures
        spec_dedup(spec_padded(a)) == a,
{
    let pad = Seq::new((8 * ((a.len() + 7) / 8) - a.len()) as nat, |i: int| a.last());
    assert forall|i: int| 0 <= i < pad.len() implies a.contains(#[trigger] pad[i]) by {
        assert(a[a.len() - 1] == a.last());
    }
    lemma_dedup_absorb_pad(a, pad);
    lemma_dedup_distinct(a);
}

/// The confirmed passwords of one block, phrased over the padded alphabet
/// instead of the chunk sequence.
pub open spec fn spec_block_hits_flat(
    eds: Seq<EncryptionData>,
    keys: (u32, u32, u32),
    padded: Seq<u8>,
    prefix: Seq<u8>,
) -> Seq<Seq<u8>> {
    if eds.len() == 0 {
        Seq::empty()
    } else {
        spec_with_prefix(prefix, spec_dedup(spec_matching_in(padded, eds, keys)))
    }
}

/// The fingerprints of the encrypted local files among the records, in
/// order: the 12-byte encryption preamble and the last-modification time
/// whose bytes the decrypted preamble must end in. Plain entries and other
/// record kinds contribute nothing.
pub open spec fn spec_encryption_data(records: Seq<crate::zipfile::Record>) -> Seq<EncryptionData>
    decreases records.len(),
{
    if records.len() == 0 {
        Seq::empty()
    } else {
        spec_encryption_data(records.drop_last()) + (match records.last() {
            crate::zipfile::Record::LocalFile(lf) => {
                match lf.encryption_header {
                    Some(eh) => seq![
                        EncryptionData {
                            encryption_header: eh.bytes,
                            last_mod_file_time: lf.local_file_header.last_mod_file_time,
                        },
                    ],
                    None => Seq::empty(),
                }
            },
            _ => Seq::empty(),
        })
    }
}

/// Extracts the fingerprint of every encrypted entry from the parsed
/// archive.
#[verifier::loop_isolation(false)]
pub fn get_encryption_data(zipfile: &Vec<crate::zipfile::Record>) -> (r: Vec<EncryptionData>)
    ensures
        r@ == spec_encryption_data(zipfile@),
{
    let mut r: Vec<EncryptionData> = Vec::new();
    let mut i: usize = 0;
    while i < zipfile.len()
        invariant
            i <= zipfile@.len(),
            r@ == spec_encryption_data(zipfile@.take(i as int)),
        decreases zipfile@.len() - i,
    {
        match zipfile[i].get_local_file() {
            Some(lf) => {
                match &lf.encryption_header {
                    Some(eh) => {
                        r.push(
                            EncryptionData {
                                encryption_header: eh.bytes,
                                last_mod_file_time: lf.local_file_header.last_mod_file_time,
                            },
                        );
                    },
                    None => {},
                }
            },
            None => {},
        }
        i += 1;
        proof {
            assert(zipfile@.take(i as int).drop_last() =~= zipfile@.take(i - 1));
            assert(zipfile@.take(i as int).last() == zipfile@[i - 1]);
            assert(r@ =~= spec_encryption_data(zipfile@.take(i as int)));
        }
    }
    proof {
        assert(zipfile@.take(zipfile@.len() as int) =~= zipfile@);
    }
    r
}

/// Whether a byte occurs in a vector.
fn vec_contains(v: &Vec<u8>, c: u8) -> (r: bool)
    ensures
        r == v@.contains(c),
{
    let mut i: usize = 0;
    while i < v.len()
        invariant
            i <= v@.len(),
            forall|k: int| 0 <= k < i ==> v@[k] != c,
        decreases v@.len() - i,
    {
        if v[i] == c {
            return true;
        }
        i += 1;
    }
    false
}

/// The elements of `prev` that also occur in `other`, in order: the
/// intersection step of the multi-entry consensus.
#[verifier::loop_isolation(false)]
fn keep_contained(prev: &Vec<u8>, other: &Vec<u8>) -> (r: Vec<u8>)
    ensures
        r@ == spec_keep(prev@, other@),
{
    let mut r: Vec<u8> = Vec::new();
    let mut i: usize = 0;
    while i < prev.len()
        invariant
            i <= prev@.len(),
            r@ == spec_keep(prev@.take(i as int), other@),
        decreases prev@.len() - i,
    {
        let c = prev[i];
        let ghost before = prev@.take(i as int);
        if vec_contains(other, c) {
            r.push(c);
        }
        i += 1;
        proof {
            assert(prev@.take(i as int).drop_last() =~= before);
            assert(prev@.take(i as int).last() == c);
            if other@.contains(c) {
                assert(r@ =~= spec_keep(before, other@) + seq![c]);
            } else {
                assert(r@ =~= spec_keep(before, other@) + Seq::<u8>::empty());
            }
        }
    }
    proof {
        assert(prev@.take(prev@.len() as int) =~= prev@);
    }
    r
}

/// Removes repeated values, keeping first occurrences: the pass that undoes
/// the duplicates the chunk padding introduced.
#[verifier::loop_isolation(false)]
fn dedup_chars(v: &Vec<u8>) -> (r: Vec<u8>)
    ensures
        r@ == spec_dedup(v@),
{
    let mut r: Vec<u8> = Vec::new();
    let mut i: usize = 0;
    while i < v.len()
        invariant
            i <= v@.len(),
            r@ == spec_dedup(v@.take(i as int)),
        decreases v@.len() - i,
    {
        let c = v[i];
        let ghost before = v@.take(i as int);
        proof {
            assert forall|b: u8| r@.contains(b) <==> #[trigger] before.contains(b) by {
                lemma_dedup_contains(before, b);
            }
        }
        if !vec_contains(&r, c) {
            r.push(c);
        }
        i += 1;
        proof {
            assert(v@.take(i as int).drop_last() =~= before);
            assert(v@.take(i as int).last() == c);
            if before.contains(c) {
                assert(r@ =~= spec_dedup(before) + Seq::<u8>::empty());
            } else {
                assert(r@ =~= spec_dedup(before) + seq![c]);
            }
        }
    }
    proof {
        assert(v@.take(v@.len() as int) =~= v@);
    }
    r
}

/// A copy of a byte slice.
fn clone_slice(s: &[u8]) -> (r: Vec<u8>)
    ensures
        r@ == s@,
{
    let mut r: Vec<u8> = Vec::new();
    let mut i: usize = 0;
    while i < s.len()
        invariant
            i <= s@.len(),
            r@ =~= s@.take(i as int),
        decreases s@.len() - i,
    {
        r.push(s[i]);
        i += 1;
    }
    proof {
        assert(s@.take(s@.len() as int) =~= s@);
    }
    r
}

/// Tests one password block against every entry: the unrolled check runs
/// once per entry, the per-entry match lists are intersected, the padding
/// duplicates are removed, and each surviving last character is appended to
/// the prefix.
#[verifier::loop_isolation(false)]
pub fn block_matching_passwords(
    table: &Crc32Table,
    password_block: PasswordBlock<'_>,
    eds: &Vec<EncryptionData>,
) -> (r: Vec<Vec<u8>>)
    requires
        table.wf(),
        8 * password_block.alphabet@.len() <= 256,
    ensures
        r.deep_view() == spec_block_hits(
            eds@,
            keys_view(password_block.initialized_keys),
            password_block.alphabet@,
            password_block.password_prefix@,
        ),
{
    let ghost keys = keys_view(password_block.initialized_keys);
    let ghost chunks = password_block.alphabet@;
    if eds.len() == 0 {
        let r: Vec<Vec<u8>> = Vec::new();
        proof {
            assert(r.deep_view() =~~= spec_block_hits(
                eds@,
                keys,
                chunks,
                password_block.password_prefix@,
            ));
        }
        return r;
    }
    let mut buf = match_buffer_new();
    password_matches_unrolled(table, password_block, eds[0], &mut buf);
    let mut chars = match_buffer_to_vec(&buf);
    proof {
        lemma_multi_single(eds@[0], keys, chunks);
        assert(eds@.take(1) =~= seq![eds@[0]]);
    }
    let mut i: usize = 1;
    while i < eds.len()
        invariant
            1 <= i <= eds@.len(),
            chars@ == spec_multi_block(eds@.take(i as int), keys, chunks),
        decreases eds@.len() - i,
    {
        let mut buf2 = match_buffer_new();
        password_matches_unrolled(table, password_block, eds[i], &mut buf2);
        let other = match_buffer_to_vec(&buf2);
        chars = keep_contained(&chars, &other);
        proof {
            lemma_keep_block(eds@.take(i as int), eds@[i as int], keys, chunks);
            assert(eds@.take(i as int).push(eds@[i as int]) =~= eds@.take(i + 1));
        }
        i += 1;
    }
    proof {
        assert(eds@.take(eds@.len() as int) =~= eds@);
    }
    let deduped = dedup_chars(&chars);
    let mut out: Vec<Vec<u8>> = Vec::new();
    let mut k: usize = 0;
    while k < deduped.len()
        invariant
            k <= deduped@.len(),
            out.deep_view() =~~= spec_with_prefix(
                password_block.password_prefix@,
                spec_dedup(spec_multi_block(eds@, keys, chunks)).take(k as int),
            ),
        decreases deduped@.len() - k,
    {
        let ghost deep_old = out.deep_view();
        let mut pw = clone_slice(password_block.password_prefix);
        pw.push(deduped[k]);
        out.push(pw);
        k += 1;
        proof {
            assert(out.deep_view() =~~= deep_old + seq![pw@]);
            assert(out.deep_view() =~~= spec_with_prefix(
                password_block.password_prefix@,
                spec_dedup(spec_multi_block(eds@, keys, chunks)).take(k as int),
            ));
        }
    }
    proof {
        let dd = spec_dedup(spec_multi_block(eds@, keys, chunks));
        assert(dd.take(dd.len() as int) =~= dd);
        assert(out.deep_view() =~~= spec_block_hits(
            eds@,
            keys,
            chunks,
            password_block.password_prefix@,
        ));
    }
    out
}

/// The hits of the scalar shards `0` to `n - 1`, in shard order.
pub open spec fn spec_crack_hits(
    opt: &crate::opt::Opt,
    eds: Seq<EncryptionData>,
    n: int,
) -> Seq<Seq<u8>>
    decreases n,
{
    if n <= 0 {
        Seq::empty()
    } else {
        spec_crack_hits(opt, eds, n - 1) + crate::password_iter::spec_shard_hits(
            opt,
            (n - 1) as u8,
            eds,
            crate::password_iter::spec_shard_count(opt, (n - 1) as u8),
        )
    }
}

/// How many candidates the scalar shards `0` to `n - 1` attempt in all.
pub open spec fn spec_crack_count(opt: &crate::opt::Opt, n: int) -> int
    decreases n,
{
    if n <= 0 {
        0
    } else {
        spec_crack_count(opt, n - 1) + crate::password_iter::spec_shard_count(opt, (n - 1) as u8)
    }
}

/// The hits of the unrolled shards `0` to `n - 1`, in shard order.
pub open spec fn spec_crack_unrolled_hits(
    opt: &crate::opt::Opt,
    eds: Seq<EncryptionData>,
    n: int,
) -> Seq<Seq<u8>>
    decreases n,
{
    if n <= 0 {
        Seq::empty()
    } else {
        spec_crack_unrolled_hits(opt, eds, n - 1) + crate::password_iter::spec_unrolled_hits(
            opt,
            (n - 1) as u8,
            eds,
            crate::password_iter::spec_unrolled_count(opt, (n - 1) as u8),
        )
    }
}

/// How many candidates the unrolled shards `0` to `n - 1` attempt in all,
/// one attempt per alphabet letter of every block.
pub open spec fn spec_crack_unrolled_count(opt: &crate::opt::Opt, n: int) -> int
    decreases n,
{
    if n <= 0 {
        0
    } else {
        spec_crack_unrolled_count(opt, n - 1) + crate::password_iter::spec_unrolled_count(
            opt,
            (n - 1) as u8,
        ) * opt.alphabet.0@.len()
    }
}

/// The scalar driver facade: extracts the fingerprints from the parsed
/// archive and runs every shard of the scalar search in turn, gathering the
/// shards' counters and hits. (A program may instead give each shard its
/// own worker thread; each shard's outcome is as stated here.)
#[verifier::loop_isolation(false)]
pub fn crack(opt: &crate::opt::Opt, zipfile: &Vec<crate::zipfile::Record>) -> (info: crate::info::InfoData)
    requires
        opt.wf(),
    ensures
        info.counter == crate::password_iter::spec_wrap_add64(
            0,
            spec_crack_count(opt, opt.num_threads as int),
        ),
        info.found_passwords.deep_view() == spec_crack_hits(
            opt,
            spec_encryption_data(zipfile@),
            opt.num_threads as int,
        ),
{
    let eds = get_encryption_data(zipfile);
    let mut info = crate::info::InfoData::new();
    let mut idx: u8 = 0;
    proof {
        vstd::arithmetic::div_mod::lemma_small_mod(0nat, 0x1_0000_0000_0000_0000nat);
    }
    while idx < opt.num_threads
        invariant
            idx <= opt.num_threads,
            info.counter == crate::password_iter::spec_wrap_add64(
                0,
                spec_crack_count(opt, idx as int),
            ),
            info.found_passwords.deep_view() == spec_crack_hits(opt, eds@, idx as int),
        decreases opt.num_threads - idx,
    {
        let ghost count_before = spec_crack_count(opt, idx as int);
        crate::password_iter::test_each_password(opt, &mut info, idx, &eds);
        proof {
            crate::password_iter::lemma_shard_count_nonneg(opt, idx);
            lemma_crack_count_nonneg(opt, idx as int);
            crate::password_iter::lemma_wrap_add_compose(
                0,
                count_before,
                crate::password_iter::spec_shard_count(opt, idx),
            );
        }
        idx += 1;
        proof {
            assert(info.found_passwords.deep_view() =~~= spec_crack_hits(opt, eds@, idx as int));
        }
    }
    info
}

/// The unrolled driver facade: like `crack`, with the eight-lane check and
/// block accounting.
#[verifier::loop_isolation(false)]
pub fn crack_unrolled(opt: &crate::opt::Opt, zipfile: &Vec<crate::zipfile::Record>) -> (info:
    crate::info::InfoData)
    requires
        opt.wf(),
    ensures
        info.counter == crate::password_iter::spec_wrap_add64(
            0,
            spec_crack_unrolled_count(opt, opt.num_threads as int),
        ),
        info.found_passwords.deep_view() == spec_crack_unrolled_hits(
            opt,
            spec_encryption_data(zipfile@),
            opt.num_threads as int,
        ),
{
    let eds = get_encryption_data(zipfile);
    let mut info = crate::info::InfoData::new();
    let mut idx: u8 = 0;
    proof {
        vstd::arithmetic::div_mod::lemma_small_mod(0nat, 0x1_0000_0000_0000_0000nat);
    }
    while idx < opt.num_threads
        invariant
            idx <= opt.num_threads,
            info.counter == crate::password_iter::spec_wrap_add64(
                0,
                spec_crack_unrolled_count(opt, idx as int),
            ),
            info.found_passwords.deep_view() == spec_crack_unrolled_hits(opt, eds@, idx as int),
        decreases opt.num_threads - idx,
    {
        let ghost count_before = spec_crack_unrolled_count(opt, idx as int);
        crate::password_iter::test_each_password_unrolled(opt, &mut info, idx, &eds);
        proof {
            crate::password_iter::lemma_unrolled_count_nonneg(opt, idx);
            lemma_crack_unrolled_count_nonneg(opt, idx as int);
            crate::password_iter::lemma_wrap_add_compose(
                0,
                count_before,
                crate::password_iter::spec_unrolled_count(opt, idx)
                    * opt.alphabet.0@.len(),
            );
        }
        idx += 1;
        proof {
            assert(info.found_passwords.deep_view() =~~= spec_crack_unrolled_hits(
                opt,
                eds@,
                idx as int,
            ));
        }
    }
    info
}

proof fn lemma_crack_count_nonneg(opt: &crate::opt::Opt, n: int)
    requires
        opt.wf(),
    ensures
        spec_crack_count(opt, n) >= 0,
    decreases (if n >= 0 {
        n
    } else {
        0
    }),
{
    if n > 0 {
        lemma_crack_count_nonneg(opt, n - 1);
        crate::password_iter::lemma_shard_count_nonneg(opt, (n - 1) as u8);
    }
}

proof fn lemma_crack_unrolled_count_nonneg(opt: &crate::opt::Opt, n: int)
    requires
        opt.wf(),
    ensures
        spec_crack_unrolled_count(opt, n) >= 0,
    decreases (if n >= 0 {
        n
    } else {
        0
    }),
{
    if n > 0 {
        lemma_crack_unrolled_count_nonneg(opt, n - 1);
        crate::password_iter::lemma_unrolled_count_nonneg(opt, (n - 1) as u8);
        assert(crate::password_iter::spec_unrolled_count(opt, (n - 1) as u8)
            * opt.alphabet.0@.len() >= 0) by (nonlinear_arith)
            requires
                crate::password_iter::spec_unrolled_count(opt, (n - 1) as u8) >= 0,
                opt.alphabet.0@.len() >= 0,
        ;
    }
}

} // verus!
