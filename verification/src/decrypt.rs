//! The PKWARE stream-cipher primitives: the three-word key state, the
//! per-byte key update, the keystream byte, and the header-check predicate,
//! in a scalar form and in an eight-lane unrolled form.

use vstd::prelude::*;

verus! {

broadcast use vstd::array::group_array_axioms;

/// Capacity of the buffer that collects matching last characters in the
/// unrolled check; it bounds the padded alphabet (at most 128 ASCII bytes,
/// padded to a multiple of 8).
pub const RESULT_CAPACITY: usize = 256;

/// The key state before any password byte has been consumed.
pub open spec fn spec_initial_keys() -> (u32, u32, u32) {
    (0x12345678u32, 0x23456789u32, 0x34567890u32)
}

/// One step of the CRC-32 shift register over the reflected
/// polynomial 0xEDB88320.
pub open spec fn spec_crc32_round(v: u32) -> u32 {
    if v & 1 == 1 {
        (v >> 1) ^ 0xedb88320u32
    } else {
        v >> 1
    }
}

/// `n` steps of the CRC-32 shift register.
pub open spec fn spec_crc32_rounds(v: u32, n: nat) -> u32
    decreases n,
{
    if n == 0 {
        v
    } else {
        spec_crc32_round(spec_crc32_rounds(v, (n - 1) as nat))
    }
}

/// The CRC-32 byte-advance table entry for byte `b`: eight shift-register
/// steps starting from the byte itself.
pub open spec fn spec_crc32_entry(b: u8) -> u32 {
    spec_crc32_rounds(b as u32, 8)
}

/// Advancing a CRC-32 accumulator by one input byte.
#[verifier::opaque]
pub open spec fn spec_crc32(crc: u32, byte: u8) -> u32 {
    spec_crc32_entry((((crc & 0xff) as u8) ^ byte) as u8) ^ (crc >> 8)
}

/// The per-byte key-state transition of the PKWARE cipher.
#[verifier::opaque]
pub open spec fn spec_update_keys(keys: (u32, u32, u32), c: u8) -> (u32, u32, u32) {
    let k0 = spec_crc32(keys.0, c);
    let k1a = vstd::wrapping::u32_specs::wrapping_add(keys.1, k0 & 0xff);
    let k1 = vstd::wrapping::u32_specs::wrapping_add(
        vstd::wrapping::u32_specs::wrapping_mul(k1a, 134775813),
        1,
    );
    let k2 = spec_crc32(keys.2, ((k1 >> 24) & 0xff) as u8);
    (k0, k1, k2)
}

/// The key state after feeding every byte of `password` into the initial
/// state, in order.
pub open spec fn spec_keys_after(password: Seq<u8>) -> (u32, u32, u32)
    decreases password.len(),
{
    if password.len() == 0 {
        spec_initial_keys()
    } else {
        spec_update_keys(spec_keys_after(password.drop_last()), password.last())
    }
}

/// The keystream byte derived from the third key word.
#[verifier::opaque]
pub open spec fn spec_decrypt_byte(key2: u32) -> u8 {
    let t = (key2 & 0xffff) as u16 | 2;
    ((vstd::wrapping::u16_specs::wrapping_mul(t, t ^ 1) >> 8) & 0xff) as u8
}

/// The three key words as a tuple, for use in contracts.
pub open spec fn keys_view(keys: [u32; 3]) -> (u32, u32, u32) {
    (keys[0], keys[1], keys[2])
}

/// The 256-entry CRC-32 byte-advance table, computed once per run.
pub struct Crc32Table {
    pub entries: Vec<u32>,
}

impl Crc32Table {
    /// Every entry holds the byte-advance value of its index.
    pub open spec fn wf(&self) -> bool {
        &&& self.entries.len() == 256
        &&& forall|i: int| 0 <= i < 256 ==> self.entries[i] == spec_crc32_entry(i as u8)
    }

    pub fn new() -> (table: Crc32Table)
        ensures
            table.wf(),
    {
        let mut entries: Vec<u32> = Vec::new();
        let mut i: usize = 0;
        while i < 256
            invariant
                i <= 256,
                entries.len() == i,
                forall|j: int| 0 <= j < i ==> entries[j] == spec_crc32_entry(j as u8),
            decreases 256 - i,
        {
            let mut value: u32 = i as u32;
            let mut round: usize = 0;
            while round < 8
                invariant
                    round <= 8,
                    value == spec_crc32_rounds(i as u32, round as nat),
                decreases 8 - round,
            {
                value = if value & 1 == 1 {
                    (value >> 1) ^ 0xedb88320u32
                } else {
                    value >> 1
                };
                round += 1;
            }
            entries.push(value);
            i += 1;
        }
        Crc32Table { entries }
    }
}

/// Advances a CRC-32 accumulator by one input byte via the table.
pub fn crc32(table: &Crc32Table, crc: u32, byte: u8) -> (r: u32)
    requires
        table.wf(),
    ensures
        r == spec_crc32(crc, byte),
{
    proof {
        reveal(spec_crc32);
    }
    let index: u8 = ((crc & 0xff) as u8) ^ byte;
    table.entries[index as usize] ^ (crc >> 8)
}

/// Applies the per-byte key-state transition in place.
pub fn update_keys(table: &Crc32Table, keys: &mut [u32; 3], c: u8)
    requires
        table.wf(),
    ensures
        keys_view(*final(keys)) == spec_update_keys(keys_view(*old(keys)), c),
{
    proof {
        reveal(spec_update_keys);
    }
    let k0 = crc32(table, keys[0], c);
    let k1a = keys[1].wrapping_add(k0 & 0xff);
    let k1 = k1a.wrapping_mul(134775813).wrapping_add(1);
    let k2 = crc32(table, keys[2], ((k1 >> 24) & 0xff) as u8);
    *keys = [k0, k1, k2];
}

/// Derives the keystream byte from the third key word.
pub fn decrypt_byte(key2: u32) -> (r: u8)
    ensures
        r == spec_decrypt_byte(key2),
{
    proof {
        reveal(spec_decrypt_byte);
    }
    let t: u16 = ((key2 & 0xffff) as u16) | 2;
    ((t.wrapping_mul(t ^ 1) >> 8) & 0xff) as u8
}

/// What the search engine needs to know of one encrypted archive entry: the
/// 12-byte encryption header and the time field whose little-endian bytes
/// are the expected final plaintext bytes of the decrypted header.
#[derive(Clone, Copy)]
pub struct EncryptionData {
    pub encryption_header: [u8; 12],
    pub last_mod_file_time: u16,
}

/// Key state and decrypted bytes after running the header decryption for
/// `n` of the bytes of `ct`, starting from state `keys`.
pub open spec fn spec_decrypt_adv(keys: (u32, u32, u32), ct: Seq<u8>, n: nat) -> (
    (u32, u32, u32),
    Seq<u8>,
)
    decreases n,
{
    if n == 0 {
        (keys, Seq::empty())
    } else {
        let prev = spec_decrypt_adv(keys, ct, (n - 1) as nat);
        let p = ct[n - 1] ^ spec_decrypt_byte(prev.0.2);
        (spec_update_keys(prev.0, p), prev.1.push(p))
    }
}

/// The low byte of a 16-bit value.
pub open spec fn spec_lo(t: u16) -> u8 {
    (t & 0xff) as u8
}

/// The high byte of a 16-bit value.
pub open spec fn spec_hi(t: u16) -> u8 {
    ((t >> 8) & 0xff) as u8
}

/// Whether decrypting the entry's 12 header bytes from key state `keys`
/// leaves the little-endian encoding of `last_mod_file_time` in the final
/// two plaintext bytes.
pub open spec fn spec_matches(ed: EncryptionData, keys: (u32, u32, u32)) -> bool {
    let d = spec_decrypt_adv(keys, ed.encryption_header@, 12).1;
    d[10] == spec_lo(ed.last_mod_file_time) && d[11] == spec_hi(ed.last_mod_file_time)
}

/// Whether `keys` (the state after some password) decrypts the entry's
/// header to the expected timestamp bytes.
pub fn encryption_data_matches(table: &Crc32Table, ed: EncryptionData, keys: [u32; 3]) -> (r: bool)
    requires
        table.wf(),
    ensures
        r == spec_matches(ed, keys_view(keys)),
{
    let ghost keys0 = keys_view(keys);
    let mut keys = keys;
    let mut buf = ed.encryption_header;
    let mut i: usize = 0;
    while i < 12
        invariant
            table.wf(),
            i <= 12,
            keys_view(keys) == spec_decrypt_adv(keys0, ed.encryption_header@, i as nat).0,
            buf@.len() == 12,
            buf@ =~= spec_decrypt_adv(keys0, ed.encryption_header@, i as nat).1
                + ed.encryption_header@.skip(i as int),
        decreases 12 - i,
    {
        let c: u8 = buf[i] ^ decrypt_byte(keys[2]);
        update_keys(table, &mut keys, c);
        buf[i] = c;
        i += 1;
        proof {
            assert(buf@ =~= spec_decrypt_adv(keys0, ed.encryption_header@, i as nat).1
                + ed.encryption_header@.skip(i as int));
        }
    }
    buf[10] == (ed.last_mod_file_time & 0xff) as u8
        && buf[11] == ((ed.last_mod_file_time >> 8) & 0xff) as u8
}

/// The plain per-candidate password check: key the cipher with the whole
/// password, then test the entry's header.
pub fn password_matches(table: &Crc32Table, ed: EncryptionData, password: &[u8]) -> (r: bool)
    requires
        table.wf(),
    ensures
        r == spec_matches(ed, spec_keys_after(password@)),
{
    let mut keys: [u32; 3] = [0x12345678u32, 0x23456789u32, 0x34567890u32];
    let mut i: usize = 0;
    while i < password.len()
        invariant
            table.wf(),
            i <= password@.len(),
            keys_view(keys) == spec_keys_after(password@.take(i as int)),
        decreases password@.len() - i,
    {
        update_keys(table, &mut keys, password[i]);
        i += 1;
        proof {
            assert(password@.take(i as int).drop_last() =~= password@.take(i - 1));
        }
    }
    proof {
        assert(password@.take(password@.len() as int) =~= password@);
    }
    encryption_data_matches(table, ed, keys)
}

/// Advances eight independent CRC-32 accumulators, one per lane.
pub fn crc32_chunked(table: &Crc32Table, crc: [u32; 8], byte: [u8; 8]) -> (r: [u32; 8])
    requires
        table.wf(),
    ensures
        forall|i: int| 0 <= i < 8 ==> r[i] == spec_crc32(crc[i], byte[i]),
{
    let mut result: [u32; 8] = [0; 8];
    let mut i: usize = 0;
    while i < 8
        invariant
            table.wf(),
            i <= 8,
            forall|j: int| 0 <= j < i ==> result[j] == spec_crc32(crc[j], byte[j]),
        decreases 8 - i,
    {
        result[i] = crc32(table, crc[i], byte[i]);
        i += 1;
    }
    result
}

/// The key state of lane `i` of an eight-lane key block.
pub open spec fn lane_view(keys: [[u32; 8]; 3], i: int) -> (u32, u32, u32) {
    (keys[0][i], keys[1][i], keys[2][i])
}

/// Applies the per-byte key-state transition to eight independent key
/// states, lane `i` consuming byte `c[i]`.
pub fn update_keys_chunked(table: &Crc32Table, keys: &mut [[u32; 8]; 3], c: [u8; 8])
    requires
        table.wf(),
    ensures
        forall|i: int|
            0 <= i < 8 ==> lane_view(*final(keys), i) == spec_update_keys(
                lane_view(*old(keys), i),
                c[i],
            ),
{
    let k0 = crc32_chunked(table, keys[0], c);
    let mut k1: [u32; 8] = [0; 8];
    let mut k1_shifted: [u8; 8] = [0; 8];
    let mut i: usize = 0;
    while i < 8
        invariant
            i <= 8,
            forall|j: int|
                0 <= j < i ==> k1[j] == spec_update_keys(lane_view(*old(keys), j), c[j]).1,
            forall|j: int| 0 <= j < i ==> k1_shifted[j] == ((k1[j] >> 24) & 0xff) as u8,
            forall|j: int| 0 <= j < 8 ==> k0[j] == spec_crc32(old(keys)[0][j], c[j]),
            keys == old(keys),
        decreases 8 - i,
    {
        proof {
            reveal(spec_update_keys);
        }
        let k1a = keys[1][i].wrapping_add(k0[i] & 0xff);
        let k1v = k1a.wrapping_mul(134775813).wrapping_add(1);
        k1[i] = k1v;
        k1_shifted[i] = ((k1v >> 24) & 0xff) as u8;
        i += 1;
    }
    let k2 = crc32_chunked(table, keys[2], k1_shifted);
    *keys = [k0, k1, k2];
    proof {
        reveal(spec_update_keys);
    }
}

/// Derives the keystream byte of each of eight lanes.
pub fn decrypt_byte_chunked(key2: [u32; 8]) -> (r: [u8; 8])
    ensures
        forall|i: int| 0 <= i < 8 ==> r[i] == spec_decrypt_byte(key2[i]),
{
    let mut res: [u8; 8] = [0; 8];
    let mut i: usize = 0;
    while i < 8
        invariant
            i <= 8,
            forall|j: int| 0 <= j < i ==> res[j] == spec_decrypt_byte(key2[j]),
        decreases 8 - i,
    {
        res[i] = decrypt_byte(key2[i]);
        i += 1;
    }
    res
}

/// A "block" of candidate passwords in which only the last letter varies:
/// the shared prefix, the alphabet grouped into chunks of eight (the last
/// chunk padded by repeating its final byte), and the key state after the
/// prefix.
#[derive(Clone, Copy)]
pub struct PasswordBlock<'a> {
    /// All letters except the last one.
    pub password_prefix: &'a [u8],
    /// Alphabet to sample the last letters from.
    pub alphabet: &'a [[u8; 8]],
    /// Keys initialized with the password prefix.
    pub initialized_keys: [u32; 3],
}

#[verifier::external_type_specification]
#[verifier::external_body]
#[verifier::reject_recursive_types(T)]
pub struct ExArrayVec<T, const CAP: usize>(arrayvec::ArrayVec<T, CAP>);

/// The bytes held by a buffer of matching last characters, oldest first.
pub uninterp spec fn match_buffer_view(v: arrayvec::ArrayVec<u8, 256>) -> Seq<u8>;

/// Relies on arrayvec::ArrayVec::new: a fresh vector holds no elements.
#[verifier::external_body]
pub fn match_buffer_new() -> (r: arrayvec::ArrayVec<u8, RESULT_CAPACITY>)
    ensures
        match_buffer_view(r) == Seq::<u8>::empty(),
{
    arrayvec::ArrayVec::new()
}

/// Relies on arrayvec::ArrayVec::push: appends one element at the end; it
/// panics only when the vector is full, which the caller rules out.
#[verifier::external_body]
pub fn match_buffer_push(v: &mut arrayvec::ArrayVec<u8, RESULT_CAPACITY>, c: u8)
    requires
        match_buffer_view(*old(v)).len() < 256,
    ensures
        match_buffer_view(*final(v)) == match_buffer_view(*old(v)).push(c),
{
    v.push(c);
}

/// Relies on arrayvec::ArrayVec::as_slice: the initialized elements in
/// order, here copied out into a plain vector.
#[verifier::external_body]
pub fn match_buffer_to_vec(v: &arrayvec::ArrayVec<u8, RESULT_CAPACITY>) -> (r: Vec<u8>)
    ensures
        r@ == match_buffer_view(*v),
{
    v.as_slice().to_vec()
}

/// The last characters of `chunk` (among its first `n` lanes) that extend a
/// password whose prefix keyed the cipher to `keys` into a match for `ed`,
/// in lane order.
pub open spec fn spec_chunk_matches_upto(
    ed: EncryptionData,
    keys: (u32, u32, u32),
    chunk: [u8; 8],
    n: nat,
) -> Seq<u8>
    decreases n,
{
    if n == 0 {
        Seq::empty()
    } else {
        let prev = spec_chunk_matches_upto(ed, keys, chunk, (n - 1) as nat);
        if spec_matches(ed, spec_update_keys(keys, chunk[n - 1])) {
            prev.push(chunk[n - 1])
        } else {
            prev
        }
    }
}

/// The matching last characters over a whole sequence of chunks, in
/// emission order.
pub open spec fn spec_block_matches(
    ed: EncryptionData,
    keys: (u32, u32, u32),
    chunks: Seq<[u8; 8]>,
) -> Seq<u8>
    decreases chunks.len(),
{
    if chunks.len() == 0 {
        Seq::empty()
    } else {
        spec_block_matches(ed, keys, chunks.drop_last()) + spec_chunk_matches_upto(
            ed,
            keys,
            chunks.last(),
            8,
        )
    }
}

pub proof fn lemma_decrypt_adv_len(keys: (u32, u32, u32), ct: Seq<u8>, n: nat)
    ensures
        spec_decrypt_adv(keys, ct, n).1.len() == n,
    decreases n,
{
    if n > 0 {
        lemma_decrypt_adv_len(keys, ct, (n - 1) as nat);
    }
}

/// One round of the header decryption: how state and output advance from
/// `n` to `n + 1` rounds.
pub proof fn lemma_decrypt_adv_step(keys: (u32, u32, u32), ct: Seq<u8>, n: nat)
    ensures
        spec_decrypt_adv(keys, ct, n).1.len() == n,
        spec_decrypt_adv(keys, ct, (n + 1) as nat).0 == spec_update_keys(
            spec_decrypt_adv(keys, ct, n).0,
            ct[n as int] ^ spec_decrypt_byte(spec_decrypt_adv(keys, ct, n).0.2),
        ),
        spec_decrypt_adv(keys, ct, (n + 1) as nat).1 == spec_decrypt_adv(keys, ct, n).1.push(
            ct[n as int] ^ spec_decrypt_byte(spec_decrypt_adv(keys, ct, n).0.2),
        ),
{
    lemma_decrypt_adv_len(keys, ct, n);
    assert(spec_decrypt_adv(keys, ct, (n + 1) as nat).0 == spec_update_keys(
        spec_decrypt_adv(keys, ct, n).0,
        ct[n as int] ^ spec_decrypt_byte(spec_decrypt_adv(keys, ct, n).0.2),
    ));
}

pub proof fn lemma_chunk_matches_upto_len(
    ed: EncryptionData,
    keys: (u32, u32, u32),
    chunk: [u8; 8],
    n: nat,
)
    ensures
        spec_chunk_matches_upto(ed, keys, chunk, n).len() <= n,
    decreases n,
{
    if n > 0 {
        lemma_chunk_matches_upto_len(ed, keys, chunk, (n - 1) as nat);
    }
}

pub proof fn lemma_block_matches_len(
    ed: EncryptionData,
    keys: (u32, u32, u32),
    chunks: Seq<[u8; 8]>,
)
    ensures
        spec_block_matches(ed, keys, chunks).len() <= 8 * chunks.len(),
    decreases chunks.len(),
{
    if chunks.len() > 0 {
        lemma_block_matches_len(ed, keys, chunks.drop_last());
        lemma_chunk_matches_upto_len(ed, keys, chunks.last(), 8);
    }
}

/// Whether a key state passes the header check of every entry.
pub open spec fn spec_all_match(eds: Seq<EncryptionData>, keys: (u32, u32, u32)) -> bool {
    forall|i: int| 0 <= i < eds.len() ==> spec_matches(eds[i], keys)
}

/// Whether `keys` decrypts every entry's header to its expected timestamp
/// bytes: a candidate is confirmed only by consensus of all entries.
pub fn eds_match(table: &Crc32Table, eds: &Vec<EncryptionData>, keys: [u32; 3]) -> (r: bool)
    requires
        table.wf(),
    ensures
        r == spec_all_match(eds@, keys_view(keys)),
{
    let mut i: usize = 0;
    while i < eds.len()
        invariant
            table.wf(),
            i <= eds@.len(),
            forall|k: int| 0 <= k < i ==> spec_matches(eds@[k], keys_view(keys)),
        decreases eds@.len() - i,
    {
        if !encryption_data_matches(table, eds[i], keys) {
            return false;
        }
        i += 1;
    }
    true
}

/// Extending the password by one byte advances the key state by one
/// transition: the cached key state of a prefix can be reused.
pub proof fn lemma_keys_after_push(password: Seq<u8>, c: u8)
    ensures
        spec_keys_after(password.push(c)) == spec_update_keys(spec_keys_after(password), c),
{
    assert(password.push(c).drop_last() =~= password);
}

/// All last characters offered by a sequence of chunks, in lane order.
pub open spec fn spec_chunk_flat(chunks: Seq<[u8; 8]>) -> Seq<u8>
    decreases chunks.len(),
{
    if chunks.len() == 0 {
        Seq::empty()
    } else {
        spec_chunk_flat(chunks.drop_last()) + chunks.last()@
    }
}

pub proof fn lemma_chunk_matches_upto_contains(
    ed: EncryptionData,
    keys: (u32, u32, u32),
    chunk: [u8; 8],
    n: nat,
    c: u8,
)
    requires
        n <= 8,
    ensures
        spec_chunk_matches_upto(ed, keys, chunk, n).contains(c) <==> ((exists|i: int|
            0 <= i < n && chunk[i] == c) && spec_matches(ed, spec_update_keys(keys, c))),
    decreases n,
{
    if n > 0 {
        lemma_chunk_matches_upto_contains(ed, keys, chunk, (n - 1) as nat, c);
        let prev = spec_chunk_matches_upto(ed, keys, chunk, (n - 1) as nat);
        if spec_matches(ed, spec_update_keys(keys, chunk[n - 1])) {
            assert(spec_chunk_matches_upto(ed, keys, chunk, n) == prev.push(chunk[n - 1]));
            assert(prev.push(chunk[n - 1]).contains(c) <==> (prev.contains(c) || chunk[n - 1]
                == c)) by {
                assert(prev.push(chunk[n - 1]) =~= prev + seq![chunk[n - 1]]);
                lemma_concat_contains(prev, seq![chunk[n - 1]], c);
                if chunk[n - 1] == c {
                    assert(seq![chunk[n - 1]][0] == c);
                }
            }
        }
    }
}

/// The unrolled check agrees with the scalar check: a last character is in
/// the unrolled match set of a block exactly when the chunks offer it and
/// the scalar header check accepts the password extended by it. Together
/// with the contracts of `password_matches_unrolled` and
/// `encryption_data_matches`, the two paths produce identical match sets.
pub proof fn lemma_unrolled_matches_scalar(
    ed: EncryptionData,
    keys: (u32, u32, u32),
    chunks: Seq<[u8; 8]>,
    c: u8,
)
    ensures
        spec_block_matches(ed, keys, chunks).contains(c) <==> (spec_chunk_flat(chunks).contains(c)
            && spec_matches(ed, spec_update_keys(keys, c))),
    decreases chunks.len(),
{
    if chunks.len() > 0 {
        lemma_unrolled_matches_scalar(ed, keys, chunks.drop_last(), c);
        lemma_chunk_matches_upto_contains(ed, keys, chunks.last(), 8, c);
        let a = spec_block_matches(ed, keys, chunks.drop_last());
        let b = spec_chunk_matches_upto(ed, keys, chunks.last(), 8);
        assert((a + b).contains(c) <==> (a.contains(c) || b.contains(c))) by {
            lemma_concat_contains(a, b, c);
        }
        let fa = spec_chunk_flat(chunks.drop_last());
        let fb = chunks.last()@;
        assert((fa + fb).contains(c) <==> (fa.contains(c) || fb.contains(c))) by {
            lemma_concat_contains(fa, fb, c);
        }
        assert(fb.contains(c) <==> exists|i: int| 0 <= i < 8 && chunks.last()[i] == c);
    }
}

/// A concatenation holds an element exactly when one of its parts does.
pub proof fn lemma_concat_contains(a: Seq<u8>, b: Seq<u8>, c: u8)
    ensures
        (a + b).contains(c) <==> (a.contains(c) || b.contains(c)),
{
    if (a + b).contains(c) {
        let i = choose|i: int| 0 <= i < (a + b).len() && (a + b)[i] == c;
        if i < a.len() {
            assert(a[i] == c);
        } else {
            assert(b[i - a.len()] == c);
        }
    }
    if a.contains(c) {
        let i = choose|i: int| 0 <= i < a.len() && a[i] == c;
        assert((a + b)[i] == c);
    }
    if b.contains(c) {
        let i = choose|i: int| 0 <= i < b.len() && b[i] == c;
        assert((a + b)[a.len() + i] == c);
    }
}

/// Tests one password block against one entry, eight last characters at a
/// time, appending each matching last character to `matching_chars`.
#[verifier::rlimit(100)]
#[verifier::loop_isolation(false)]
pub fn password_matches_unrolled(
    table: &Crc32Table,
    password_block: PasswordBlock<'_>,
    ed: EncryptionData,
    matching_chars: &mut arrayvec::ArrayVec<u8, RESULT_CAPACITY>,
)
    requires
        table.wf(),
        match_buffer_view(*old(matching_chars)).len() + 8 * password_block.alphabet@.len() <= 256,
    ensures
        match_buffer_view(*final(matching_chars)) == match_buffer_view(*old(matching_chars))
            + spec_block_matches(
            ed,
            keys_view(password_block.initialized_keys),
            password_block.alphabet@,
        ),
{
    let ghost keys0 = keys_view(password_block.initialized_keys);
    let ghost chunks = password_block.alphabet@;
    let lo: u8 = (ed.last_mod_file_time & 0xff) as u8;
    let hi: u8 = ((ed.last_mod_file_time >> 8) & 0xff) as u8;
    let mut b: usize = 0;
    while b < password_block.alphabet.len()
        invariant
            table.wf(),
            b <= chunks.len(),
            password_block.alphabet@ == chunks,
            lo == spec_lo(ed.last_mod_file_time),
            hi == spec_hi(ed.last_mod_file_time),
            match_buffer_view(*old(matching_chars)).len() + 8 * chunks.len() <= 256,
            match_buffer_view(*matching_chars) == match_buffer_view(*old(matching_chars))
                + spec_block_matches(ed, keys0, chunks.take(b as int)),
        decreases chunks.len() - b,
    {
        let last_char_chunk: [u8; 8] = password_block.alphabet[b];
        let k0 = password_block.initialized_keys[0];
        let k1 = password_block.initialized_keys[1];
        let k2 = password_block.initialized_keys[2];
        let mut kc0: [u32; 8] = [0; 8];
        let mut kc1: [u32; 8] = [0; 8];
        let mut kc2: [u32; 8] = [0; 8];
        let mut l: usize = 0;
        while l < 8
            invariant
                l <= 8,
                forall|m: int| 0 <= m < l ==> kc0[m] == k0 && kc1[m] == k1 && kc2[m] == k2,
            decreases 8 - l,
        {
            kc0[l] = k0;
            kc1[l] = k1;
            kc2[l] = k2;
            l += 1;
        }
        let mut keys_chunk: [[u32; 8]; 3] = [kc0, kc1, kc2];
        proof {
            assert(forall|i: int| 0 <= i < 8 ==> lane_view(keys_chunk, i) == keys0);
        }
        update_keys_chunked(table, &mut keys_chunk, last_char_chunk);
        // Per lane i, the key state now corresponds to the prefix extended
        // by last_char_chunk[i]; run the twelve header-decryption rounds.
        let mut d10: [u8; 8] = [0; 8];
        let mut d11: [u8; 8] = [0; 8];
        let mut j: usize = 0;
        while j < 12
            invariant
                table.wf(),
                j <= 12,
                forall|i: int|
                    0 <= i < 8 ==> lane_view(keys_chunk, i) == spec_decrypt_adv(
                        spec_update_keys(keys0, last_char_chunk[i]),
                        ed.encryption_header@,
                        j as nat,
                    ).0,
                j >= 11 ==> forall|i: int|
                    0 <= i < 8 ==> d10[i] == spec_decrypt_adv(
                        spec_update_keys(keys0, last_char_chunk[i]),
                        ed.encryption_header@,
                        j as nat,
                    ).1[10],
                j >= 12 ==> forall|i: int|
                    0 <= i < 8 ==> d11[i] == spec_decrypt_adv(
                        spec_update_keys(keys0, last_char_chunk[i]),
                        ed.encryption_header@,
                        j as nat,
                    ).1[11],
            decreases 12 - j,
        {
            let ks = decrypt_byte_chunked(keys_chunk[2]);
            let hdr_byte = ed.encryption_header[j];
            let mut c: [u8; 8] = [0; 8];
            let mut i: usize = 0;
            while i < 8
                invariant
                    i <= 8,
                    forall|n: int| 0 <= n < 8 ==> ks[n] == spec_decrypt_byte(keys_chunk[2][n]),
                    forall|n: int| 0 <= n < i ==> c[n] == hdr_byte ^ ks[n],
                decreases 8 - i,
            {
                c[i] = hdr_byte ^ ks[i];
                i += 1;
            }
            proof {
                assert forall|n: int|
                    0 <= n < 8 implies c[n] == spec_decrypt_adv(
                    spec_update_keys(keys0, last_char_chunk[n]),
                    ed.encryption_header@,
                    (j + 1) as nat,
                ).1[j as int] && spec_decrypt_adv(
                    spec_update_keys(keys0, last_char_chunk[n]),
                    ed.encryption_header@,
                    (j + 1) as nat,
                ).0 == spec_update_keys(lane_view(keys_chunk, n), c[n]) by {
                    let k_n = spec_update_keys(keys0, last_char_chunk[n]);
                    lemma_decrypt_adv_step(k_n, ed.encryption_header@, j as nat);
                    let prev = spec_decrypt_adv(k_n, ed.encryption_header@, j as nat);
                    let p = ed.encryption_header@[j as int] ^ spec_decrypt_byte(prev.0.2);
                    assert(lane_view(keys_chunk, n) == prev.0);
                    assert(keys_chunk[2][n] == prev.0.2);
                    assert(ks[n] == spec_decrypt_byte(keys_chunk[2][n]));
                    assert(hdr_byte == ed.encryption_header@[j as int]);
                    assert(c[n] == hdr_byte ^ ks[n]);
                    assert(c[n] == p);
                    assert(spec_decrypt_adv(k_n, ed.encryption_header@, (j + 1) as nat).1
                        == prev.1.push(p));
                    assert(prev.1.len() == j);
                    assert(spec_decrypt_adv(k_n, ed.encryption_header@, (j + 1) as nat).1[
                        j as int] == p);
                }
            }
            update_keys_chunked(table, &mut keys_chunk, c);
            if j == 10 {
                d10 = c;
            }
            if j == 11 {
                d11 = c;
            }
            j += 1;
            proof {
                if j >= 12 {
                    assert forall|n: int|
                        0 <= n < 8 implies d10[n] == spec_decrypt_adv(
                        spec_update_keys(keys0, last_char_chunk[n]),
                        ed.encryption_header@,
                        j as nat,
                    ).1[10] by {
                        lemma_decrypt_adv_step(
                            spec_update_keys(keys0, last_char_chunk[n]),
                            ed.encryption_header@,
                            (j - 1) as nat,
                        );
                    }
                }
            }
        }
        // A lane matches when the decrypted bytes 10 and 11 equal the
        // little-endian encoding of the last-modification time.
        let mut i: usize = 0;
        while i < 8
            invariant
                i <= 8,
                b < chunks.len(),
                chunks[b as int] == last_char_chunk,
                match_buffer_view(*old(matching_chars)).len() + 8 * chunks.len() <= 256,
                forall|n: int|
                    0 <= n < 8 ==> (d10[n] == spec_lo(ed.last_mod_file_time) && d11[n] == spec_hi(
                        ed.last_mod_file_time,
                    )) == spec_matches(ed, spec_update_keys(keys0, last_char_chunk[n])),
                lo == spec_lo(ed.last_mod_file_time),
                hi == spec_hi(ed.last_mod_file_time),
                match_buffer_view(*matching_chars) == match_buffer_view(*old(matching_chars))
                    + spec_block_matches(ed, keys0, chunks.take(b as int))
                    + spec_chunk_matches_upto(ed, keys0, last_char_chunk, i as nat),
            decreases 8 - i,
        {
            proof {
                lemma_block_matches_len(ed, keys0, chunks.take(b as int));
                lemma_chunk_matches_upto_len(ed, keys0, last_char_chunk, i as nat);
            }
            if d10[i] == lo && d11[i] == hi {
                match_buffer_push(matching_chars, last_char_chunk[i]);
            }
            i += 1;
            proof {
                assert(match_buffer_view(*matching_chars) =~= match_buffer_view(
                    *old(matching_chars),
                ) + spec_block_matches(ed, keys0, chunks.take(b as int))
                    + spec_chunk_matches_upto(ed, keys0, last_char_chunk, i as nat));
            }
        }
        b += 1;
        proof {
            assert(chunks.take(b as int).drop_last() =~= chunks.take(b - 1));
            assert(chunks.take(b as int).last() == last_char_chunk);
            assert(match_buffer_view(*matching_chars) =~= match_buffer_view(*old(matching_chars))
                + spec_block_matches(ed, keys0, chunks.take(b as int)));
        }
    }
    proof {
        assert(chunks.take(chunks.len() as int) =~= chunks);
    }
}

} // verus!
