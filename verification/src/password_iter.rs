//! The candidate-password enumerator: a lexicographic walk of the search
//! space (length ascending, then alphabet order), with a cached key-prefix
//! stack so that changing one character reuses all prior key work, and with
//! shard striping across workers.
//!
//! A candidate is modelled by its digits: the indices of its letters in the
//! alphabet, most significant first. Every candidate has an ordinal: its
//! position in the enumeration of all candidates of every length. Advancing
//! the enumerator by `n` steps adds `n` to the ordinal.

use vstd::arithmetic::power::pow;
use vstd::prelude::*;

use crate::decrypt::keys_view;
use crate::decrypt::spec_keys_after;
use crate::decrypt::spec_update_keys;
use crate::decrypt::Crc32Table;
use crate::opt::alpha_wf;
use crate::opt::Opt;

verus! {

/// Every digit is an index into an alphabet of size `a`.
pub open spec fn digits_wf(d: Seq<usize>, a: int) -> bool {
    forall|i: int| 0 <= i < d.len() ==> (d[i] as int) < a
}

/// The big-endian base-`a` value of a digit sequence.
pub open spec fn spec_value(d: Seq<usize>, a: int) -> int
    decreases d.len(),
{
    if d.len() == 0 {
        0
    } else {
        spec_value(d.drop_last(), a) * a + d.last()
    }
}

/// How many candidates are shorter than `len`: the sum of `a^l` over all
/// lengths `l` below `len`.
pub open spec fn spec_count_upto(len: nat, a: int) -> int
    decreases len,
{
    if len == 0 {
        0
    } else {
        spec_count_upto((len - 1) as nat, a) + pow(a, (len - 1) as nat)
    }
}

/// The position of a candidate in the (length ascending, then alphabet
/// order) enumeration of all candidates.
pub open spec fn spec_ord(d: Seq<usize>, a: int) -> int {
    spec_count_upto(d.len(), a) + spec_value(d, a)
}

/// The ordinal of the last candidate of length `max_len`.
pub open spec fn spec_ord_max(a: int, max_len: nat) -> int {
    spec_count_upto((max_len + 1) as nat, a) - 1
}

/// The next candidate: increment the last digit, carrying to the left; a
/// candidate of all-maximal digits is followed by the all-zero candidate
/// one longer.
pub open spec fn spec_succ(d: Seq<usize>, a: int) -> Seq<usize>
    decreases d.len(),
{
    if d.len() == 0 {
        seq![0usize]
    } else if (d.last() as int) + 1 < a {
        d.drop_last().push((d.last() + 1) as usize)
    } else {
        spec_succ(d.drop_last(), a).push(0usize)
    }
}

/// The candidate `n` steps after `d`.
pub open spec fn spec_succ_n(d: Seq<usize>, a: int, n: nat) -> Seq<usize>
    decreases n,
{
    if n == 0 {
        d
    } else {
        spec_succ(spec_succ_n(d, a, (n - 1) as nat), a)
    }
}

/// The letters of the candidate with digits `d` over alphabet `a`.
pub open spec fn spec_pw_of(a: Seq<u8>, d: Seq<usize>) -> Seq<u8> {
    Seq::new(d.len(), |i: int| a[d[i] as int])
}

/// The base-`a` value of a digit sequence is bounded by `a` to its length.
pub proof fn lemma_value_bounds(d: Seq<usize>, a: int)
    requires
        a >= 1,
        digits_wf(d, a),
    ensures
        0 <= spec_value(d, a) < pow(a, d.len()),
    decreases d.len(),
{
    reveal(pow);
    if d.len() == 0 {
    } else {
        lemma_value_bounds(d.drop_last(), a);
        let v = spec_value(d.drop_last(), a);
        let p = pow(a, (d.len() - 1) as nat);
        assert(pow(a, d.len()) == a * p);
        assert(v * a + d.last() >= 0) by (nonlinear_arith)
            requires
                v >= 0,
                a >= 1,
                d.last() >= 0,
        ;
        assert(v * a + d.last() < a * p) by (nonlinear_arith)
            requires
                v < p,
                (d.last() as int) < a,
                a >= 1,
        ;
    }
}

/// The candidate count below a length, stepped by one length.
pub proof fn lemma_count_succ(len: nat, a: int)
    requires
        a >= 1,
    ensures
        spec_count_upto((len + 1) as nat, a) == 1 + a * spec_count_upto(len, a),
        spec_count_upto(len, a) >= 0,
        pow(a, len) >= 1,
    decreases len,
{
    reveal(pow);
    vstd::arithmetic::power::lemma_pow_positive(a, len);
    if len == 0 {
    } else {
        lemma_count_succ((len - 1) as nat, a);
        vstd::arithmetic::power::lemma_pow_positive(a, (len - 1) as nat);
        let c1 = spec_count_upto((len - 1) as nat, a);
        let p1 = pow(a, (len - 1) as nat);
        assert(spec_count_upto((len + 1) as nat, a) == spec_count_upto(len, a) + pow(a, len));
        assert(pow(a, len) == a * p1);
        assert(spec_count_upto(len, a) == c1 + p1);
        assert(spec_count_upto(len, a) == 1 + a * c1);
        assert(spec_count_upto((len + 1) as nat, a) == (1 + a * c1) + a * p1);
        assert(1 + a * (c1 + p1) == (1 + a * c1) + a * p1) by (nonlinear_arith);
        assert(a * spec_count_upto(len, a) == a * (c1 + p1));
    }
}

/// The candidate count below a length grows with the length.
pub proof fn lemma_count_mono(a: int, l1: nat, l2: nat)
    requires
        a >= 1,
        l1 <= l2,
    ensures
        spec_count_upto(l1, a) <= spec_count_upto(l2, a),
    decreases l2 - l1,
{
    if l1 < l2 {
        lemma_count_mono(a, l1, (l2 - 1) as nat);
        vstd::arithmetic::power::lemma_pow_positive(a, (l2 - 1) as nat);
    }
}

/// A candidate's ordinal lies between the counts of its length and of the
/// next length.
pub proof fn lemma_ord_range(d: Seq<usize>, a: int)
    requires
        a >= 1,
        digits_wf(d, a),
    ensures
        spec_count_upto(d.len(), a) <= spec_ord(d, a) < spec_count_upto((d.len() + 1) as nat, a),
{
    lemma_value_bounds(d, a);
    assert(spec_count_upto((d.len() + 1) as nat, a) == spec_count_upto(d.len(), a) + pow(
        a,
        d.len(),
    ));
}

/// A candidate fits the maximum length exactly when its ordinal does not
/// exceed the last ordinal of that length.
pub proof fn lemma_ord_len_max(d: Seq<usize>, a: int, m: nat)
    requires
        a >= 1,
        digits_wf(d, a),
    ensures
        d.len() <= m <==> spec_ord(d, a) <= spec_ord_max(a, m),
{
    lemma_ord_range(d, a);
    if d.len() <= m {
        lemma_count_mono(a, (d.len() + 1) as nat, (m + 1) as nat);
    } else {
        lemma_count_mono(a, (m + 1) as nat, d.len());
    }
}

/// Appending a digit multiplies the value by the base and adds the digit.
pub proof fn lemma_value_push(s: Seq<usize>, x: usize, a: int)
    ensures
        spec_value(s.push(x), a) == spec_value(s, a) * a + x,
{
    assert(s.push(x).drop_last() =~= s);
}

/// Prepending a digit adds its value at the heaviest position.
pub proof fn lemma_value_prepend(d: Seq<usize>, x: usize, a: int)
    ensures
        spec_value(seq![x] + d, a) == x * pow(a, d.len()) + spec_value(d, a),
    decreases d.len(),
{
    reveal(pow);
    if d.len() == 0 {
        assert(seq![x] + d =~= seq![x]);
        assert(seq![x].drop_last() =~= Seq::<usize>::empty());
        assert(spec_value(seq![x], a) == spec_value(seq![x].drop_last(), a) * a + x);
        assert(pow(a, d.len()) == 1);
    } else {
        lemma_value_prepend(d.drop_last(), x, a);
        assert((seq![x] + d).drop_last() =~= seq![x] + d.drop_last());
        assert((seq![x] + d).last() == d.last());
        let vp = spec_value(d.drop_last(), a);
        let p1 = pow(a, (d.len() - 1) as nat);
        assert(pow(a, d.len()) == a * p1);
        assert(spec_value(seq![x] + d, a) == spec_value(seq![x] + d.drop_last(), a) * a
            + d.last());
        assert(spec_value(seq![x] + d.drop_last(), a) == x * p1 + vp);
        assert(spec_value(d, a) == vp * a + d.last());
        assert((x * p1 + vp) * a == x * (a * p1) + vp * a) by (nonlinear_arith);
    }
}

/// Rewriting one digit changes the value by the difference weighted by the
/// digit's position.
pub proof fn lemma_value_update(d: Seq<usize>, i: int, x: usize, a: int)
    requires
        0 <= i < d.len(),
    ensures
        spec_value(d.update(i, x), a) == spec_value(d, a) + (x - d[i]) * pow(
            a,
            (d.len() - 1 - i) as nat,
        ),
    decreases d.len(),
{
    reveal(pow);
    if i == d.len() - 1 {
        assert(d.update(i, x).drop_last() =~= d.drop_last());
        assert(d.update(i, x).last() == x);
    } else {
        lemma_value_update(d.drop_last(), i, x, a);
        assert(d.update(i, x).drop_last() =~= d.drop_last().update(i, x));
        assert(d.update(i, x).last() == d.last());
        let v = spec_value(d.drop_last(), a);
        let t = x - d[i];
        let p1 = pow(a, (d.len() - 2 - i) as nat);
        assert(d.drop_last()[i] == d[i]);
        assert((v + t * p1) * a == v * a + t * (a * p1)) by (nonlinear_arith);
        assert(pow(a, (d.len() - 1 - i) as nat) == a * p1);
    }
}

/// Dividing a digit plus a carry by the base never enlarges the carry.
pub proof fn lemma_div_carry_bound(x: int, c: int, a: int)
    requires
        a >= 1,
        0 <= x < a,
        c >= 0,
    ensures
        0 <= (x + c) / a <= c,
{
    vstd::arithmetic::div_mod::lemma_fundamental_div_mod(x + c, a);
    vstd::arithmetic::div_mod::lemma_mod_bound(x + c, a);
    let q = (x + c) / a;
    let r = (x + c) % a;
    assert(x + c == a * q + r);
    assert(q >= 0) by (nonlinear_arith)
        requires
            x + c == a * q + r,
            0 <= r < a,
            x + c >= 0,
            a >= 1,
    ;
    assert(q <= c) by (nonlinear_arith)
        requires
            x + c == a * q + r,
            0 <= r < a,
            0 <= x < a,
            c >= 0,
            a >= 1,
            q >= 0,
    ;
}

/// The successor of a well-formed candidate is well-formed and its ordinal
/// is one greater.
pub proof fn lemma_succ_ord(d: Seq<usize>, a: int)
    requires
        1 <= a <= usize::MAX,
        digits_wf(d, a),
    ensures
        digits_wf(spec_succ(d, a), a),
        spec_ord(spec_succ(d, a), a) == spec_ord(d, a) + 1,
        spec_succ(d, a).len() >= d.len(),
    decreases d.len(),
{
    reveal(pow);
    if d.len() == 0 {
        assert(spec_succ(d, a) =~= seq![0usize]);
        assert(spec_value(seq![0usize], a) == spec_value(seq![0usize].drop_last(), a) * a + 0);
        assert(seq![0usize].drop_last() =~= Seq::<usize>::empty());
        lemma_count_succ(0, a);
    } else if (d.last() as int) + 1 < a {
        let s = spec_succ(d, a);
        lemma_value_push(d.drop_last(), (d.last() + 1) as usize, a);
        assert(d =~= d.drop_last().push(d.last()));
        lemma_value_push(d.drop_last(), d.last(), a);
        assert(s.len() == d.len());
    } else {
        // The last digit is maximal: the tail rolls over to the successor
        // of the shorter candidate, extended by a zero digit.
        lemma_succ_ord(d.drop_last(), a);
        let s0 = spec_succ(d.drop_last(), a);
        let s = s0.push(0usize);
        lemma_value_push(s0, 0usize, a);
        lemma_value_push(d.drop_last(), d.last(), a);
        assert(d =~= d.drop_last().push(d.last()));
        let ld = d.len() as nat;
        let ls = s0.len() as nat;
        let vd = spec_value(d.drop_last(), a);
        let vs = spec_value(s0, a);
        // ord(s0) == ord(drop_last(d)) + 1 written out over counts/values:
        assert(spec_count_upto(ls, a) + vs == spec_count_upto((ld - 1) as nat, a) + vd + 1);
        lemma_count_succ(ls, a);
        lemma_count_succ((ld - 1) as nat, a);
        // ord(s) == count(ls + 1) + vs * a; ord(d) == count(ld) + vd * a + (a - 1).
        assert(spec_value(s, a) == vs * a);
        assert(spec_value(d, a) == vd * a + (a - 1));
        assert(spec_count_upto((ls + 1) as nat, a) + vs * a == spec_count_upto(ld, a) + vd * a + a)
            by (nonlinear_arith)
            requires
                spec_count_upto((ls + 1) as nat, a) == 1 + a * spec_count_upto(ls, a),
                spec_count_upto(ld, a) == 1 + a * spec_count_upto((ld - 1) as nat, a),
                spec_count_upto(ls, a) + vs == spec_count_upto((ld - 1) as nat, a) + vd + 1,
        ;
    }
}

/// Advancing `n` steps adds `n` to the ordinal.
pub proof fn lemma_succ_n_ord(d: Seq<usize>, a: int, n: nat)
    requires
        1 <= a <= usize::MAX,
        digits_wf(d, a),
    ensures
        digits_wf(spec_succ_n(d, a, n), a),
        spec_ord(spec_succ_n(d, a, n), a) == spec_ord(d, a) + n,
    decreases n,
{
    if n > 0 {
        lemma_succ_n_ord(d, a, (n - 1) as nat);
        lemma_succ_ord(spec_succ_n(d, a, (n - 1) as nat), a);
    }
}

/// Step counts compose.
pub proof fn lemma_succ_n_add(d: Seq<usize>, a: int, m: nat, k: nat)
    ensures
        spec_succ_n(spec_succ_n(d, a, m), a, k) == spec_succ_n(d, a, (m + k) as nat),
    decreases k,
{
    if k > 0 {
        lemma_succ_n_add(d, a, m, (k - 1) as nat);
    }
}

/// Equal values of equal-length well-formed digit sequences force equal
/// digits: base-`a` representations are unique.
pub proof fn lemma_value_unique(d1: Seq<usize>, d2: Seq<usize>, a: int)
    requires
        a >= 1,
        digits_wf(d1, a),
        digits_wf(d2, a),
        d1.len() == d2.len(),
        spec_value(d1, a) == spec_value(d2, a),
    ensures
        d1 == d2,
    decreases d1.len(),
{
    if d1.len() == 0 {
        assert(d1 =~= d2);
    } else {
        let x = spec_value(d1, a);
        let q1 = spec_value(d1.drop_last(), a);
        let q2 = spec_value(d2.drop_last(), a);
        lemma_value_bounds(d1.drop_last(), a);
        lemma_value_bounds(d2.drop_last(), a);
        vstd::arithmetic::div_mod::lemma_fundamental_div_mod_converse(
            x,
            a,
            q1,
            d1.last() as int,
        );
        vstd::arithmetic::div_mod::lemma_fundamental_div_mod_converse(
            x,
            a,
            q2,
            d2.last() as int,
        );
        lemma_value_unique(d1.drop_last(), d2.drop_last(), a);
        assert(d1 =~= d2) by {
            assert(forall|i: int|
                0 <= i < d1.len() - 1 ==> d1[i] == d1.drop_last()[i] && d2[i]
                    == d2.drop_last()[i]);
        }
    }
}

/// The ordinal determines the candidate: two well-formed candidates with
/// one ordinal are the same.
pub proof fn lemma_ord_unique(d1: Seq<usize>, d2: Seq<usize>, a: int)
    requires
        a >= 1,
        digits_wf(d1, a),
        digits_wf(d2, a),
        spec_ord(d1, a) == spec_ord(d2, a),
    ensures
        d1 == d2,
{
    lemma_ord_range(d1, a);
    lemma_ord_range(d2, a);
    if d1.len() < d2.len() {
        lemma_count_mono(a, (d1.len() + 1) as nat, d2.len());
        assert(false);
    }
    if d2.len() < d1.len() {
        lemma_count_mono(a, (d2.len() + 1) as nat, d1.len());
        assert(false);
    }
    lemma_value_unique(d1, d2, a);
}

/// The position of a letter in an alphabet; over a strictly ascending
/// alphabet it is unique.
pub open spec fn spec_char_index(a: Seq<u8>, c: u8) -> int {
    choose|i: int| 0 <= i < a.len() && a[i] == c
}

/// The digits of the first candidate of a run: those of the starting
/// password when one is given, else the all-zero candidate of the minimum
/// length.
pub open spec fn spec_init_digits(opt: &Opt) -> Seq<usize> {
    match opt.start_password {
        Some(p) => Seq::new(p@.len(), |i: int| spec_char_index(opt.alphabet.0@, p@[i]) as usize),
        None => Seq::new(opt.min_length as nat, |i: int| 0usize),
    }
}

/// A copy of a byte vector.
pub fn clone_bytes(v: &Vec<u8>) -> (r: Vec<u8>)
    ensures
        r@ == v@,
{
    let mut r: Vec<u8> = Vec::new();
    let mut i: usize = 0;
    while i < v.len()
        invariant
            i <= v@.len(),
            r@ =~= v@.take(i as int),
        decreases v@.len() - i,
    {
        r.push(v[i]);
        i += 1;
    }
    proof {
        assert(v@.take(v@.len() as int) =~= v@);
    }
    r
}

/// Finds the position of a letter in a strictly ascending alphabet.
pub fn find_index(alphabet: &Vec<u8>, c: u8) -> (r: usize)
    requires
        alpha_wf(alphabet@),
        alphabet@.contains(c),
    ensures
        r < alphabet@.len(),
        alphabet@[r as int] == c,
        r as int == spec_char_index(alphabet@, c),
{
    let mut i: usize = 0;
    loop
        invariant
            i <= alphabet@.len(),
            alpha_wf(alphabet@),
            alphabet@.contains(c),
            forall|k: int| 0 <= k < i ==> alphabet@[k] != c,
        decreases alphabet@.len() - i,
    {
        if i >= alphabet.len() {
            proof {
                let w = choose|k: int| 0 <= k < alphabet@.len() && alphabet@[k] == c;
                assert(false);
            }
        } else if alphabet[i] == c {
            proof {
                let k = spec_char_index(alphabet@, c);
                assert(0 <= k < alphabet@.len() && alphabet@[k] == c) by {
                    let w = choose|j: int| 0 <= j < alphabet@.len() && alphabet@[j] == c;
                    assert(alphabet@[w] == c);
                }
                if k < i {
                    assert(alphabet@[k] < alphabet@[i as int]);
                }
                if i < k {
                    assert(alphabet@[i as int] < alphabet@[k]);
                }
            }
            return i;
        }
        i += 1;
    }
}

/// The key state before any password byte: the three initial constants.
pub fn initial_keys() -> (r: [u32; 3])
    ensures
        keys_view(r) == crate::decrypt::spec_initial_keys(),
{
    [0x12345678u32, 0x23456789u32, 0x34567890u32]
}

/// The enumerator state of one worker: the current candidate, its digits,
/// and the cached key-prefix stack.
pub struct PasswordIter {
    /// The CRC table the key stack is computed with.
    pub table: Crc32Table,
    /// The alphabet, strictly ascending.
    pub alphabet: Vec<u8>,
    /// The maximum candidate length.
    pub max_length: usize,
    /// The current candidate.
    pub password: Vec<u8>,
    /// The current candidate as indices into the alphabet.
    pub indices: Vec<usize>,
    /// Entry `i` holds the key state after the first `i` candidate bytes.
    pub key_stack: Vec<[u32; 3]>,
    /// Whether the shard is exhausted.
    pub finished: bool,
}

impl PasswordIter {
    /// The alphabet size, as the base of the digit arithmetic.
    pub open spec fn a(&self) -> int {
        self.alphabet@.len() as int
    }

    /// The enumerator invariant: digits index the alphabet, the candidate
    /// spells the digits out, and every key-stack entry is the key state of
    /// the candidate prefix it covers.
    pub open spec fn wf(&self) -> bool {
        &&& self.table.wf()
        &&& alpha_wf(self.alphabet@)
        &&& self.indices@.len() == self.password@.len()
        &&& digits_wf(self.indices@, self.a())
        &&& forall|i: int|
            0 <= i < self.password@.len() ==> self.password@[i] == self.alphabet@[self.indices@[i] as int]
        &&& self.password@.len() <= self.max_length
        &&& 1 <= self.key_stack@.len() <= self.password@.len() + 1
        &&& forall|i: int|
            0 <= i < self.key_stack@.len() ==> keys_view(self.key_stack@[i]) == spec_keys_after(
                self.password@.take(i),
            )
    }

    /// Feeds the key stack forward until it covers the whole candidate.
    #[verifier::loop_isolation(false)]
    pub fn extend_keys(&mut self)
        requires
            old(self).wf(),
        ensures
            final(self).wf(),
            final(self).key_stack@.len() == final(self).password@.len() + 1,
            final(self).table == old(self).table,
            final(self).alphabet == old(self).alphabet,
            final(self).max_length == old(self).max_length,
            final(self).password == old(self).password,
            final(self).indices == old(self).indices,
            final(self).finished == old(self).finished,
    {
        while self.key_stack.len() <= self.password.len()
            invariant
                self.wf(),
                self.table == old(self).table,
                self.alphabet == old(self).alphabet,
                self.max_length == old(self).max_length,
                self.password == old(self).password,
                self.indices == old(self).indices,
                self.finished == old(self).finished,
            decreases self.password@.len() + 1 - self.key_stack@.len(),
        {
            let i = self.key_stack.len();
            let mut keys = self.key_stack[i - 1];
            crate::decrypt::update_keys(&self.table, &mut keys, self.password[i - 1]);
            self.key_stack.push(keys);
            proof {
                assert(self.password@.take(i as int).drop_last() =~= self.password@.take(i - 1));
                assert(self.password@.take(i as int).last() == self.password@[i - 1]);
            }
        }
    }

    /// Adds `offset` to the candidate's ordinal: base-`a` addition over the
    /// digits, right to left, growing the candidate when the carry crosses
    /// its leftmost digit. Returns true when the addition would pass the
    /// last candidate of the maximum length; the shard is then exhausted.
    /// Key-stack entries at or right of a changed digit are popped, so the
    /// prefix work stays valid.
    #[verifier::loop_isolation(false)]
    pub fn advance(&mut self, offset: u8) -> (done: bool)
        requires
            old(self).wf(),
            !old(self).finished,
            old(self).key_stack@.len() == old(self).password@.len() + 1,
        ensures
            final(self).wf(),
            final(self).table == old(self).table,
            final(self).alphabet == old(self).alphabet,
            final(self).max_length == old(self).max_length,
            done == final(self).finished,
            !done ==> spec_ord(final(self).indices@, final(self).a()) == spec_ord(
                old(self).indices@,
                old(self).a(),
            ) + offset,
            done ==> spec_ord(old(self).indices@, old(self).a()) + offset > spec_ord_max(
                old(self).a(),
                old(self).max_length as nat,
            ),
    {
        let ghost a = self.a();
        let ghost target = spec_ord(old(self).indices@, a) + offset;
        let mut cursor: usize = self.password.len();
        let mut carry: usize = offset as usize;
        proof {
            reveal(pow);
        }
        while carry != 0
            invariant
                self.table == old(self).table,
                self.alphabet == old(self).alphabet,
                self.max_length == old(self).max_length,
                self.finished == old(self).finished,
                self.indices@.len() == self.password@.len(),
                digits_wf(self.indices@, a),
                forall|i: int|
                    0 <= i < self.password@.len() ==> self.password@[i] == self.alphabet@[self.indices@[i] as int],
                self.password@.len() <= self.max_length,
                cursor <= self.password@.len(),
                self.key_stack@.len() == cursor + 1,
                forall|i: int|
                    0 <= i < self.key_stack@.len() ==> keys_view(self.key_stack@[i])
                        == spec_keys_after(self.password@.take(i)),
                carry <= 255,
                spec_count_upto(self.password@.len(), a) + spec_value(self.indices@, a) + carry
                    * pow(a, (self.password@.len() - cursor) as nat) == target,
            decreases carry, cursor,
        {
            let ghost d_in = self.indices@;
            let ghost pw_in = self.password@;
            let ghost len_in = self.password@.len();
            let ghost cursor_in = cursor as int;
            let ghost carry_in = carry as int;
            if cursor == 0 {
                if self.password.len() == self.max_length {
                    self.finished = true;
                    proof {
                        lemma_value_bounds(self.indices@, a);
                        lemma_count_succ(self.max_length as nat, a);
                        assert(carry * pow(a, self.max_length as nat) >= pow(
                            a,
                            self.max_length as nat,
                        )) by (nonlinear_arith)
                            requires
                                carry >= 1,
                                pow(a, self.max_length as nat) >= 1,
                        ;
                    }
                    return true;
                }
                self.indices.insert(0, 0);
                self.password.insert(0, 0);
                carry -= 1;
                proof {
                    assert(self.indices@ =~= seq![0usize] + d_in);
                    assert(self.password@ =~= seq![0u8] + pw_in);
                    lemma_value_prepend(d_in, 0, a);
                    lemma_count_succ(len_in as nat, a);
                }
            } else {
                cursor -= 1;
                self.key_stack.pop();
            }
            let ghost d_mid = self.indices@;
            let ghost pw_mid = self.password@;
            let ghost len_mid = self.password@.len();
            let ghost carry_mid = carry as int;
            let a_len = self.alphabet.len();
            let idx_val = self.indices[cursor] + carry;
            let digit = idx_val % a_len;
            carry = idx_val / a_len;
            self.indices[cursor] = digit;
            let letter = self.alphabet[digit];
            self.password[cursor] = letter;
            proof {
                reveal(pow);
                vstd::arithmetic::div_mod::lemma_fundamental_div_mod(idx_val as int, a as int);
                lemma_div_carry_bound(d_mid[cursor as int] as int, carry_mid, a);
                let lf = self.password@.len();
                let cf = cursor as int;
                let q = pow(a, (lf - 1 - cf) as nat);
                assert(pow(a, (lf - cf) as nat) == a * q);
                if cursor_in == 0 {
                    // The candidate grew: one carry step paid for the new
                    // digit, whose value now absorbs the rest of the carry.
                    assert(self.indices@ =~= seq![digit] + d_in);
                    lemma_value_prepend(d_in, digit, a);
                    assert(q == pow(a, len_in as nat));
                    assert(spec_count_upto(lf as nat, a) == spec_count_upto(len_in as nat, a) + q);
                    assert(idx_val == carry_in - 1);
                    assert(spec_count_upto(lf as nat, a) + spec_value(self.indices@, a) + carry
                        * pow(a, (lf - cf) as nat) == target) by (nonlinear_arith)
                        requires
                            spec_count_upto(len_in as nat, a) + spec_value(d_in, a) + carry_in * q
                                == target,
                            spec_count_upto(lf as nat, a) == spec_count_upto(len_in as nat, a) + q,
                            spec_value(self.indices@, a) == digit * q + spec_value(d_in, a),
                            pow(a, (lf - cf) as nat) == a * q,
                            idx_val == a * (carry as int) + digit,
                            idx_val == carry_in - 1,
                            0 <= digit,
                    ;
                } else {
                    // One digit absorbed the carry; the remainder moves one
                    // position left.
                    lemma_value_update(d_mid, cf, digit, a);
                    assert(q == pow(a, (len_in - cursor_in) as nat));
                    assert(spec_count_upto(lf as nat, a) + spec_value(self.indices@, a) + carry
                        * pow(a, (lf - cf) as nat) == target) by (nonlinear_arith)
                        requires
                            spec_count_upto(len_in as nat, a) + spec_value(d_in, a) + carry_in * q
                                == target,
                            lf == len_in,
                            d_mid == d_in,
                            spec_value(self.indices@, a) == spec_value(d_mid, a) + (digit - d_mid[
                            cf]) * q,
                            pow(a, (lf - cf) as nat) == a * q,
                            idx_val == a * (carry as int) + digit,
                            idx_val == d_mid[cf] + carry_in,
                    ;
                }
                assert(self.indices@ == d_mid.update(cursor as int, digit));
                assert(self.password@ == pw_mid.update(cursor as int, letter));
                assert forall|i: int|
                    0 <= i < self.password@.len() implies self.password@[i] == self.alphabet@[self.indices@[i] as int] && (
                self.indices@[i] as int) < a by {
                    if i != cursor {
                        assert(self.indices@[i] == d_mid[i]);
                        assert(self.password@[i] == pw_mid[i]);
                        if cursor_in == 0 {
                            assert(d_mid[i] == d_in[i - 1]);
                            assert(pw_mid[i] == pw_in[i - 1]);
                        }
                    }
                }
                // Digits left of the cursor are untouched, so the remaining
                // key-stack entries still cover valid prefixes.
                assert forall|i: int|
                    0 <= i < self.key_stack@.len() implies keys_view(self.key_stack@[i])
                    == spec_keys_after(self.password@.take(i)) by {
                    assert(self.password@.take(i) =~= pw_in.take(i));
                }
            }
        }
        false
    }

    /// Builds the enumerator at the first candidate of the run: the
    /// starting password when one is given, else the lowest candidate of
    /// the minimum length.
    #[verifier::loop_isolation(false)]
    pub fn new(opt: &Opt) -> (it: PasswordIter)
        requires
            opt.wf(),
        ensures
            it.wf(),
            !it.finished,
            it.alphabet@ == opt.alphabet.0@,
            it.max_length == opt.max_length as usize,
            it.indices@ == spec_init_digits(opt),
            it.key_stack@.len() == 1,
    {
        let alphabet = clone_bytes(&opt.alphabet.0);
        let mut password: Vec<u8> = Vec::new();
        let mut indices: Vec<usize> = Vec::new();
        match &opt.start_password {
            Some(p) => {
                let mut i: usize = 0;
                while i < p.len()
                    invariant
                        i <= p@.len(),
                        password@.len() == i,
                        indices@.len() == i,
                        forall|k: int|
                            0 <= k < i ==> indices@[k] == spec_init_digits(opt)[k] && (
                            indices@[k] as int) < alphabet@.len() && password@[k] == alphabet@[indices@[k] as int],
                        alphabet@ == opt.alphabet.0@,
                        opt.start_password == Some(*p),
                    decreases p@.len() - i,
                {
                    let c = p[i];
                    let pos = find_index(&alphabet, c);
                    indices.push(pos);
                    password.push(c);
                    i += 1;
                }
            },
            None => {
                let first = alphabet[0];
                let mut i: usize = 0;
                while i < opt.min_length as usize
                    invariant
                        i <= opt.min_length,
                        password@.len() == i,
                        indices@.len() == i,
                        forall|k: int| 0 <= k < i ==> indices@[k] == 0usize,
                        forall|k: int| 0 <= k < i ==> password@[k] == alphabet@[0],
                        first == alphabet@[0],
                        alphabet@ == opt.alphabet.0@,
                    decreases opt.min_length - i,
                {
                    indices.push(0);
                    password.push(first);
                    i += 1;
                }
            },
        }
        let mut key_stack: Vec<[u32; 3]> = Vec::new();
        key_stack.push(initial_keys());
        let it = PasswordIter {
            table: Crc32Table::new(),
            alphabet,
            max_length: opt.max_length as usize,
            password,
            indices,
            key_stack,
            finished: false,
        };
        proof {
            assert(it.indices@ =~= spec_init_digits(opt));
            assert(it.password@.take(0) =~= Seq::<u8>::empty());
            if opt.start_password is Some {
                assert(it.password@.len() <= opt.max_length);
            }
        }
        it
    }

    /// The key state of the whole current candidate, from the stack's top.
    pub fn current_keys(&self) -> (r: [u32; 3])
        requires
            self.wf(),
            self.key_stack@.len() == self.password@.len() + 1,
        ensures
            keys_view(r) == spec_keys_after(self.password@),
    {
        let r = self.key_stack[self.password.len()];
        proof {
            assert(self.password@.take(self.password@.len() as int) =~= self.password@);
        }
        r
    }
}

/// Candidate `j` of shard `idx`: the letters of the candidate `idx + j *
/// num_threads` steps past the first candidate of the run.
pub open spec fn spec_emitted(opt: &Opt, idx: u8, j: int) -> Seq<u8> {
    spec_pw_of(
        opt.alphabet.0@,
        spec_succ_n(
            spec_init_digits(opt),
            opt.alphabet.0@.len() as int,
            (idx + j * opt.num_threads) as nat,
        ),
    )
}

/// How many candidates shard `idx` emits: the ordinals `ord(first) + idx`,
/// stepping by `num_threads`, that fit under the last ordinal of the
/// maximum length.
pub open spec fn spec_shard_count(opt: &Opt, idx: u8) -> int {
    let a = opt.alphabet.0@.len() as int;
    let base = spec_ord(spec_init_digits(opt), a);
    let omax = spec_ord_max(a, opt.max_length as nat);
    if base + idx > omax {
        0
    } else {
        (omax - base - idx) / (opt.num_threads as int) + 1
    }
}

/// The emission count is pinned by its two bounding inequalities.
proof fn lemma_shard_count_closed(base: int, omax: int, idx: int, n: int, len: int)
    requires
        n >= 1,
        idx >= 0,
        len >= 0,
        len == 0 ==> base + idx > omax,
        len > 0 ==> base + idx + (len - 1) * n <= omax,
        base + idx + len * n > omax,
    ensures
        len == if base + idx > omax {
            0int
        } else {
            (omax - base - idx) / n + 1
        },
{
    if len > 0 {
        let dd = omax - base - idx;
        let r = dd - (len - 1) * n;
        assert((len - 1) * n + n == len * n) by (nonlinear_arith);
        assert((len - 1) * n >= 0) by (nonlinear_arith)
            requires
                len >= 1,
                n >= 1,
        ;
        assert(0 <= r < n);
        assert(dd >= 0);
        vstd::arithmetic::div_mod::lemma_fundamental_div_mod_converse(dd, n, len - 1, r);
    }
}

/// Enumerates shard `idx` of the search space and returns each emitted
/// candidate with the key state of its whole text. The first candidate of
/// the run has the starting digits; shard `idx` emits the candidates whose
/// ordinals are `idx`, `idx + num_threads`, ... past that one, in order, up
/// to the last candidate of the maximum length.
#[verifier::loop_isolation(false)]
pub fn for_each_password(opt: &Opt, idx: u8) -> (r: Vec<(Vec<u8>, [u32; 3])>)
    requires
        opt.wf(),
    ensures
        forall|j: int|
            0 <= j < r@.len() ==> (#[trigger] r@[j]).0@ == spec_pw_of(
                opt.alphabet.0@,
                spec_succ_n(
                    spec_init_digits(opt),
                    opt.alphabet.0@.len() as int,
                    (idx + j * opt.num_threads) as nat,
                ),
            ) && keys_view(r@[j].1) == spec_keys_after(r@[j].0@),
        r@.len() == 0 ==> spec_ord(spec_init_digits(opt), opt.alphabet.0@.len() as int) + idx
            > spec_ord_max(opt.alphabet.0@.len() as int, opt.max_length as nat),
        r@.len() > 0 ==> spec_ord(spec_init_digits(opt), opt.alphabet.0@.len() as int) + idx + (
        r@.len() - 1) * opt.num_threads <= spec_ord_max(
            opt.alphabet.0@.len() as int,
            opt.max_length as nat,
        ),
        spec_ord(spec_init_digits(opt), opt.alphabet.0@.len() as int) + idx + r@.len()
            * opt.num_threads > spec_ord_max(opt.alphabet.0@.len() as int, opt.max_length as nat),
        r@.len() == spec_shard_count(opt, idx),
{
    let ghost a_sz = opt.alphabet.0@.len() as int;
    let ghost d0 = spec_init_digits(opt);
    let ghost base = spec_ord(d0, a_sz);
    let ghost omax = spec_ord_max(a_sz, opt.max_length as nat);
    let ghost nt = opt.num_threads as int;
    let mut it = PasswordIter::new(opt);
    proof {
        assert(digits_wf(d0, a_sz));
    }
    it.extend_keys();
    let mut done = it.advance(idx);
    let mut result: Vec<(Vec<u8>, [u32; 3])> = Vec::new();
    proof {
        lemma_succ_n_ord(d0, a_sz, idx as nat);
        if !done {
            lemma_ord_unique(it.indices@, spec_succ_n(d0, a_sz, idx as nat), a_sz);
        }
    }
    while !done
        invariant
            it.wf(),
            it.alphabet@ == opt.alphabet.0@,
            it.max_length == opt.max_length as usize,
            done == it.finished,
            !done ==> it.indices@ == spec_succ_n(d0, a_sz, (idx + result@.len() * nt) as nat),
            forall|j: int|
                0 <= j < result@.len() ==> (#[trigger] result@[j]).0@ == spec_pw_of(
                    opt.alphabet.0@,
                    spec_succ_n(d0, a_sz, (idx + j * nt) as nat),
                ) && keys_view(result@[j].1) == spec_keys_after(result@[j].0@),
            result@.len() > 0 ==> base + idx + (result@.len() - 1) * nt <= omax,
            done ==> base + idx + result@.len() * nt > omax,
        decreases omax + 1 + nt - base - idx - result@.len() * nt,
    {
        proof {
            lemma_succ_n_ord(d0, a_sz, (idx + result@.len() * nt) as nat);
            lemma_ord_len_max(it.indices@, a_sz, opt.max_length as nat);
        }
        it.extend_keys();
        let pw = clone_bytes(&it.password);
        let keys = it.current_keys();
        proof {
            assert(it.password@ =~= spec_pw_of(opt.alphabet.0@, it.indices@));
        }
        result.push((pw, keys));
        let ghost len_now = result@.len();
        done = it.advance(opt.num_threads);
        proof {
            assert((idx + (len_now - 1) * nt) + nt == idx + len_now * nt) by (nonlinear_arith);
            if !done {
                lemma_succ_n_ord(d0, a_sz, (idx + len_now * nt) as nat);
                lemma_ord_unique(
                    it.indices@,
                    spec_succ_n(d0, a_sz, (idx + len_now * nt) as nat),
                    a_sz,
                );
            }
        }
    }
    proof {
        lemma_shard_count_closed(base, omax, idx as int, nt, result@.len() as int);
    }
    result
}

/// Lexicographic order on equal-length digit sequences: the first differing
/// digit decides.
pub open spec fn spec_lex_less(d1: Seq<usize>, d2: Seq<usize>) -> bool
    decreases d1.len(),
{
    if d1.len() == 0 || d2.len() == 0 {
        false
    } else if d1[0] != d2[0] {
        d1[0] < d2[0]
    } else {
        spec_lex_less(d1.skip(1), d2.skip(1))
    }
}

/// The base-`a` value splits at the leading digit.
proof fn lemma_value_front(d: Seq<usize>, a: int)
    requires
        d.len() > 0,
    ensures
        spec_value(d, a) == d[0] * pow(a, (d.len() - 1) as nat) + spec_value(d.skip(1), a),
    decreases d.len(),
{
    reveal(pow);
    if d.len() == 1 {
        assert(d.drop_last() =~= Seq::<usize>::empty());
        assert(d.skip(1) =~= Seq::<usize>::empty());
        assert(spec_value(d, a) == spec_value(d.drop_last(), a) * a + d.last());
        assert(d.last() == d[0]);
        assert(d[0] * pow(a, 0) == d[0]) by (nonlinear_arith)
            requires
                pow(a, 0) == 1,
        ;
    } else {
        lemma_value_front(d.drop_last(), a);
        assert(d.drop_last()[0] == d[0]);
        assert(d.skip(1).drop_last() =~= d.drop_last().skip(1));
        assert(d.skip(1).last() == d.last());
        let p2 = pow(a, (d.len() - 2) as nat);
        let vs = spec_value(d.drop_last().skip(1), a);
        assert(spec_value(d, a) == (d[0] * p2 + vs) * a + d.last());
        assert((d[0] * p2 + vs) * a == d[0] * (a * p2) + vs * a) by (nonlinear_arith);
        assert(pow(a, (d.len() - 1) as nat) == a * p2);
        assert(spec_value(d.skip(1), a) == vs * a + d.last());
    }
}

/// On equal-length well-formed digit sequences, base-`a` value order is
/// lexicographic order.
proof fn lemma_value_lex(d1: Seq<usize>, d2: Seq<usize>, a: int)
    requires
        a >= 1,
        digits_wf(d1, a),
        digits_wf(d2, a),
        d1.len() == d2.len(),
    ensures
        spec_value(d1, a) < spec_value(d2, a) <==> spec_lex_less(d1, d2),
    decreases d1.len(),
{
    if d1.len() > 0 {
        lemma_value_front(d1, a);
        lemma_value_front(d2, a);
        lemma_value_bounds(d1.skip(1), a);
        lemma_value_bounds(d2.skip(1), a);
        let p = pow(a, (d1.len() - 1) as nat);
        let v1 = spec_value(d1.skip(1), a);
        let v2 = spec_value(d2.skip(1), a);
        if d1[0] < d2[0] {
            assert(d1[0] * p + v1 < d2[0] * p + v2) by (nonlinear_arith)
                requires
                    d1[0] + 1 <= d2[0],
                    0 <= v1 < p,
                    0 <= v2,
            ;
        } else if d2[0] < d1[0] {
            assert(d2[0] * p + v2 < d1[0] * p + v1) by (nonlinear_arith)
                requires
                    d2[0] + 1 <= d1[0],
                    0 <= v2 < p,
                    0 <= v1,
            ;
        } else {
            lemma_value_lex(d1.skip(1), d2.skip(1), a);
        }
    }
}

/// The enumeration order is (length ascending, then lexicographic): the
/// ordinal of one candidate precedes another's exactly when the first is
/// shorter, or of equal length and lexicographically smaller. Sorting
/// candidates by (length, then alphabet order of the digits) therefore
/// sorts them by ordinal.
pub proof fn lemma_ord_is_length_lex_order(d1: Seq<usize>, d2: Seq<usize>, a: int)
    requires
        a >= 1,
        digits_wf(d1, a),
        digits_wf(d2, a),
    ensures
        spec_ord(d1, a) < spec_ord(d2, a) <==> (d1.len() < d2.len() || (d1.len() == d2.len()
            && spec_lex_less(d1, d2))),
{
    lemma_ord_range(d1, a);
    lemma_ord_range(d2, a);
    if d1.len() < d2.len() {
        lemma_count_mono(a, (d1.len() + 1) as nat, d2.len());
    } else if d2.len() < d1.len() {
        lemma_count_mono(a, (d2.len() + 1) as nat, d1.len());
    } else {
        lemma_value_lex(d1, d2, a);
    }
}

/// Whether two configurations describe one search space, differing at most
/// in how many workers it is striped across.
pub open spec fn spec_same_space(opt_a: &Opt, opt_b: &Opt) -> bool {
    &&& opt_a.alphabet.0@ == opt_b.alphabet.0@
    &&& opt_a.min_length == opt_b.min_length
    &&& opt_a.max_length == opt_b.max_length
    &&& opt_a.start_password == opt_b.start_password
}

/// Sharding fidelity, first half: item `j` of shard `i` under `opt_n` is
/// item `i + j * num_threads` of the lone shard of a single-worker run over
/// the same space, and that run does emit it. So every sharded emission
/// appears in the single-shard enumeration.
pub proof fn lemma_shard_item_in_single(opt_one: &Opt, opt_n: &Opt, i: u8, j: int)
    requires
        opt_one.wf(),
        opt_n.wf(),
        spec_same_space(opt_one, opt_n),
        opt_one.num_threads == 1,
        i < opt_n.num_threads,
        0 <= j < spec_shard_count(opt_n, i),
    ensures
        spec_emitted(opt_n, i, j) == spec_emitted(opt_one, 0, i + j * opt_n.num_threads),
        0 <= i + j * opt_n.num_threads < spec_shard_count(opt_one, 0),
{
    let a = opt_n.alphabet.0@.len() as int;
    let d0 = spec_init_digits(opt_n);
    let base = spec_ord(d0, a);
    let omax = spec_ord_max(a, opt_n.max_length as nat);
    let n = opt_n.num_threads as int;
    assert(spec_init_digits(opt_one) == d0);
    let k = i + j * n;
    assert((0 + k * 1) == (i + j * n));
    assert(j * n >= 0) by (nonlinear_arith)
        requires
            j >= 0,
            n >= 1,
    ;
    // Shard i emits item j, so its ordinal fits under the maximum.
    assert(base + i + j * n <= omax) by {
        let dd = omax - base - i;
        assert(j <= (dd) / n);
        vstd::arithmetic::div_mod::lemma_fundamental_div_mod(dd, n);
        vstd::arithmetic::div_mod::lemma_mod_bound(dd, n);
        assert(j * n <= dd) by (nonlinear_arith)
            requires
                j <= dd / n,
                dd == n * (dd / n) + dd % n,
                0 <= dd % n < n,
                n >= 1,
        ;
    }
    // Hence position k fits under the single-worker count.
    assert(k < spec_shard_count(opt_one, 0)) by {
        let dd1 = omax - base;
        assert(k <= dd1);
        vstd::arithmetic::div_mod::lemma_fundamental_div_mod_converse(dd1, 1, dd1, 0);
    }
}

/// Sharding fidelity, second half: item `k` of the lone shard of a
/// single-worker run is item `k / num_threads` of shard `k % num_threads`
/// under `opt_n`, and that shard does emit it. With the first half: the
/// emissions of shards `0` to `num_threads - 1`, merged, are exactly the
/// emissions of the single-worker run, and each candidate's rank there is
/// its ordinal, so sorting the merge by (length, then alphabet order)
/// reproduces the single-shard sequence.
pub proof fn lemma_single_item_in_shards(opt_one: &Opt, opt_n: &Opt, k: int)
    requires
        opt_one.wf(),
        opt_n.wf(),
        spec_same_space(opt_one, opt_n),
        opt_one.num_threads == 1,
        0 <= k < spec_shard_count(opt_one, 0),
    ensures
        spec_emitted(opt_one, 0, k) == spec_emitted(
            opt_n,
            (k % (opt_n.num_threads as int)) as u8,
            k / (opt_n.num_threads as int),
        ),
        0 <= k / (opt_n.num_threads as int) < spec_shard_count(
            opt_n,
            (k % (opt_n.num_threads as int)) as u8,
        ),
        0 <= k % (opt_n.num_threads as int) < opt_n.num_threads,
{
    let a = opt_n.alphabet.0@.len() as int;
    let d0 = spec_init_digits(opt_n);
    let base = spec_ord(d0, a);
    let omax = spec_ord_max(a, opt_n.max_length as nat);
    let n = opt_n.num_threads as int;
    assert(spec_init_digits(opt_one) == d0);
    vstd::arithmetic::div_mod::lemma_fundamental_div_mod(k, n);
    vstd::arithmetic::div_mod::lemma_mod_bound(k, n);
    let i = k % n;
    let j = k / n;
    assert(j >= 0) by (nonlinear_arith)
        requires
            k == n * j + i,
            0 <= i < n,
            k >= 0,
            n >= 1,
    ;
    assert(i + j * n == k);
    // The single run emits k, so ord fits; translate to shard i's count.
    assert(base + k <= omax) by {
        let dd1 = omax - base;
        vstd::arithmetic::div_mod::lemma_fundamental_div_mod_converse(dd1, 1, dd1, 0);
    }
    assert(j < spec_shard_count(opt_n, i as u8)) by {
        let dd = omax - base - i;
        assert(j * n <= dd);
        vstd::arithmetic::div_mod::lemma_fundamental_div_mod(dd, n);
        vstd::arithmetic::div_mod::lemma_mod_bound(dd, n);
        assert(j <= dd / n) by (nonlinear_arith)
            requires
                j * n <= dd,
                dd == n * (dd / n) + dd % n,
                0 <= dd % n < n,
                n >= 1,
                j >= 0,
        ;
    }
}

/// A run with a starting password emits no earlier candidate: every
/// emission of every shard has an ordinal at least the starting
/// candidate's.
pub proof fn lemma_no_candidate_before_start(opt: &Opt, idx: u8, j: int)
    requires
        opt.wf(),
        j >= 0,
    ensures
        spec_ord(
            spec_succ_n(
                spec_init_digits(opt),
                opt.alphabet.0@.len() as int,
                (idx + j * opt.num_threads) as nat,
            ),
            opt.alphabet.0@.len() as int,
        ) >= spec_ord(spec_init_digits(opt), opt.alphabet.0@.len() as int),
{
    let a = opt.alphabet.0@.len() as int;
    let d0 = spec_init_digits(opt);
    assert(digits_wf(d0, a)) by {
        if opt.start_password is Some {
            let p = opt.start_password->0;
            assert forall|i: int| 0 <= i < d0.len() implies (d0[i] as int) < a by {
                assert(opt.alphabet.0@.contains(p@[i]));
                let w = choose|w: int| 0 <= w < a && opt.alphabet.0@[w] == p@[i];
            }
        }
    }
    assert(j * opt.num_threads >= 0) by (nonlinear_arith)
        requires
            j >= 0,
            opt.num_threads >= 1,
    ;
    lemma_succ_n_ord(d0, a, (idx + j * opt.num_threads) as nat);
}

/// A length bound shortened by one for the unrolled mode, stopping at zero.
pub open spec fn spec_sat_dec(x: u8) -> u8 {
    if x == 0 {
        0u8
    } else {
        (x - 1) as u8
    }
}

/// The digits of the first prefix of an unrolled run: the starting password
/// without its last character when one is given, else the all-zero prefix
/// one shorter than the minimum length.
pub open spec fn spec_unrolled_init_digits(opt: &Opt) -> Seq<usize> {
    match opt.start_password {
        Some(p) => Seq::new(
            if p@.len() > 0 {
                (p@.len() - 1) as nat
            } else {
                0nat
            },
            |i: int| spec_char_index(opt.alphabet.0@, p@[i]) as usize,
        ),
        None => Seq::new(spec_sat_dec(opt.min_length) as nat, |i: int| 0usize),
    }
}

/// Prefix `j` of shard `idx` in the unrolled mode.
pub open spec fn spec_unrolled_emitted(opt: &Opt, idx: u8, j: int) -> Seq<u8> {
    spec_pw_of(
        opt.alphabet.0@,
        spec_succ_n(
            spec_unrolled_init_digits(opt),
            opt.alphabet.0@.len() as int,
            (idx + j * opt.num_threads) as nat,
        ),
    )
}

/// How many prefixes shard `idx` emits in the unrolled mode.
pub open spec fn spec_unrolled_count(opt: &Opt, idx: u8) -> int {
    let a = opt.alphabet.0@.len() as int;
    let base = spec_ord(spec_unrolled_init_digits(opt), a);
    let omax = spec_ord_max(a, spec_sat_dec(opt.max_length) as nat);
    if base + idx > omax {
        0
    } else {
        (omax - base - idx) / (opt.num_threads as int) + 1
    }
}

/// Lane `l` of chunk `j` of a chunked alphabet.
pub open spec fn spec_lane(chunks: Seq<[u8; 8]>, j: int, l: int) -> u8 {
    chunks[j][l]
}

/// Groups the alphabet into chunks of eight, padding the last chunk by
/// repeating its final byte: lane `l` of chunk `j` holds letter `8j + l`,
/// or the last letter where that runs past the end.
pub fn chunk_alphabet(alphabet: &Vec<u8>) -> (r: Vec<[u8; 8]>)
    requires
        0 < alphabet@.len() <= 128,
    ensures
        r@.len() == (alphabet@.len() + 7) / 8,
        forall|j: int, l: int|
            0 <= j < r@.len() && 0 <= l < 8 && 8 * j + l < alphabet@.len() ==> #[trigger] spec_lane(
                r@,
                j,
                l,
            ) == alphabet@[8 * j + l],
        forall|j: int, l: int|
            0 <= j < r@.len() && 0 <= l < 8 && 8 * j + l >= alphabet@.len() ==> #[trigger] spec_lane(
                r@,
                j,
                l,
            ) == alphabet@[alphabet@.len() - 1],
{
    let n_chunks = (alphabet.len() + 7) / 8;
    let mut r: Vec<[u8; 8]> = Vec::new();
    let mut j: usize = 0;
    while j < n_chunks
        invariant
            0 < alphabet@.len() <= 128,
            n_chunks == (alphabet@.len() + 7) / 8,
            j <= n_chunks,
            r@.len() == j,
            forall|jj: int, l: int|
                0 <= jj < j && 0 <= l < 8 && 8 * jj + l < alphabet@.len() ==> #[trigger] spec_lane(
                    r@,
                    jj,
                    l,
                ) == alphabet@[8 * jj + l],
            forall|jj: int, l: int|
                0 <= jj < j && 0 <= l < 8 && 8 * jj + l >= alphabet@.len() ==> #[trigger] spec_lane(
                    r@,
                    jj,
                    l,
                ) == alphabet@[alphabet@.len() - 1],
        decreases n_chunks - j,
    {
        let mut arr: [u8; 8] = [0; 8];
        let mut l: usize = 0;
        while l < 8
            invariant
                0 < alphabet@.len() <= 128,
                j < n_chunks,
                n_chunks == (alphabet@.len() + 7) / 8,
                l <= 8,
                forall|ll: int|
                    0 <= ll < l && 8 * j + ll < alphabet@.len() ==> arr[ll] == alphabet@[8 * (
                    j as int) + ll],
                forall|ll: int|
                    0 <= ll < l && 8 * j + ll >= alphabet@.len() ==> arr[ll] == alphabet@[
                    alphabet@.len() - 1],
            decreases 8 - l,
        {
            let src = 8 * j + l;
            if src < alphabet.len() {
                arr[l] = alphabet[src];
            } else {
                arr[l] = alphabet[alphabet.len() - 1];
            }
            l += 1;
        }
        let ghost rold = r@;
        r.push(arr);
        j += 1;
        proof {
            assert forall|jj: int, ll: int|
                0 <= jj < j && 0 <= ll < 8 implies spec_lane(r@, jj, ll) == (if 8 * jj + ll
                < alphabet@.len() {
                alphabet@[8 * jj + ll]
            } else {
                alphabet@[alphabet@.len() - 1]
            }) by {
                if jj < j - 1 {
                    assert(r@[jj] == rold[jj]);
                    assert(spec_lane(rold, jj, ll) == rold[jj][ll]);
                } else {
                    assert(r@[jj] == arr);
                }
            }
        }
    }
    r
}

/// Enumerates shard `idx` of the prefix space for the unrolled mode: the
/// length bounds shrink by one and the starting password loses its last
/// character, the final character being delegated to the eight-lane check.
/// Returns the chunked alphabet and each prefix with its key state.
#[verifier::loop_isolation(false)]
pub fn for_each_password_unrolled(opt: &Opt, idx: u8) -> (r: (Vec<[u8; 8]>, Vec<(Vec<u8>, [u32; 3])>))
    requires
        opt.wf(),
    ensures
        r.0@.len() == (opt.alphabet.0@.len() + 7) / 8,
        forall|j: int, l: int|
            0 <= j < r.0@.len() && 0 <= l < 8 && 8 * j + l < opt.alphabet.0@.len()
                ==> #[trigger] spec_lane(r.0@, j, l) == opt.alphabet.0@[8 * j + l],
        forall|j: int, l: int|
            0 <= j < r.0@.len() && 0 <= l < 8 && 8 * j + l >= opt.alphabet.0@.len()
                ==> #[trigger] spec_lane(r.0@, j, l) == opt.alphabet.0@[opt.alphabet.0@.len() - 1],
        forall|j: int|
            0 <= j < r.1@.len() ==> (#[trigger] r.1@[j]).0@ == spec_unrolled_emitted(opt, idx, j)
                && keys_view(r.1@[j].1) == spec_keys_after(r.1@[j].0@),
        r.1@.len() == spec_unrolled_count(opt, idx),
{
    let chunks = chunk_alphabet(&opt.alphabet.0);
    let start2: Option<Vec<u8>> = match &opt.start_password {
        Some(p) => {
            let mut sp = clone_bytes(p);
            if sp.len() > 0 {
                sp.pop();
            }
            Some(sp)
        },
        None => None,
    };
    let opt2 = Opt {
        alphabet: crate::opt::Alphabet(clone_bytes(&opt.alphabet.0)),
        max_length: if opt.max_length == 0 {
            0
        } else {
            opt.max_length - 1
        },
        min_length: if opt.min_length == 0 {
            0
        } else {
            opt.min_length - 1
        },
        start_password: start2,
        unroll: opt.unroll,
        num_threads: opt.num_threads,
    };
    proof {
        assert(opt2.wf());
        assert(spec_init_digits(&opt2) =~= spec_unrolled_init_digits(opt));
    }
    let items = for_each_password(&opt2, idx);
    (chunks, items)
}

/// A 64-bit counter advanced by `n` attempts, wrapping on overflow as an
/// atomic 64-bit counter does.
pub open spec fn spec_wrap_add64(c: u64, n: int) -> u64 {
    ((c + n) % 0x1_0000_0000_0000_0000) as u64
}

/// The confirmed passwords among the first `n` emissions of shard `idx`:
/// those whose key state passes every entry's header check, in emission
/// order.
pub open spec fn spec_shard_hits(
    opt: &Opt,
    idx: u8,
    eds: Seq<crate::decrypt::EncryptionData>,
    n: int,
) -> Seq<Seq<u8>>
    decreases n,
{
    if n <= 0 {
        Seq::empty()
    } else {
        spec_shard_hits(opt, idx, eds, n - 1) + (if crate::decrypt::spec_all_match(
            eds,
            spec_keys_after(spec_emitted(opt, idx, n - 1)),
        ) {
            seq![spec_emitted(opt, idx, n - 1)]
        } else {
            Seq::empty()
        })
    }
}

/// Runs shard `idx` of the scalar search: every candidate of the shard is
/// attempted, the counter grows by one per attempt, every candidate that
/// passes all entries' header checks is appended to the found list, and the
/// published recent candidate is either untouched or one of the shard's
/// own.
#[verifier::loop_isolation(false)]
pub fn test_each_password(
    opt: &Opt,
    info: &mut crate::info::InfoData,
    idx: u8,
    eds: &Vec<crate::decrypt::EncryptionData>,
)
    requires
        opt.wf(),
    ensures
        final(info).counter == spec_wrap_add64(old(info).counter, spec_shard_count(opt, idx)),
        final(info).found_passwords.deep_view() == old(info).found_passwords.deep_view()
            + spec_shard_hits(opt, idx, eds@, spec_shard_count(opt, idx)),
        final(info).recent_password == old(info).recent_password || exists|j: int|
            0 <= j < spec_shard_count(opt, idx) && final(info).recent_password@ == spec_emitted(
                opt,
                idx,
                j,
            ),
{
    let table = Crc32Table::new();
    let emitted = for_each_password(opt, idx);
    let ghost deep0 = old(info).found_passwords.deep_view();
    let mut j: usize = 0;
    while j < emitted.len()
        invariant
            j <= emitted@.len(),
            table.wf(),
            info.counter == spec_wrap_add64(old(info).counter, j as int),
            info.found_passwords.deep_view() == deep0 + spec_shard_hits(opt, idx, eds@, j as int),
            info.recent_password == old(info).recent_password || exists|jj: int|
                0 <= jj < emitted@.len() && info.recent_password@ == spec_emitted(opt, idx, jj),
        decreases emitted@.len() - j,
    {
        let count_now = info.counter;
        info.counter = count_now.wrapping_add(1);
        if count_now % 100000 == 0 {
            info.recent_password = clone_bytes(&emitted[j].0);
        }
        let ghost deep_mid = info.found_passwords.deep_view();
        if crate::decrypt::eds_match(&table, eds, emitted[j].1) {
            let pw = clone_bytes(&emitted[j].0);
            info.found_passwords.push(pw);
            proof {
                assert(info.found_passwords.deep_view() =~~= deep_mid + seq![emitted@[j as int].0@]);
            }
        }
        j += 1;
        proof {
            let m = 0x1_0000_0000_0000_0000int;
            let x: int = old(info).counter + (j - 1);
            vstd::arithmetic::div_mod::lemma_add_mod_noop(x, 1, m);
            vstd::arithmetic::div_mod::lemma_mod_bound(x, m);
            assert((1int) % m == 1) by {
                vstd::arithmetic::div_mod::lemma_small_mod(1nat, m as nat);
            }
            if count_now == u64::MAX {
                assert(((x % m) + 1) % m == 0) by {
                    vstd::arithmetic::div_mod::lemma_mod_self_0(m);
                }
            } else {
                vstd::arithmetic::div_mod::lemma_small_mod(((x % m) + 1) as nat, m as nat);
            }
            assert(info.found_passwords.deep_view() =~~= deep0 + spec_shard_hits(
                opt,
                idx,
                eds@,
                j as int,
            ));
        }
    }
    proof {
        assert(emitted@.len() == spec_shard_count(opt, idx));
    }
}

/// A shard's emission count is never negative.
pub proof fn lemma_shard_count_nonneg(opt: &Opt, idx: u8)
    requires
        opt.wf(),
    ensures
        spec_shard_count(opt, idx) >= 0,
{
    let a = opt.alphabet.0@.len() as int;
    let base = spec_ord(spec_init_digits(opt), a);
    let omax = spec_ord_max(a, opt.max_length as nat);
    let n = opt.num_threads as int;
    if base + idx <= omax {
        let dd = omax - base - idx;
        vstd::arithmetic::div_mod::lemma_fundamental_div_mod(dd, n);
        vstd::arithmetic::div_mod::lemma_mod_bound(dd, n);
        assert(dd / n >= 0) by (nonlinear_arith)
            requires
                dd == n * (dd / n) + dd % n,
                0 <= dd % n < n,
                dd >= 0,
                n >= 1,
        ;
    }
}

/// A shard's block count in the unrolled mode is never negative.
pub proof fn lemma_unrolled_count_nonneg(opt: &Opt, idx: u8)
    requires
        opt.wf(),
    ensures
        spec_unrolled_count(opt, idx) >= 0,
{
    let a = opt.alphabet.0@.len() as int;
    let base = spec_ord(spec_unrolled_init_digits(opt), a);
    let omax = spec_ord_max(a, spec_sat_dec(opt.max_length) as nat);
    let n = opt.num_threads as int;
    if base + idx <= omax {
        let dd = omax - base - idx;
        vstd::arithmetic::div_mod::lemma_fundamental_div_mod(dd, n);
        vstd::arithmetic::div_mod::lemma_mod_bound(dd, n);
        assert(dd / n >= 0) by (nonlinear_arith)
            requires
                dd == n * (dd / n) + dd % n,
                0 <= dd % n < n,
                dd >= 0,
                n >= 1,
        ;
    }
}

/// The attempt counter is non-decreasing: as long as the total stays within
/// the counter's 64-bit range, advancing by `n` attempts adds exactly `n`.
pub proof fn lemma_counter_monotone(c: u64, n: int)
    requires
        0 <= n,
        c + n <= u64::MAX,
    ensures
        spec_wrap_add64(c, n) == c + n,
        spec_wrap_add64(c, n) >= c,
{
    vstd::arithmetic::div_mod::lemma_small_mod(
        (c + n) as nat,
        0x1_0000_0000_0000_0000nat,
    );
}

/// Wrapping counter advances compose: advancing by `x` and then by `y`
/// attempts is advancing by `x + y`.
pub proof fn lemma_wrap_add_compose(c: u64, x: int, y: int)
    requires
        x >= 0,
        y >= 0,
    ensures
        spec_wrap_add64(spec_wrap_add64(c, x), y) == spec_wrap_add64(c, (x + y) as int),
{
    let m = 0x1_0000_0000_0000_0000int;
    let a: int = c + x;
    vstd::arithmetic::div_mod::lemma_mod_bound(a, m);
    vstd::arithmetic::div_mod::lemma_mod_twice(a, m);
    vstd::arithmetic::div_mod::lemma_add_mod_noop(a % m, y, m);
    vstd::arithmetic::div_mod::lemma_add_mod_noop(a, y, m);
}

/// The confirmed passwords among the first `n` blocks of shard `idx` in the
/// unrolled mode: each block's consensus hits, in block order.
pub open spec fn spec_unrolled_hits(
    opt: &Opt,
    idx: u8,
    eds: Seq<crate::decrypt::EncryptionData>,
    n: int,
) -> Seq<Seq<u8>>
    decreases n,
{
    if n <= 0 {
        Seq::empty()
    } else {
        spec_unrolled_hits(opt, idx, eds, n - 1) + crate::crack::spec_block_hits_flat(
            eds,
            spec_keys_after(spec_unrolled_emitted(opt, idx, n - 1)),
            crate::crack::spec_padded(opt.alphabet.0@),
            spec_unrolled_emitted(opt, idx, n - 1),
        )
    }
}

/// Runs shard `idx` of the unrolled search: each block of eight last
/// characters counts as one attempt per alphabet letter, every confirmed
/// password of every block is appended to the found list, and the published
/// recent candidate is either untouched or a block prefix marked with a
/// trailing dash.
#[verifier::loop_isolation(false)]
pub fn test_each_password_unrolled(
    opt: &Opt,
    info: &mut crate::info::InfoData,
    idx: u8,
    eds: &Vec<crate::decrypt::EncryptionData>,
)
    requires
        opt.wf(),
    ensures
        final(info).counter == spec_wrap_add64(
            old(info).counter,
            spec_unrolled_count(opt, idx) * opt.alphabet.0@.len(),
        ),
        final(info).found_passwords.deep_view() == old(info).found_passwords.deep_view()
            + spec_unrolled_hits(opt, idx, eds@, spec_unrolled_count(opt, idx)),
        final(info).recent_password == old(info).recent_password || exists|j: int|
            0 <= j < spec_unrolled_count(opt, idx) && final(info).recent_password@
                == spec_unrolled_emitted(opt, idx, j).push(45u8),
{
    let table = Crc32Table::new();
    let r = for_each_password_unrolled(opt, idx);
    let chunks = r.0;
    let blocks = r.1;
    let password_block_size: u64 = opt.alphabet.0.len() as u64;
    let ghost a_len = opt.alphabet.0@.len() as int;
    let ghost m = 0x1_0000_0000_0000_0000int;
    let ghost deep0 = old(info).found_passwords.deep_view();
    proof {
        crate::crack::lemma_flat_of_chunked(opt.alphabet.0@, chunks@);
    }
    let mut block_counter: u64 = 0;
    let mut j: usize = 0;
    while j < blocks.len()
        invariant
            j <= blocks@.len(),
            table.wf(),
            info.counter == spec_wrap_add64(old(info).counter, j * a_len),
            info.found_passwords.deep_view() == deep0 + spec_unrolled_hits(opt, idx, eds@, j as int),
            info.recent_password == old(info).recent_password || exists|jj: int|
                0 <= jj < blocks@.len() && info.recent_password@ == spec_unrolled_emitted(
                    opt,
                    idx,
                    jj,
                ).push(45u8),
        decreases blocks@.len() - j,
    {
        let counter_before = info.counter;
        info.counter = counter_before.wrapping_add(password_block_size);
        proof {
            let x: int = old(info).counter + (j as int) * a_len;
            vstd::arithmetic::div_mod::lemma_mod_bound(x, m);
            vstd::arithmetic::div_mod::lemma_add_mod_noop(x, a_len, m);
            vstd::arithmetic::div_mod::lemma_small_mod(a_len as nat, m as nat);
            assert((j as int) * a_len + a_len == (j + 1) * a_len) by (nonlinear_arith);
            if counter_before + password_block_size > u64::MAX {
                vstd::arithmetic::div_mod::lemma_fundamental_div_mod_converse(
                    (x % m) + a_len,
                    m,
                    1,
                    (x % m) + a_len - m,
                );
            } else {
                vstd::arithmetic::div_mod::lemma_small_mod(((x % m) + a_len) as nat, m as nat);
            }
            assert(info.counter as int == ((x % m) + a_len) % m);
            assert(((x % m) + a_len) % m == (x + a_len) % m);
            assert(info.counter == spec_wrap_add64(old(info).counter, (j + 1) * a_len));
        }
        let bc = block_counter;
        block_counter = bc.wrapping_add(1);
        if bc == 100000 {
            let mut recent = clone_bytes(&blocks[j].0);
            recent.push(45);
            info.recent_password = recent;
            block_counter = 0;
            proof {
                assert(blocks@[j as int].0@ == spec_unrolled_emitted(opt, idx, j as int));
                assert(info.recent_password@ == spec_unrolled_emitted(opt, idx, j as int).push(
                    45u8,
                ));
            }
        }
        let pb = crate::decrypt::PasswordBlock {
            password_prefix: blocks[j].0.as_slice(),
            alphabet: chunks.as_slice(),
            initialized_keys: blocks[j].1,
        };
        proof {
            assert(8 * chunks@.len() <= 256) by {
                vstd::arithmetic::div_mod::lemma_fundamental_div_mod(a_len + 7, 8);
                vstd::arithmetic::div_mod::lemma_mod_bound(a_len + 7, 8);
            }
        }
        let hits = crate::crack::block_matching_passwords(&table, pb, eds);
        proof {
            crate::crack::lemma_multi_block_is_matching_flat(
                eds@,
                keys_view(blocks@[j as int].1),
                chunks@,
            );
        }
        let mut k: usize = 0;
        let ghost deep_mid = info.found_passwords.deep_view();
        let ghost counter_mid = info.counter;
        let ghost recent_mid = info.recent_password;
        while k < hits.len()
            invariant
                k <= hits@.len(),
                info.found_passwords.deep_view() =~~= deep_mid + hits.deep_view().take(k as int),
                info.counter == counter_mid,
                info.recent_password == recent_mid,
            decreases hits@.len() - k,
        {
            let ghost dbefore = info.found_passwords.deep_view();
            let pw = clone_bytes(&hits[k]);
            info.found_passwords.push(pw);
            k += 1;
            proof {
                assert(info.found_passwords.deep_view() =~~= dbefore + seq![hits@[k - 1]@]);
                assert(hits.deep_view().take(k as int) =~~= hits.deep_view().take(k - 1) + seq![
                    hits@[k - 1]@,
                ]);
                assert(info.found_passwords.deep_view() =~~= deep_mid + hits.deep_view().take(
                    k as int,
                ));
            }
        }
        proof {
            assert(hits.deep_view().take(hits.deep_view().len() as int) =~= hits.deep_view());
            assert(info.found_passwords.deep_view() =~~= deep_mid + hits.deep_view());
            assert(blocks@[j as int].0@ == spec_unrolled_emitted(opt, idx, j as int));
            assert(hits.deep_view() == crate::crack::spec_block_hits_flat(
                eds@,
                spec_keys_after(spec_unrolled_emitted(opt, idx, j as int)),
                crate::crack::spec_padded(opt.alphabet.0@),
                spec_unrolled_emitted(opt, idx, j as int),
            ));
        }
        j += 1;
        proof {
            assert(info.found_passwords.deep_view() =~~= deep0 + spec_unrolled_hits(
                opt,
                idx,
                eds@,
                j as int,
            ));
        }
    }
    proof {
        assert(blocks@.len() * a_len == spec_unrolled_count(opt, idx) * a_len);
    }
}

} // verus!
