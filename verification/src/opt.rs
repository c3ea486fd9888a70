//! The per-run search configuration: the candidate alphabet with its
//! normalization, the length bounds, the optional starting candidate, and
//! the worker count.

use vstd::prelude::*;

verus! {

/// A well-formed alphabet: non-empty, ASCII, strictly ascending (so also
/// free of duplicates), and therefore at most 128 bytes long.
pub open spec fn alpha_wf(a: Seq<u8>) -> bool {
    &&& 0 < a.len() <= 128
    &&& forall|i: int| 0 <= i < a.len() ==> a[i] < 128
    &&& forall|i: int, j: int| 0 <= i < j < a.len() ==> a[i] < a[j]
}

/// Byte `i` of the base64 alphabet `+/0-9A-Za-z` in ascending byte order.
pub open spec fn spec_base64_char(i: int) -> u8 {
    if i == 0 {
        43
    } else if i == 1 {
        47
    } else if i < 12 {
        (46 + i) as u8
    } else if i < 38 {
        (53 + i) as u8
    } else {
        (59 + i) as u8
    }
}

/// The 64-byte base64 alphabet.
pub open spec fn spec_base64() -> Seq<u8> {
    Seq::new(64, |i: int| spec_base64_char(i))
}

/// The bytes of the word that selects the base64 alphabet.
pub open spec fn spec_base64_name() -> Seq<u8> {
    seq![98u8, 97u8, 115u8, 101u8, 54u8, 52u8]
}

/// The bytes of the prefix that introduces a custom alphabet.
pub open spec fn spec_custom_prefix() -> Seq<u8> {
    seq![99u8, 117u8, 115u8, 116u8, 111u8, 109u8, 58u8]
}

pub open spec fn spec_all_ascii(s: Seq<u8>) -> bool {
    forall|i: int| 0 <= i < s.len() ==> s[i] < 128
}

/// Why an alphabet description was rejected.
#[derive(Clone, Copy, PartialEq, Eq, Structural, Debug)]
pub enum AlphabetError {
    /// The description contains a byte outside the ASCII range.
    NotAscii,
    /// The description names neither the base64 alphabet nor a custom one.
    Invalid,
    /// A custom alphabet with no letters.
    EmptyCustom,
}

/// The set of bytes candidate passwords are built from, kept strictly
/// ascending and duplicate-free.
pub struct Alphabet(pub Vec<u8>);

/// In a strictly ascending sequence every element is at least its index.
proof fn lemma_sorted_ge_index(s: Seq<u8>, i: int)
    requires
        forall|x: int, y: int| 0 <= x < y < s.len() ==> s[x] < s[y],
        0 <= i < s.len(),
    ensures
        s[i] >= i,
    decreases i,
{
    if i > 0 {
        lemma_sorted_ge_index(s, i - 1);
    }
}

impl Alphabet {
    pub open spec fn wf(&self) -> bool {
        alpha_wf(self.0@)
    }

    /// Builds the base64 alphabet.
    pub fn base64() -> (r: Alphabet)
        ensures
            r.0@ == spec_base64(),
            r.wf(),
    {
        let mut v: Vec<u8> = Vec::new();
        v.push(43);
        v.push(47);
        let mut c: u8 = 48;
        while c <= 57
            invariant
                48 <= c <= 58,
                v.len() == c - 46,
                forall|i: int| 0 <= i < v.len() ==> v[i] == spec_base64_char(i),
            decreases 58 - c,
        {
            v.push(c);
            c += 1;
        }
        let mut c: u8 = 65;
        while c <= 90
            invariant
                65 <= c <= 91,
                v.len() == c - 53,
                forall|i: int| 0 <= i < v.len() ==> v[i] == spec_base64_char(i),
            decreases 91 - c,
        {
            v.push(c);
            c += 1;
        }
        let mut c: u8 = 97;
        while c <= 122
            invariant
                97 <= c <= 123,
                v.len() == c - 59,
                forall|i: int| 0 <= i < v.len() ==> v[i] == spec_base64_char(i),
            decreases 123 - c,
        {
            v.push(c);
            c += 1;
        }
        proof {
            assert(v@ =~= spec_base64());
        }
        Alphabet(v)
    }

    /// Normalizes the letters of a custom alphabet: the result is strictly
    /// ascending, duplicate-free, and holds exactly the bytes of the input.
    #[verifier::loop_isolation(false)]
    fn normalized(s: &[u8], from: usize) -> (r: Vec<u8>)
        requires
            from <= s@.len(),
            forall|i: int| from <= i < s@.len() ==> s@[i] < 128,
        ensures
            forall|x: int, y: int| 0 <= x < y < r@.len() ==> r@[x] < r@[y],
            forall|i: int| 0 <= i < r@.len() ==> r@[i] < 128,
            forall|b: u8| r@.contains(b) <==> s@.skip(from as int).contains(b),
            r@.len() <= s@.len() - from,
    {
        let mut v: Vec<u8> = Vec::new();
        let mut i: usize = from;
        while i < s.len()
            invariant
                from <= i <= s@.len(),
                forall|x: int, y: int| 0 <= x < y < v@.len() ==> v@[x] < v@[y],
                forall|k: int| 0 <= k < v@.len() ==> v@[k] < 128,
                forall|b: u8| v@.contains(b) <==> s@.subrange(from as int, i as int).contains(b),
                v@.len() <= i - from,
            decreases s@.len() - i,
        {
            let c = s[i];
            let mut pos: usize = 0;
            while pos < v.len() && v[pos] < c
                invariant
                    pos <= v@.len(),
                    forall|k: int| 0 <= k < pos ==> v@[k] < c,
                decreases v@.len() - pos,
            {
                pos += 1;
            }
            let ghost vold = v@;
            if pos == v.len() || v[pos] > c {
                v.insert(pos, c);
                proof {
                    vold.insert_ensures(pos as int, c);
                    assert(forall|k: int| 0 <= k < pos ==> v@[k] == vold[k]);
                    assert(v@[pos as int] == c);
                    assert forall|k: int| pos < k < v@.len() implies v@[k] == vold[k - 1] by {
                        assert(vold.insert(pos as int, c)[(k - 1) + 1] == vold[k - 1]);
                    }
                    assert forall|k: int| 0 <= k < v@.len() implies v@[k] < 128 by {
                        if k > pos {
                            assert(v@[k] == vold[k - 1]);
                        }
                    }
                    assert forall|x: int, y: int| 0 <= x < y < v@.len() implies v@[x] < v@[y] by {
                        if y < pos {
                        } else if y == pos {
                            assert(v@[x] == vold[x] && vold[x] < c);
                        } else {
                            assert(v@[y] == vold[y - 1]);
                            assert(vold[pos as int] > c);
                            if x < pos {
                                assert(v@[x] == vold[x] && vold[x] < c);
                                assert(c <= vold[y - 1]) by {
                                    if y - 1 > pos {
                                        assert(vold[pos as int] < vold[y - 1]);
                                    }
                                }
                            } else if x == pos {
                                assert(v@[x] == c);
                                assert(c < vold[y - 1]) by {
                                    if y - 1 > pos {
                                        assert(vold[pos as int] < vold[y - 1]);
                                    }
                                }
                            } else {
                                assert(v@[x] == vold[x - 1]);
                            }
                        }
                    }
                    assert forall|b: u8| v@.contains(b) implies (vold.contains(b) || b == c) by {
                        let k = choose|k: int| 0 <= k < v@.len() && v@[k] == b;
                        if k < pos {
                            assert(vold[k] == b);
                        } else if k > pos {
                            assert(vold[k - 1] == b);
                        }
                    }
                    assert forall|b: u8| (vold.contains(b) || b == c) implies v@.contains(b) by {
                        if vold.contains(b) {
                            let k = choose|k: int| 0 <= k < vold.len() && vold[k] == b;
                            if k < pos {
                                assert(v@[k] == b);
                            } else {
                                assert(v@[k + 1] == b);
                            }
                        } else {
                            assert(v@[pos as int] == b);
                        }
                    }
                }
            } else {
                proof {
                    assert(v@.contains(c)) by {
                        assert(v@[pos as int] == c);
                    }
                }
            }
            i += 1;
            proof {
                let sub = s@.subrange(from as int, i as int);
                assert(sub.drop_last() =~= s@.subrange(from as int, i - 1));
                assert forall|b: u8| sub.contains(b) implies (sub.drop_last().contains(b) || b
                    == c) by {
                    let k = choose|k: int| 0 <= k < sub.len() && sub[k] == b;
                    if k < sub.len() - 1 {
                        assert(sub.drop_last()[k] == b);
                    }
                }
                assert forall|b: u8| (sub.drop_last().contains(b) || b == c) implies sub.contains(
                    b,
                ) by {
                    if sub.drop_last().contains(b) {
                        let k = choose|k: int|
                            0 <= k < sub.len() - 1 && sub.drop_last()[k] == b;
                        assert(sub[k] == b);
                    } else {
                        assert(sub[sub.len() - 1] == b);
                    }
                }
                assert forall|b: u8| v@.contains(b) <==> #[trigger] sub.contains(b) by {
                    assert(v@.contains(b) <==> (vold.contains(b) || b == c));
                    assert(vold.contains(b) <==> sub.drop_last().contains(b));
                }
            }
        }
        proof {
            assert(s@.subrange(from as int, s@.len() as int) =~= s@.skip(from as int));
        }
        v
    }

    /// Parses an alphabet description: either the word selecting the
    /// base64 alphabet, or the custom prefix followed by the letters, which
    /// are sorted and deduplicated.
    pub fn parse(s: &[u8]) -> (r: Result<Alphabet, AlphabetError>)
        ensures
            r is Ok ==> r->Ok_0.wf(),
            r is Ok <==> spec_all_ascii(s@) && (s@ == spec_base64_name() || (s@.len() > 7
                && s@.take(7) == spec_custom_prefix())),
            r is Ok && s@ == spec_base64_name() ==> r->Ok_0.0@ == spec_base64(),
            r is Ok && s@ != spec_base64_name() ==> forall|b: u8|
                r->Ok_0.0@.contains(b) <==> s@.skip(7).contains(b),
            r == Err::<Alphabet, AlphabetError>(AlphabetError::NotAscii) <==> !spec_all_ascii(s@),
            r == Err::<Alphabet, AlphabetError>(AlphabetError::EmptyCustom) <==> spec_all_ascii(s@)
                && s@ =~= spec_custom_prefix(),
    {
        let mut i: usize = 0;
        while i < s.len()
            invariant
                i <= s@.len(),
                forall|k: int| 0 <= k < i ==> s@[k] < 128,
            decreases s@.len() - i,
        {
            if s[i] >= 128 {
                return Err(AlphabetError::NotAscii);
            }
            i += 1;
        }
        if s.len() == 6 && s[0] == 98 && s[1] == 97 && s[2] == 115 && s[3] == 101 && s[4] == 54
            && s[5] == 52 {
            proof {
                assert(s@ =~= spec_base64_name());
            }
            return Ok(Alphabet::base64());
        }
        proof {
            assert(s@ != spec_base64_name());
        }
        if s.len() >= 7 && s[0] == 99 && s[1] == 117 && s[2] == 115 && s[3] == 116 && s[4] == 111
            && s[5] == 109 && s[6] == 58 {
            proof {
                assert(s@.take(7) =~= spec_custom_prefix());
            }
            if s.len() == 7 {
                proof {
                    assert(s@ =~= spec_custom_prefix());
                }
                return Err(AlphabetError::EmptyCustom);
            }
            let v = Alphabet::normalized(s, 7);
            proof {
                assert(s@.skip(7).len() > 0);
                assert(s@.skip(7).contains(s@[7])) by {
                    assert(s@.skip(7)[0] == s@[7]);
                }
                assert(v@.contains(s@[7]));
                let k = choose|k: int| 0 <= k < v@.len() && v@[k] == s@[7];
                assert(v@.len() > 0);
                if v@.len() > 128 {
                    lemma_sorted_ge_index(v@, 128);
                }
                assert(s@ != spec_custom_prefix());
            }
            return Ok(Alphabet(v));
        }
        proof {
            if s@.len() > 7 && s@.take(7) == spec_custom_prefix() {
                assert(s@[0] == 99 && s@[1] == 117 && s@[2] == 115 && s@[3] == 116 && s@[4] == 111
                    && s@[5] == 109 && s@[6] == 58) by {
                    assert(forall|k: int| 0 <= k < 7 ==> s@.take(7)[k] == s@[k]);
                }
            }
            assert(!(s@ =~= spec_custom_prefix()));
        }
        Err(AlphabetError::Invalid)
    }
}

/// The per-run search configuration.
pub struct Opt {
    /// The alphabet to build passwords from.
    pub alphabet: Alphabet,
    /// The maximum password length.
    pub max_length: u8,
    /// The minimum password length.
    pub min_length: u8,
    /// Starts the search from this candidate, not the lowest one.
    pub start_password: Option<Vec<u8>>,
    /// Whether the unrolled version of the algorithm is selected.
    pub unroll: bool,
    /// How many worker shards the search space is striped across.
    pub num_threads: u8,
}

impl Opt {
    /// A usable configuration: well-formed alphabet, ordered length bounds,
    /// at least one worker, and a starting candidate (when given) made of
    /// alphabet letters and no longer than the maximum length.
    pub open spec fn wf(&self) -> bool {
        &&& self.alphabet.wf()
        &&& self.min_length <= self.max_length
        &&& self.num_threads >= 1
        &&& match self.start_password {
            Some(p) => p@.len() <= self.max_length && forall|i: int|
                0 <= i < p@.len() ==> self.alphabet.0@.contains(p@[i]),
            None => true,
        }
    }
}

} // verus!
