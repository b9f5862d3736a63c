//! The stored form of providers, routes and statistics.
//!
//! The auction engine keeps its state in an embedded store; each record is
//! written in the same canonical textual style as the wire format, and the
//! parser accepts exactly the canonical form, so a stored record reads
//! back as the value that was written.

use vstd::prelude::*;

use crate::auction::{AuctionStats, ComputeProvider, Route};
use crate::common::{LaneId, SlpId};
use crate::gxf::{PrecisionCounts, PrecisionLevel};
use crate::wire::{
    enc_string, expect_lit, is_digit, parse_string, parse_u64, push_lit, push_string, push_u64,
    spec_dec, spec_lit_at, spec_num_at, spec_string_at, str_bytes, wire_str_ok, lemma_seq_join,
    lemma_seq_split, lemma_dec_props,
};

verus! {

/// The tag a precision level is stored as.
pub open spec fn spec_precision_tag(p: PrecisionLevel) -> u64 {
    match p {
        PrecisionLevel::BF16 => 0,
        PrecisionLevel::FP8 => 1,
        PrecisionLevel::E5M2 => 2,
        PrecisionLevel::INT8 => 3,
    }
}

/// The precision level a stored tag names, if any.
pub open spec fn spec_tag_precision(t: u64) -> Option<PrecisionLevel> {
    if t == 0 {
        Some(PrecisionLevel::BF16)
    } else if t == 1 {
        Some(PrecisionLevel::FP8)
    } else if t == 2 {
        Some(PrecisionLevel::E5M2)
    } else if t == 3 {
        Some(PrecisionLevel::INT8)
    } else {
        None
    }
}

// ---------------------------------------------------------------------
// Lists of numbers
// ---------------------------------------------------------------------
/// The comma-separated encoding of a list of numbers.
pub open spec fn enc_u64_items(xs: Seq<u64>) -> Seq<u8>
    decreases xs.len(),
{
    if xs.len() == 0 {
        Seq::empty()
    } else if xs.len() == 1 {
        spec_dec(xs[0] as nat)
    } else {
        spec_dec(xs[0] as nat) + seq![0x2cu8] + enc_u64_items(xs.drop_first())
    }
}

/// The encoding of a list of numbers: its items between brackets.
pub open spec fn enc_u64_list(xs: Seq<u64>) -> Seq<u8> {
    seq![0x5bu8] + enc_u64_items(xs) + seq![0x5du8]
}

/// Whether position `i` of `s` holds the items of the nonempty number
/// list `xs` followed by the closing bracket.
pub open spec fn spec_u64_items_at(s: Seq<u8>, i: int, xs: Seq<u64>) -> bool {
    &&& 0 <= i
    &&& xs.len() >= 1
    &&& i + enc_u64_items(xs).len() + 1 <= s.len()
    &&& s.subrange(i, i + enc_u64_items(xs).len() + 1) == enc_u64_items(xs) + seq![0x5du8]
}

/// Whether position `i` of `s` holds the encoding of the number list `xs`.
pub open spec fn spec_u64_list_at(s: Seq<u8>, i: int, xs: Seq<u64>) -> bool {
    &&& 0 <= i
    &&& i + enc_u64_list(xs).len() <= s.len()
    &&& s.subrange(i, i + enc_u64_list(xs).len()) == enc_u64_list(xs)
}

/// Appends the items of `v` from index `k` on, comma-separated.
pub fn push_u64_items(out: &mut Vec<u8>, v: &Vec<u64>, k: usize)
    requires
        k <= v@.len(),
    ensures
        final(out)@ == old(out)@ + enc_u64_items(v@.skip(k as int)),
    decreases v@.len() - k,
{
    if k < v.len() {
        push_u64(out, v[k]);
        if k + 1 < v.len() {
            out.push(0x2cu8);
            push_u64_items(out, v, k + 1);
            proof {
                let rest = v@.skip(k as int);
                assert(rest.drop_first() =~= v@.skip(k + 1));
                assert(final(out)@ =~= old(out)@ + enc_u64_items(rest));
            }
        } else {
            proof {
                let rest = v@.skip(k as int);
                assert(rest.len() == 1 && rest[0] == v@[k as int]);
                assert(final(out)@ =~= old(out)@ + enc_u64_items(rest));
            }
        }
    } else {
        proof {
            assert(v@.skip(k as int) =~= Seq::<u64>::empty());
            assert(final(out)@ =~= old(out)@ + enc_u64_items(v@.skip(k as int)));
        }
    }
}

/// Appends the encoding of a number list.
pub fn push_u64_list(out: &mut Vec<u8>, v: &Vec<u64>)
    ensures
        final(out)@ == old(out)@ + enc_u64_list(v@),
{
    out.push(0x5bu8);
    push_u64_items(out, v, 0);
    out.push(0x5du8);
    proof {
        assert(v@.skip(0) =~= v@);
        assert(final(out)@ =~= old(out)@ + enc_u64_list(v@));
    }
}

/// What stands right after the leading number of a number-list item
/// region.
pub open spec fn u64_lead_facts(s: Seq<u8>, i: int, xs: Seq<u64>) -> bool {
    let j = i + spec_dec(xs[0] as nat).len();
    &&& j < s.len()
    &&& (xs.len() == 1 ==> s[j] == 0x5d && j + 1 == i + enc_u64_items(xs).len() + 1)
    &&& (xs.len() >= 2 ==> s[j] == 0x2c && spec_u64_items_at(s, j + 1, xs.drop_first()) && i
        + enc_u64_items(xs).len() + 1 == j + 1 + enc_u64_items(xs.drop_first()).len() + 1)
}

/// Splits a number-list item region into its leading number and the rest.
proof fn lemma_u64_items_head(s: Seq<u8>, i: int, xs: Seq<u64>)
    requires
        spec_u64_items_at(s, i, xs),
    ensures
        spec_num_at(s, i, xs[0] as nat),
        u64_lead_facts(s, i, xs),
{
    let d0 = spec_dec(xs[0] as nat);
    let j = i + d0.len();
    lemma_dec_props(xs[0] as nat);
    if xs.len() == 1 {
        assert(enc_u64_items(xs) == d0);
        lemma_seq_split(s, i, d0, seq![0x5du8]);
        assert(s[j] == s.subrange(j, j + 1)[0]);
        assert(!is_digit(0x5du8));
    } else {
        let rest = enc_u64_items(xs.drop_first());
        assert(enc_u64_items(xs) == d0 + seq![0x2cu8] + rest);
        assert((d0 + seq![0x2cu8] + rest) + seq![0x5du8] =~= d0 + ((seq![0x2cu8] + rest) + seq![
            0x5du8,
        ]));
        lemma_seq_split(s, i, d0, (seq![0x2cu8] + rest) + seq![0x5du8]);
        assert(s.subrange(j, j + 1 + rest.len() + 1) == (seq![0x2cu8] + rest) + seq![0x5du8]);
        assert(s[j] == s.subrange(j, j + 1 + rest.len() + 1)[0]);
        assert(!is_digit(0x2cu8));
        assert((seq![0x2cu8] + rest) + seq![0x5du8] =~= seq![0x2cu8] + (rest + seq![0x5du8]));
        lemma_seq_split(s, j, seq![0x2cu8], rest + seq![0x5du8]);
        assert(s.subrange(j + 1, j + 1 + rest.len() + 1) == rest + seq![0x5du8]);
        assert(spec_u64_items_at(s, j + 1, xs.drop_first()));
    }
}

/// Reads the comma-separated items of a number list and its closing
/// bracket at position `i`.
pub fn parse_u64_items(s: &[u8], i: usize) -> (r: Option<(Vec<u64>, usize)>)
    requires
        i <= s@.len(),
    ensures
        r matches Some(p) ==> {
            &&& p.0@.len() >= 1
            &&& i < p.1 <= s@.len()
            &&& s@.subrange(i as int, p.1 as int) == enc_u64_items(p.0@) + seq![0x5du8]
            &&& p.1 == i + enc_u64_items(p.0@).len() + 1
        },
        forall|xs: Seq<u64>|
            spec_u64_items_at(s@, i as int, xs) ==> (r matches Some(p) && p.0@ == xs && p.1 == i
                + enc_u64_items(xs).len() + 1),
    decreases s@.len() - i,
{
    proof {
        assert forall|xs: Seq<u64>|
            spec_u64_items_at(s@, i as int, xs) implies spec_num_at(s@, i as int, xs[0] as nat)
            && u64_lead_facts(s@, i as int, xs) by {
            lemma_u64_items_head(s@, i as int, xs);
        }
    }
    let r0 = parse_u64(s, i);
    match r0 {
        None => {
            proof {
                assert forall|xs: Seq<u64>| !spec_u64_items_at(s@, i as int, xs) by {
                    if spec_u64_items_at(s@, i as int, xs) {
                        let n64 = xs[0];
                        assert(spec_num_at(s@, i as int, n64 as nat));
                    }
                }
            }
            return None;
        },
        Some((n, j)) => {
            proof {
                assert forall|xs: Seq<u64>|
                    spec_u64_items_at(s@, i as int, xs) implies n == xs[0] && j == i + spec_dec(
                    xs[0] as nat,
                ).len() by {
                    let n64 = xs[0];
                    assert(spec_num_at(s@, i as int, n64 as nat));
                }
            }
            if j == s.len() {
                return None;
            }
            let c = s[j];
            if c == 0x5d {
                let mut v: Vec<u64> = Vec::new();
                v.push(n);
                proof {
                    assert(enc_u64_items(v@) == spec_dec(n as nat));
                    assert(s@.subrange(i as int, j + 1) =~= enc_u64_items(v@) + seq![0x5du8]);
                    assert forall|xs: Seq<u64>| spec_u64_items_at(s@, i as int, xs) implies v@ == xs
                        && j + 1 == i + enc_u64_items(xs).len() + 1 by {
                        if xs.len() >= 2 {
                            assert(false);
                        }
                        assert(v@ =~= xs);
                    }
                }
                return Some((v, j + 1));
            }
            if c == 0x2c {
                match parse_u64_items(s, j + 1) {
                    None => {
                        proof {
                            assert forall|xs: Seq<u64>| !spec_u64_items_at(s@, i as int, xs) by {
                                if spec_u64_items_at(s@, i as int, xs) {
                                    assert(xs.len() >= 2);
                                }
                            }
                        }
                        return None;
                    },
                    Some((mut v, j2)) => {
                        let ghost vold = v@;
                        v.insert(0, n);
                        proof {
                            assert(v@ =~= seq![n] + vold);
                            assert(v@.drop_first() =~= vold);
                            assert(enc_u64_items(v@) == spec_dec(n as nat) + seq![0x2cu8]
                                + enc_u64_items(vold));
                            lemma_seq_join(s@, i as int, j as int, j + 1);
                            lemma_seq_join(s@, i as int, j + 1, j2 as int);
                            assert(s@.subrange(j as int, j + 1) =~= seq![0x2cu8]);
                            assert(s@.subrange(i as int, j2 as int) =~= enc_u64_items(v@) + seq![
                                0x5du8,
                            ]);
                            assert forall|xs: Seq<u64>|
                                spec_u64_items_at(s@, i as int, xs) implies v@ == xs && j2 == i
                                + enc_u64_items(xs).len() + 1 by {
                                assert(xs.len() >= 2);
                                assert(v@ =~= xs);
                            }
                        }
                        return Some((v, j2));
                    },
                }
            }
            proof {
                assert forall|xs: Seq<u64>| !spec_u64_items_at(s@, i as int, xs) by {
                    if spec_u64_items_at(s@, i as int, xs) {
                    }
                }
            }
            None
        },
    }
}

/// Reads a number list at position `i`.
pub fn parse_u64_list(s: &[u8], i: usize) -> (r: Option<(Vec<u64>, usize)>)
    requires
        i <= s@.len(),
    ensures
        r matches Some(p) ==> {
            &&& i < p.1 <= s@.len()
            &&& s@.subrange(i as int, p.1 as int) == enc_u64_list(p.0@)
            &&& p.1 == i + enc_u64_list(p.0@).len()
        },
        forall|xs: Seq<u64>|
            spec_u64_list_at(s@, i as int, xs) ==> (r matches Some(p) && p.0@ == xs && p.1 == i
                + enc_u64_list(xs).len()),
{
    let len = s.len();
    if i == len || s[i] != 0x5b {
        proof {
            assert forall|xs: Seq<u64>| !spec_u64_list_at(s@, i as int, xs) by {
                if spec_u64_list_at(s@, i as int, xs) {
                    assert(s@.subrange(i as int, i + enc_u64_list(xs).len())[0] == s@[i as int]);
                    assert(enc_u64_list(xs)[0] == 0x5b);
                }
            }
        }
        return None;
    }
    if i + 1 < len && s[i + 1] == 0x5d {
        let v: Vec<u64> = Vec::new();
        proof {
            assert(enc_u64_items(v@) =~= Seq::<u8>::empty());
            assert(s@.subrange(i as int, i + 2) =~= enc_u64_list(v@));
            assert forall|xs: Seq<u64>| spec_u64_list_at(s@, i as int, xs) implies v@ == xs && i + 2
                == i + enc_u64_list(xs).len() by {
                lemma_u64_list_second_byte(s@, i as int, xs);
                if xs.len() >= 1 {
                    assert(false);
                }
                assert(v@ =~= xs);
            }
        }
        return Some((v, i + 2));
    }
    match parse_u64_items(s, i + 1) {
        None => {
            proof {
                assert forall|xs: Seq<u64>| !spec_u64_list_at(s@, i as int, xs) by {
                    if spec_u64_list_at(s@, i as int, xs) {
                        lemma_u64_list_second_byte(s@, i as int, xs);
                        if xs.len() == 0 {
                            assert(i + 1 < len && s@[i + 1] == 0x5d);
                        } else {
                            lemma_u64_list_items(s@, i as int, xs);
                        }
                    }
                }
            }
            None
        },
        Some((v, j)) => {
            proof {
                lemma_seq_join(s@, i as int, i + 1, j as int);
                assert(s@.subrange(i as int, i + 1) =~= seq![0x5bu8]);
                assert(seq![0x5bu8] + (enc_u64_items(v@) + seq![0x5du8]) =~= enc_u64_list(v@));
                assert forall|xs: Seq<u64>| spec_u64_list_at(s@, i as int, xs) implies v@ == xs && j
                    == i + enc_u64_list(xs).len() by {
                    lemma_u64_list_second_byte(s@, i as int, xs);
                    if xs.len() == 0 {
                        assert(i + 1 < len && s@[i + 1] == 0x5d);
                        lemma_u64_items_head(s@, i + 1, v@);
                        assert(false);
                    } else {
                        lemma_u64_list_items(s@, i as int, xs);
                    }
                }
            }
            Some((v, j))
        },
    }
}

/// The second byte of an encoded number list.
proof fn lemma_u64_list_second_byte(s: Seq<u8>, i: int, xs: Seq<u64>)
    requires
        spec_u64_list_at(s, i, xs),
    ensures
        i + 1 < s.len(),
        xs.len() == 0 ==> s[i + 1] == 0x5d,
        xs.len() >= 1 ==> is_digit(s[i + 1]) && s[i + 1] != 0x5d,
{
    let e = enc_u64_list(xs);
    assert(s[i + 1] == s.subrange(i, i + e.len())[1]);
    if xs.len() == 0 {
        assert(enc_u64_items(xs) =~= Seq::<u8>::empty());
        assert(e[1] == 0x5d);
    } else {
        lemma_dec_props(xs[0] as nat);
        if xs.len() == 1 {
            assert(e[1] == spec_dec(xs[0] as nat)[0]);
        } else {
            assert(e[1] == (spec_dec(xs[0] as nat) + seq![0x2cu8] + enc_u64_items(
                xs.drop_first(),
            ))[0]);
        }
        assert(is_digit(e[1]));
        assert(!is_digit(0x5du8));
    }
}

/// Splitting an encoded number list after its opening bracket.
proof fn lemma_u64_list_items(s: Seq<u8>, i: int, xs: Seq<u64>)
    requires
        spec_u64_list_at(s, i, xs),
        xs.len() >= 1,
    ensures
        spec_u64_items_at(s, i + 1, xs),
{
    let inner = enc_u64_items(xs) + seq![0x5du8];
    assert(enc_u64_list(xs) =~= seq![0x5bu8] + inner);
    lemma_seq_split(s, i, seq![0x5bu8], inner);
}

// ---------------------------------------------------------------------
// Lists of strings
// ---------------------------------------------------------------------
/// The model of a vector of strings.
pub open spec fn strs_view(v: Seq<String>) -> Seq<Seq<char>> {
    v.map_values(|s: String| s@)
}

/// Whether every string of a list may stand on the wire.
pub open spec fn wire_strs_ok(l: Seq<Seq<char>>) -> bool {
    forall|t: int| 0 <= t < l.len() ==> wire_str_ok(#[trigger] l[t])
}

/// The comma-separated encoding of a list of strings.
pub open spec fn enc_str_items(l: Seq<Seq<char>>) -> Seq<u8>
    decreases l.len(),
{
    if l.len() == 0 {
        Seq::empty()
    } else if l.len() == 1 {
        enc_string(l[0])
    } else {
        enc_string(l[0]) + seq![0x2cu8] + enc_str_items(l.drop_first())
    }
}

/// The encoding of a string list: its items between brackets.
pub open spec fn enc_str_list(l: Seq<Seq<char>>) -> Seq<u8> {
    seq![0x5bu8] + enc_str_items(l) + seq![0x5du8]
}

/// Whether position `i` of `s` holds the items of the nonempty string
/// list `l` followed by the closing bracket.
pub open spec fn spec_str_items_at(s: Seq<u8>, i: int, l: Seq<Seq<char>>) -> bool {
    &&& 0 <= i
    &&& l.len() >= 1
    &&& wire_strs_ok(l)
    &&& i + enc_str_items(l).len() + 1 <= s.len()
    &&& s.subrange(i, i + enc_str_items(l).len() + 1) == enc_str_items(l) + seq![0x5du8]
}

/// Whether position `i` of `s` holds the encoding of the string list `l`.
pub open spec fn spec_str_list_at(s: Seq<u8>, i: int, l: Seq<Seq<char>>) -> bool {
    &&& 0 <= i
    &&& wire_strs_ok(l)
    &&& i + enc_str_list(l).len() <= s.len()
    &&& s.subrange(i, i + enc_str_list(l).len()) == enc_str_list(l)
}

/// Appends the items of `v` from index `k` on, comma-separated.
pub fn push_str_items(out: &mut Vec<u8>, v: &Vec<String>, k: usize)
    requires
        k <= v@.len(),
        wire_strs_ok(strs_view(v@)),
    ensures
        final(out)@ == old(out)@ + enc_str_items(strs_view(v@).skip(k as int)),
    decreases v@.len() - k,
{
    if k < v.len() {
        proof {
            assert(strs_view(v@)[k as int] == v@[k as int]@);
            assert(wire_str_ok(strs_view(v@)[k as int]));
        }
        push_string(out, v[k].as_str());
        if k + 1 < v.len() {
            out.push(0x2cu8);
            push_str_items(out, v, k + 1);
            proof {
                let rest = strs_view(v@).skip(k as int);
                assert(rest.drop_first() =~= strs_view(v@).skip(k + 1));
                assert(final(out)@ =~= old(out)@ + enc_str_items(rest));
            }
        } else {
            proof {
                let rest = strs_view(v@).skip(k as int);
                assert(rest.len() == 1 && rest[0] == strs_view(v@)[k as int]);
                assert(final(out)@ =~= old(out)@ + enc_str_items(rest));
            }
        }
    } else {
        proof {
            assert(strs_view(v@).skip(k as int) =~= Seq::<Seq<char>>::empty());
            assert(final(out)@ =~= old(out)@ + enc_str_items(strs_view(v@).skip(k as int)));
        }
    }
}

/// Appends the encoding of a string list.
pub fn push_str_list(out: &mut Vec<u8>, v: &Vec<String>)
    requires
        wire_strs_ok(strs_view(v@)),
    ensures
        final(out)@ == old(out)@ + enc_str_list(strs_view(v@)),
{
    out.push(0x5bu8);
    push_str_items(out, v, 0);
    out.push(0x5du8);
    proof {
        assert(strs_view(v@).skip(0) =~= strs_view(v@));
        assert(final(out)@ =~= old(out)@ + enc_str_list(strs_view(v@)));
    }
}

/// What stands right after the leading string of a string-list item
/// region.
pub open spec fn str_lead_facts(s: Seq<u8>, i: int, l: Seq<Seq<char>>) -> bool {
    let j = i + enc_string(l[0]).len();
    &&& j < s.len()
    &&& (l.len() == 1 ==> s[j] == 0x5d && j + 1 == i + enc_str_items(l).len() + 1)
    &&& (l.len() >= 2 ==> s[j] == 0x2c && spec_str_items_at(s, j + 1, l.drop_first()) && i
        + enc_str_items(l).len() + 1 == j + 1 + enc_str_items(l.drop_first()).len() + 1)
}

/// Splits a string-list item region into its leading string and the rest.
proof fn lemma_str_items_head(s: Seq<u8>, i: int, l: Seq<Seq<char>>)
    requires
        spec_str_items_at(s, i, l),
    ensures
        spec_string_at(s, i, l[0]),
        str_lead_facts(s, i, l),
{
    let e0 = enc_string(l[0]);
    let j = i + e0.len();
    if l.len() == 1 {
        assert(enc_str_items(l) == e0);
        lemma_seq_split(s, i, e0, seq![0x5du8]);
        assert(s[j] == s.subrange(j, j + 1)[0]);
    } else {
        let rest = enc_str_items(l.drop_first());
        assert(enc_str_items(l) == e0 + seq![0x2cu8] + rest);
        assert((e0 + seq![0x2cu8] + rest) + seq![0x5du8] =~= e0 + ((seq![0x2cu8] + rest) + seq![
            0x5du8,
        ]));
        lemma_seq_split(s, i, e0, (seq![0x2cu8] + rest) + seq![0x5du8]);
        assert(s.subrange(j, j + 1 + rest.len() + 1) == (seq![0x2cu8] + rest) + seq![0x5du8]);
        assert(s[j] == s.subrange(j, j + 1 + rest.len() + 1)[0]);
        assert((seq![0x2cu8] + rest) + seq![0x5du8] =~= seq![0x2cu8] + (rest + seq![0x5du8]));
        lemma_seq_split(s, j, seq![0x2cu8], rest + seq![0x5du8]);
        assert(s.subrange(j + 1, j + 1 + rest.len() + 1) == rest + seq![0x5du8]);
        assert forall|t: int| 0 <= t < l.drop_first().len() implies wire_str_ok(
            #[trigger] l.drop_first()[t],
        ) by {
            assert(l.drop_first()[t] == l[t + 1]);
        }
        assert(spec_str_items_at(s, j + 1, l.drop_first()));
    }
}

/// Reads the comma-separated items of a string list and its closing
/// bracket at position `i`.
pub fn parse_str_items(s: &[u8], i: usize) -> (r: Option<(Vec<String>, usize)>)
    requires
        i <= s@.len(),
    ensures
        r matches Some(p) ==> {
            &&& p.0@.len() >= 1
            &&& wire_strs_ok(strs_view(p.0@))
            &&& i < p.1 <= s@.len()
            &&& s@.subrange(i as int, p.1 as int) == enc_str_items(strs_view(p.0@)) + seq![0x5du8]
            &&& p.1 == i + enc_str_items(strs_view(p.0@)).len() + 1
        },
        forall|l: Seq<Seq<char>>|
            spec_str_items_at(s@, i as int, l) ==> (r matches Some(p) && strs_view(p.0@) == l
                && p.1 == i + enc_str_items(l).len() + 1),
    decreases s@.len() - i,
{
    proof {
        assert forall|l: Seq<Seq<char>>|
            spec_str_items_at(s@, i as int, l) implies spec_string_at(s@, i as int, l[0])
            && str_lead_facts(s@, i as int, l) by {
            lemma_str_items_head(s@, i as int, l);
        }
    }
    match parse_string(s, i) {
        None => None,
        Some((st, j)) => {
            if j == s.len() {
                return None;
            }
            let c = s[j];
            if c == 0x5d {
                let mut v: Vec<String> = Vec::new();
                v.push(st);
                proof {
                    assert(strs_view(v@) =~= seq![v@[0]@]);
                    assert(enc_str_items(strs_view(v@)) == enc_string(v@[0]@));
                    assert(s@.subrange(i as int, j + 1) =~= enc_str_items(strs_view(v@)) + seq![
                        0x5du8,
                    ]);
                    assert forall|l: Seq<Seq<char>>|
                        spec_str_items_at(s@, i as int, l) implies strs_view(v@) == l && j + 1 == i
                        + enc_str_items(l).len() + 1 by {
                        if l.len() >= 2 {
                            assert(false);
                        }
                        assert(strs_view(v@) =~= l);
                    }
                }
                return Some((v, j + 1));
            }
            if c == 0x2c {
                match parse_str_items(s, j + 1) {
                    None => {
                        proof {
                            assert forall|l: Seq<Seq<char>>|
                                !spec_str_items_at(s@, i as int, l) by {
                                if spec_str_items_at(s@, i as int, l) {
                                    assert(l.len() >= 2);
                                }
                            }
                        }
                        return None;
                    },
                    Some((mut v, j2)) => {
                        let ghost vold = v@;
                        v.insert(0, st);
                        proof {
                            assert(v@ =~= seq![v@[0]] + vold);
                            assert(strs_view(v@) =~= seq![v@[0]@] + strs_view(vold));
                            assert(strs_view(v@).drop_first() =~= strs_view(vold));
                            assert(strs_view(v@)[0] == v@[0]@);
                            assert(enc_str_items(strs_view(v@)) == enc_string(v@[0]@) + seq![
                                0x2cu8,
                            ] + enc_str_items(strs_view(vold)));
                            lemma_seq_join(s@, i as int, j as int, j + 1);
                            lemma_seq_join(s@, i as int, j + 1, j2 as int);
                            assert(s@.subrange(j as int, j + 1) =~= seq![0x2cu8]);
                            assert(s@.subrange(i as int, j2 as int) =~= enc_str_items(
                                strs_view(v@),
                            ) + seq![0x5du8]);
                            assert forall|l: Seq<Seq<char>>|
                                spec_str_items_at(s@, i as int, l) implies strs_view(v@) == l && j2
                                == i + enc_str_items(l).len() + 1 by {
                                assert(l.len() >= 2);
                                assert(strs_view(vold) == l.drop_first());
                                assert(strs_view(v@) =~= l);
                            }
                        }
                        return Some((v, j2));
                    },
                }
            }
            proof {
                assert forall|l: Seq<Seq<char>>| !spec_str_items_at(s@, i as int, l) by {
                    if spec_str_items_at(s@, i as int, l) {
                    }
                }
            }
            None
        },
    }
}

/// Reads a string list at position `i`.
pub fn parse_str_list(s: &[u8], i: usize) -> (r: Option<(Vec<String>, usize)>)
    requires
        i <= s@.len(),
    ensures
        r matches Some(p) ==> {
            &&& wire_strs_ok(strs_view(p.0@))
            &&& i < p.1 <= s@.len()
            &&& s@.subrange(i as int, p.1 as int) == enc_str_list(strs_view(p.0@))
            &&& p.1 == i + enc_str_list(strs_view(p.0@)).len()
        },
        forall|l: Seq<Seq<char>>|
            spec_str_list_at(s@, i as int, l) ==> (r matches Some(p) && strs_view(p.0@) == l && p.1
                == i + enc_str_list(l).len()),
{
    let len = s.len();
    if i == len || s[i] != 0x5b {
        proof {
            assert forall|l: Seq<Seq<char>>| !spec_str_list_at(s@, i as int, l) by {
                if spec_str_list_at(s@, i as int, l) {
                    assert(s@.subrange(i as int, i + enc_str_list(l).len())[0] == s@[i as int]);
                    assert(enc_str_list(l)[0] == 0x5b);
                }
            }
        }
        return None;
    }
    if i + 1 < len && s[i + 1] == 0x5d {
        let v: Vec<String> = Vec::new();
        proof {
            assert(strs_view(v@) =~= Seq::<Seq<char>>::empty());
            assert(enc_str_items(strs_view(v@)) =~= Seq::<u8>::empty());
            assert(s@.subrange(i as int, i + 2) =~= enc_str_list(strs_view(v@)));
            assert forall|l: Seq<Seq<char>>|
                spec_str_list_at(s@, i as int, l) implies strs_view(v@) == l && i + 2 == i
                + enc_str_list(l).len() by {
                lemma_str_list_second_byte(s@, i as int, l);
                if l.len() >= 1 {
                    assert(false);
                }
                assert(strs_view(v@) =~= l);
            }
        }
        return Some((v, i + 2));
    }
    match parse_str_items(s, i + 1) {
        None => {
            proof {
                assert forall|l: Seq<Seq<char>>| !spec_str_list_at(s@, i as int, l) by {
                    if spec_str_list_at(s@, i as int, l) {
                        lemma_str_list_second_byte(s@, i as int, l);
                        if l.len() == 0 {
                            assert(i + 1 < len && s@[i + 1] == 0x5d);
                        } else {
                            lemma_str_list_items(s@, i as int, l);
                        }
                    }
                }
            }
            None
        },
        Some((v, j)) => {
            proof {
                lemma_seq_join(s@, i as int, i + 1, j as int);
                assert(s@.subrange(i as int, i + 1) =~= seq![0x5bu8]);
                assert(seq![0x5bu8] + (enc_str_items(strs_view(v@)) + seq![0x5du8]) =~= enc_str_list(
                    strs_view(v@),
                ));
                assert forall|l: Seq<Seq<char>>|
                    spec_str_list_at(s@, i as int, l) implies strs_view(v@) == l && j == i
                    + enc_str_list(l).len() by {
                    lemma_str_list_second_byte(s@, i as int, l);
                    if l.len() == 0 {
                        assert(i + 1 < len && s@[i + 1] == 0x5d);
                        lemma_str_items_head(s@, i + 1, strs_view(v@));
                        assert(s@[i + 1] == enc_str_items(strs_view(v@))[0]);
                        assert(enc_str_items(strs_view(v@))[0] == enc_string(strs_view(v@)[0])[0]);
                        assert(false);
                    } else {
                        lemma_str_list_items(s@, i as int, l);
                    }
                }
            }
            Some((v, j))
        },
    }
}

/// The second byte of an encoded string list.
proof fn lemma_str_list_second_byte(s: Seq<u8>, i: int, l: Seq<Seq<char>>)
    requires
        spec_str_list_at(s, i, l),
    ensures
        i + 1 < s.len(),
        l.len() == 0 ==> s[i + 1] == 0x5d,
        l.len() >= 1 ==> s[i + 1] == 0x22,
{
    let e = enc_str_list(l);
    assert(s[i + 1] == s.subrange(i, i + e.len())[1]);
    if l.len() == 0 {
        assert(enc_str_items(l) =~= Seq::<u8>::empty());
        assert(e[1] == 0x5d);
    } else {
        if l.len() == 1 {
            assert(e[1] == enc_string(l[0])[0]);
        } else {
            assert(e[1] == (enc_string(l[0]) + seq![0x2cu8] + enc_str_items(l.drop_first()))[0]);
        }
        assert(enc_string(l[0])[0] == 0x22);
    }
}

/// Splitting an encoded string list after its opening bracket.
proof fn lemma_str_list_items(s: Seq<u8>, i: int, l: Seq<Seq<char>>)
    requires
        spec_str_list_at(s, i, l),
        l.len() >= 1,
    ensures
        spec_str_items_at(s, i + 1, l),
{
    let inner = enc_str_items(l) + seq![0x7du8];
    assert(enc_str_list(l) =~= seq![0x5bu8] + (enc_str_items(l) + seq![0x5du8]));
    lemma_seq_split(s, i, seq![0x5bu8], enc_str_items(l) + seq![0x5du8]);
}

// ---------------------------------------------------------------------
// Provider records
// ---------------------------------------------------------------------
/// The stored tags of a precision list.
pub open spec fn spec_precision_tags(ps: Seq<PrecisionLevel>) -> Seq<u64> {
    ps.map_values(|p: PrecisionLevel| spec_precision_tag(p))
}

/// Whether a provider can be stored: its strings are wire-safe.
pub open spec fn wire_provider_ok(p: ComputeProvider) -> bool {
    &&& wire_str_ok(p.slp_id.0@)
    &&& wire_str_ok(p.region@)
}

/// Whether two providers carry the same data, comparing strings by their
/// characters.
pub open spec fn provider_eqv(a: ComputeProvider, b: ComputeProvider) -> bool {
    &&& a.slp_id.0@ == b.slp_id.0@
    &&& a.supported_precisions@ == b.supported_precisions@
    &&& a.base_price == b.base_price
    &&& a.capacity == b.capacity
    &&& a.utilization == b.utilization
    &&& a.region@ == b.region@
}

/// The stored encoding of a provider.
pub open spec fn enc_provider(p: ComputeProvider) -> Seq<u8> {
    str_bytes("{\"slp_id\":"@) + enc_string(p.slp_id.0@) + str_bytes(
        ",\"supported_precisions\":"@,
    ) + enc_u64_list(spec_precision_tags(p.supported_precisions@)) + str_bytes(",\"base_price\":"@)
        + spec_dec(p.base_price as nat) + str_bytes(",\"capacity\":"@) + spec_dec(p.capacity as nat)
        + str_bytes(",\"utilization\":"@) + spec_dec(p.utilization as nat) + str_bytes(
        ",\"region\":"@,
    ) + enc_string(p.region@) + str_bytes("}"@)
}

/// The positions of the fields inside a stored provider.
pub open spec fn provider_fields_at(s: Seq<u8>, p: ComputeProvider) -> bool {
    let o1 = "{\"slp_id\":"@.len() as int;
    let o2 = o1 + enc_string(p.slp_id.0@).len();
    let o3 = o2 + ",\"supported_precisions\":"@.len();
    let o4 = o3 + enc_u64_list(spec_precision_tags(p.supported_precisions@)).len();
    let o5 = o4 + ",\"base_price\":"@.len();
    let o6 = o5 + spec_dec(p.base_price as nat).len();
    let o7 = o6 + ",\"capacity\":"@.len();
    let o8 = o7 + spec_dec(p.capacity as nat).len();
    let o9 = o8 + ",\"utilization\":"@.len();
    let o10 = o9 + spec_dec(p.utilization as nat).len();
    let o11 = o10 + ",\"region\":"@.len();
    let o12 = o11 + enc_string(p.region@).len();
    &&& spec_lit_at(s, 0, "{\"slp_id\":"@)
    &&& spec_string_at(s, o1, p.slp_id.0@)
    &&& spec_lit_at(s, o2, ",\"supported_precisions\":"@)
    &&& spec_u64_list_at(s, o3, spec_precision_tags(p.supported_precisions@))
    &&& spec_lit_at(s, o4, ",\"base_price\":"@)
    &&& spec_num_at(s, o5, p.base_price as nat)
    &&& spec_lit_at(s, o6, ",\"capacity\":"@)
    &&& spec_num_at(s, o7, p.capacity as nat)
    &&& spec_lit_at(s, o8, ",\"utilization\":"@)
    &&& spec_num_at(s, o9, p.utilization as nat)
    &&& spec_lit_at(s, o10, ",\"region\":"@)
    &&& spec_string_at(s, o11, p.region@)
    &&& spec_lit_at(s, o12, "}"@)
    &&& o12 + 1 == s.len()
}

/// Shape facts about the provider field literals.
proof fn lemma_provider_literals()
    ensures
        vstd::string::is_ascii("{\"slp_id\":"),
        vstd::string::is_ascii(",\"supported_precisions\":"),
        vstd::string::is_ascii(",\"base_price\":"),
        vstd::string::is_ascii(",\"capacity\":"),
        vstd::string::is_ascii(",\"utilization\":"),
        vstd::string::is_ascii(",\"region\":"),
        vstd::string::is_ascii("}"),
        (",\"capacity\":"@[0] as u8) == 0x2c && ",\"capacity\":"@.len() > 0,
        (",\"utilization\":"@[0] as u8) == 0x2c && ",\"utilization\":"@.len() > 0,
        (",\"region\":"@[0] as u8) == 0x2c && ",\"region\":"@.len() > 0,
        ("}"@[0] as u8) == 0x7d && "}"@.len() == 1,
{
    reveal_strlit("{\"slp_id\":");
    reveal_strlit(",\"supported_precisions\":");
    reveal_strlit(",\"base_price\":");
    reveal_strlit(",\"capacity\":");
    reveal_strlit(",\"utilization\":");
    reveal_strlit(",\"region\":");
    reveal_strlit("}");
}

/// A stored provider splits into its fields at the expected positions.
#[verifier::rlimit(100)]
#[verifier::spinoff_prover]
proof fn lemma_provider_fields(s: Seq<u8>, p: ComputeProvider)
    requires
        wire_provider_ok(p),
        s == enc_provider(p),
    ensures
        provider_fields_at(s, p),
{
    lemma_provider_literals();
    lemma_dec_props(p.base_price as nat);
    lemma_dec_props(p.capacity as nat);
    lemma_dec_props(p.utilization as nat);
    let p1 = str_bytes("{\"slp_id\":"@);
    let p2 = enc_string(p.slp_id.0@);
    let p3 = str_bytes(",\"supported_precisions\":"@);
    let p4 = enc_u64_list(spec_precision_tags(p.supported_precisions@));
    let p5 = str_bytes(",\"base_price\":"@);
    let p6 = spec_dec(p.base_price as nat);
    let p7 = str_bytes(",\"capacity\":"@);
    let p8 = spec_dec(p.capacity as nat);
    let p9 = str_bytes(",\"utilization\":"@);
    let p10 = spec_dec(p.utilization as nat);
    let p11 = str_bytes(",\"region\":"@);
    let p12 = enc_string(p.region@);
    let p13 = str_bytes("}"@);
    assert(s =~= p1 + (p2 + (p3 + (p4 + (p5 + (p6 + (p7 + (p8 + (p9 + (p10 + (p11 + (p12
        + p13))))))))))));
    assert(s.subrange(0, s.len() as int) =~= s);
    lemma_seq_split(s, 0, p1, p2 + (p3 + (p4 + (p5 + (p6 + (p7 + (p8 + (p9 + (p10 + (p11 + (p12
        + p13)))))))))));
    let o1: int = p1.len() as int;
    lemma_seq_split(s, o1, p2, p3 + (p4 + (p5 + (p6 + (p7 + (p8 + (p9 + (p10 + (p11 + (p12
        + p13))))))))));
    let o2: int = o1 + p2.len() as int;
    lemma_seq_split(s, o2, p3, p4 + (p5 + (p6 + (p7 + (p8 + (p9 + (p10 + (p11 + (p12 + p13)))))))));
    let o3: int = o2 + p3.len() as int;
    lemma_seq_split(s, o3, p4, p5 + (p6 + (p7 + (p8 + (p9 + (p10 + (p11 + (p12 + p13))))))));
    let o4: int = o3 + p4.len() as int;
    lemma_seq_split(s, o4, p5, p6 + (p7 + (p8 + (p9 + (p10 + (p11 + (p12 + p13)))))));
    let o5: int = o4 + p5.len() as int;
    lemma_seq_split(s, o5, p6, p7 + (p8 + (p9 + (p10 + (p11 + (p12 + p13))))));
    let o6: int = o5 + p6.len() as int;
    lemma_seq_split(s, o6, p7, p8 + (p9 + (p10 + (p11 + (p12 + p13)))));
    let o7: int = o6 + p7.len() as int;
    lemma_seq_split(s, o7, p8, p9 + (p10 + (p11 + (p12 + p13))));
    let o8: int = o7 + p8.len() as int;
    lemma_seq_split(s, o8, p9, p10 + (p11 + (p12 + p13)));
    let o9: int = o8 + p9.len() as int;
    lemma_seq_split(s, o9, p10, p11 + (p12 + p13));
    let o10: int = o9 + p10.len() as int;
    lemma_seq_split(s, o10, p11, p12 + p13);
    let o11: int = o10 + p11.len() as int;
    lemma_seq_split(s, o11, p12, p13);
    let o12: int = o11 + p12.len() as int;
    // each number is followed by the comma of the next field literal
    assert(s[o6] == s.subrange(o6, o6 + p7.len())[0]);
    assert(s[o8] == s.subrange(o8, o8 + p9.len())[0]);
    assert(s[o10] == s.subrange(o10, o10 + p11.len())[0]);
    assert(!is_digit(0x2cu8));
}

/// Writes a provider in the stored form. Fails exactly when one of its
/// strings cannot stand on the wire.
pub fn provider_to_store(p: &ComputeProvider) -> (r: Option<Vec<u8>>)
    ensures
        r matches Some(v) ==> wire_provider_ok(*p) && v@ == enc_provider(*p),
        r is None ==> !wire_provider_ok(*p),
{
    if !crate::wire::check_wire_str(p.slp_id.0.as_str()) {
        return None;
    }
    if !crate::wire::check_wire_str(p.region.as_str()) {
        return None;
    }
    proof {
        lemma_provider_literals();
    }
    let mut tags: Vec<u64> = Vec::new();
    let n = p.supported_precisions.len();
    let mut t: usize = 0;
    while t < n
        invariant
            n == p.supported_precisions@.len(),
            0 <= t <= n,
            tags@ =~= spec_precision_tags(p.supported_precisions@.take(t as int)),
        decreases n - t,
    {
        let tag: u64 = match p.supported_precisions[t] {
            PrecisionLevel::BF16 => 0,
            PrecisionLevel::FP8 => 1,
            PrecisionLevel::E5M2 => 2,
            PrecisionLevel::INT8 => 3,
        };
        tags.push(tag);
        proof {
            assert(tags@ =~= spec_precision_tags(p.supported_precisions@.take(t + 1)));
        }
        t += 1;
    }
    proof {
        assert(p.supported_precisions@.take(n as int) =~= p.supported_precisions@);
    }
    let mut out: Vec<u8> = Vec::new();
    push_lit(&mut out, "{\"slp_id\":");
    push_string(&mut out, p.slp_id.0.as_str());
    push_lit(&mut out, ",\"supported_precisions\":");
    push_u64_list(&mut out, &tags);
    push_lit(&mut out, ",\"base_price\":");
    push_u64(&mut out, p.base_price);
    push_lit(&mut out, ",\"capacity\":");
    push_u64(&mut out, p.capacity as u64);
    push_lit(&mut out, ",\"utilization\":");
    push_u64(&mut out, p.utilization as u64);
    push_lit(&mut out, ",\"region\":");
    push_string(&mut out, p.region.as_str());
    push_lit(&mut out, "}");
    proof {
        assert(out@ =~= enc_provider(*p));
    }
    Some(out)
}

/// Reads a provider from the stored form. The whole input must be one
/// stored provider.
#[verifier::rlimit(100)]
pub fn provider_from_store(s: &[u8]) -> (r: Option<ComputeProvider>)
    ensures
        r matches Some(p) ==> wire_provider_ok(p) && s@ == enc_provider(p),
        forall|p: ComputeProvider|
            wire_provider_ok(p) && s@ == enc_provider(p) ==> (r matches Some(q) && provider_eqv(
                q,
                p,
            )),
{
    proof {
        lemma_provider_literals();
        assert forall|p: ComputeProvider|
            wire_provider_ok(p) && s@ == enc_provider(p) implies provider_fields_at(s@, p) by {
            lemma_provider_fields(s@, p);
        }
    }
    let i0: usize = 0;
    let j1 = match expect_lit(s, i0, "{\"slp_id\":") {
        Some(j) => j,
        None => {
            return None;
        },
    };
    let (slp, j2) = match parse_string(s, j1) {
        Some(p) => p,
        None => {
            return None;
        },
    };
    let j3 = match expect_lit(s, j2, ",\"supported_precisions\":") {
        Some(j) => j,
        None => {
            return None;
        },
    };
    let (tags, j4) = match parse_u64_list(s, j3) {
        Some(p) => p,
        None => {
            return None;
        },
    };
    let mut precisions: Vec<PrecisionLevel> = Vec::new();
    let nt = tags.len();
    proof {
        assert forall|p: ComputeProvider|
            wire_provider_ok(p) && s@ == enc_provider(p) implies tags@ == spec_precision_tags(
            p.supported_precisions@,
        ) by {
            assert(spec_string_at(s@, j1 as int, p.slp_id.0@));
            assert(spec_u64_list_at(s@, j3 as int, spec_precision_tags(p.supported_precisions@)));
        }
    }
    let mut t: usize = 0;
    while t < nt
        invariant
            nt == tags@.len(),
            0 <= t <= nt,
            forall|u: int| 0 <= u < t ==> spec_tag_precision(#[trigger] tags@[u]) is Some,
            precisions@.len() == t,
            spec_precision_tags(precisions@) =~= tags@.take(t as int),
            forall|p: ComputeProvider|
                wire_provider_ok(p) && s@ == enc_provider(p) ==> tags@ == spec_precision_tags(
                    #[trigger] p.supported_precisions@,
                ),
        decreases nt - t,
    {
        let tag = tags[t];
        let p = if tag == 0 {
            PrecisionLevel::BF16
        } else if tag == 1 {
            PrecisionLevel::FP8
        } else if tag == 2 {
            PrecisionLevel::E5M2
        } else if tag == 3 {
            PrecisionLevel::INT8
        } else {
            proof {
                assert forall|p: ComputeProvider|
                    wire_provider_ok(p) && s@ == enc_provider(p) implies false by {
                    assert(tags@ == spec_precision_tags(p.supported_precisions@));
                    assert(tags@[t as int] == spec_precision_tag(
                        p.supported_precisions@[t as int],
                    ));
                }
            }
            return None;
        };
        precisions.push(p);
        proof {
            assert(spec_precision_tags(precisions@) =~= tags@.take(t + 1));
        }
        t += 1;
    }
    proof {
        assert(tags@.take(nt as int) =~= tags@);
        assert forall|p: ComputeProvider|
            wire_provider_ok(p) && s@ == enc_provider(p) implies provider_fields_at(s@, p) by {
            lemma_provider_fields(s@, p);
        }
    }
    let j5 = match expect_lit(s, j4, ",\"base_price\":") {
        Some(j) => j,
        None => {
            return None;
        },
    };
    let (base_price, j6) = match parse_u64(s, j5) {
        Some(p) => p,
        None => {
            return None;
        },
    };
    let j7 = match expect_lit(s, j6, ",\"capacity\":") {
        Some(j) => j,
        None => {
            return None;
        },
    };
    proof {
        assert forall|p: ComputeProvider|
            wire_provider_ok(p) && s@ == enc_provider(p) implies spec_num_at(
            s@,
            j7 as int,
            (p.capacity as u64) as nat,
        ) by {
            assert(spec_num_at(s@, j7 as int, p.capacity as nat));
        }
    }
    let (cap64, j8) = match parse_u64(s, j7) {
        Some(p) => p,
        None => {
            return None;
        },
    };
    if cap64 > 0xFFFF_FFFFu64 {
        return None;
    }
    let j9 = match expect_lit(s, j8, ",\"utilization\":") {
        Some(j) => j,
        None => {
            return None;
        },
    };
    proof {
        assert forall|p: ComputeProvider|
            wire_provider_ok(p) && s@ == enc_provider(p) implies spec_num_at(
            s@,
            j9 as int,
            (p.utilization as u64) as nat,
        ) by {
            assert(spec_num_at(s@, j9 as int, p.utilization as nat));
        }
    }
    let (util64, j10) = match parse_u64(s, j9) {
        Some(p) => p,
        None => {
            return None;
        },
    };
    if util64 > 0xFFFF_FFFFu64 {
        return None;
    }
    let j11 = match expect_lit(s, j10, ",\"region\":") {
        Some(j) => j,
        None => {
            return None;
        },
    };
    let (region, j12) = match parse_string(s, j11) {
        Some(p) => p,
        None => {
            return None;
        },
    };
    let j13 = match expect_lit(s, j12, "}") {
        Some(j) => j,
        None => {
            return None;
        },
    };
    if j13 != s.len() {
        return None;
    }
    let result = ComputeProvider {
        slp_id: SlpId(slp),
        supported_precisions: precisions,
        base_price,
        capacity: cap64 as u32,
        utilization: util64 as u32,
        region,
    };
    proof {
        lemma_seq_join(s@, 0, j1 as int, j2 as int);
        lemma_seq_join(s@, 0, j2 as int, j3 as int);
        lemma_seq_join(s@, 0, j3 as int, j4 as int);
        lemma_seq_join(s@, 0, j4 as int, j5 as int);
        lemma_seq_join(s@, 0, j5 as int, j6 as int);
        lemma_seq_join(s@, 0, j6 as int, j7 as int);
        lemma_seq_join(s@, 0, j7 as int, j8 as int);
        lemma_seq_join(s@, 0, j8 as int, j9 as int);
        lemma_seq_join(s@, 0, j9 as int, j10 as int);
        lemma_seq_join(s@, 0, j10 as int, j11 as int);
        lemma_seq_join(s@, 0, j11 as int, j12 as int);
        lemma_seq_join(s@, 0, j12 as int, j13 as int);
        assert(s@.subrange(0, j13 as int) =~= s@);
        assert(s@ =~= enc_provider(result));
        assert forall|p: ComputeProvider|
            wire_provider_ok(p) && s@ == enc_provider(p) implies provider_eqv(result, p) by {
            assert(spec_string_at(s@, j1 as int, p.slp_id.0@));
            assert(spec_u64_list_at(
                s@,
                j3 as int,
                spec_precision_tags(p.supported_precisions@),
            ));
            assert(tags@ == spec_precision_tags(p.supported_precisions@));
            assert(spec_precision_tags(result.supported_precisions@) == spec_precision_tags(
                p.supported_precisions@,
            ));
            assert forall|u: int|
                0 <= u < result.supported_precisions@.len() implies result.supported_precisions@[u]
                == p.supported_precisions@[u] by {
                assert(spec_precision_tags(result.supported_precisions@)[u] == spec_precision_tag(
                    result.supported_precisions@[u],
                ));
                assert(spec_precision_tags(p.supported_precisions@)[u] == spec_precision_tag(
                    p.supported_precisions@[u],
                ));
                assert(spec_precision_tag(result.supported_precisions@[u]) == spec_precision_tag(
                    p.supported_precisions@[u],
                ));
            }
            assert(result.supported_precisions@ =~= p.supported_precisions@);
        }
    }
    Some(result)
}

// ---------------------------------------------------------------------
// Route records
// ---------------------------------------------------------------------
/// Whether a route can be stored: its strings are wire-safe.
pub open spec fn wire_route_ok(r: Route) -> bool {
    &&& wire_str_ok(r.id@)
    &&& wire_strs_ok(strs_view(r.path@))
}

/// Whether two routes carry the same data, comparing strings by their
/// characters.
pub open spec fn route_eqv(a: Route, b: Route) -> bool {
    &&& a.id@ == b.id@
    &&& a.lane_id == b.lane_id
    &&& strs_view(a.path@) == strs_view(b.path@)
    &&& a.latency_ms == b.latency_ms
    &&& a.cost == b.cost
}

/// The stored encoding of a route.
pub open spec fn enc_route(r: Route) -> Seq<u8> {
    str_bytes("{\"id\":"@) + enc_string(r.id@) + str_bytes(",\"lane_id\":"@) + spec_dec(
        r.lane_id.0 as nat,
    ) + str_bytes(",\"path\":"@) + enc_str_list(strs_view(r.path@)) + str_bytes(",\"latency_ms\":"@)
        + spec_dec(r.latency_ms as nat) + str_bytes(",\"cost\":"@) + spec_dec(r.cost as nat)
        + str_bytes("}"@)
}

/// The positions of the fields inside a stored route.
pub open spec fn route_fields_at(s: Seq<u8>, r: Route) -> bool {
    let o1 = "{\"id\":"@.len() as int;
    let o2 = o1 + enc_string(r.id@).len();
    let o3 = o2 + ",\"lane_id\":"@.len();
    let o4 = o3 + spec_dec(r.lane_id.0 as nat).len();
    let o5 = o4 + ",\"path\":"@.len();
    let o6 = o5 + enc_str_list(strs_view(r.path@)).len();
    let o7 = o6 + ",\"latency_ms\":"@.len();
    let o8 = o7 + spec_dec(r.latency_ms as nat).len();
    let o9 = o8 + ",\"cost\":"@.len();
    let o10 = o9 + spec_dec(r.cost as nat).len();
    &&& spec_lit_at(s, 0, "{\"id\":"@)
    &&& spec_string_at(s, o1, r.id@)
    &&& spec_lit_at(s, o2, ",\"lane_id\":"@)
    &&& spec_num_at(s, o3, r.lane_id.0 as nat)
    &&& spec_lit_at(s, o4, ",\"path\":"@)
    &&& spec_str_list_at(s, o5, strs_view(r.path@))
    &&& spec_lit_at(s, o6, ",\"latency_ms\":"@)
    &&& spec_num_at(s, o7, r.latency_ms as nat)
    &&& spec_lit_at(s, o8, ",\"cost\":"@)
    &&& spec_num_at(s, o9, r.cost as nat)
    &&& spec_lit_at(s, o10, "}"@)
    &&& o10 + 1 == s.len()
}

/// Shape facts about the route field literals.
proof fn lemma_route_literals()
    ensures
        vstd::string::is_ascii("{\"id\":"),
        vstd::string::is_ascii(",\"lane_id\":"),
        vstd::string::is_ascii(",\"path\":"),
        vstd::string::is_ascii(",\"latency_ms\":"),
        vstd::string::is_ascii(",\"cost\":"),
        vstd::string::is_ascii("}"),
        (",\"path\":"@[0] as u8) == 0x2c && ",\"path\":"@.len() > 0,
        (",\"latency_ms\":"@[0] as u8) == 0x2c && ",\"latency_ms\":"@.len() > 0,
        (",\"cost\":"@[0] as u8) == 0x2c && ",\"cost\":"@.len() > 0,
        ("}"@[0] as u8) == 0x7d && "}"@.len() == 1,
{
    reveal_strlit("{\"id\":");
    reveal_strlit(",\"lane_id\":");
    reveal_strlit(",\"path\":");
    reveal_strlit(",\"latency_ms\":");
    reveal_strlit(",\"cost\":");
    reveal_strlit("}");
}

/// A stored route splits into its fields at the expected positions.
#[verifier::rlimit(100)]
#[verifier::spinoff_prover]
proof fn lemma_route_fields(s: Seq<u8>, r: Route)
    requires
        wire_route_ok(r),
        s == enc_route(r),
    ensures
        route_fields_at(s, r),
{
    lemma_route_literals();
    lemma_dec_props(r.lane_id.0 as nat);
    lemma_dec_props(r.latency_ms as nat);
    lemma_dec_props(r.cost as nat);
    let p1 = str_bytes("{\"id\":"@);
    let p2 = enc_string(r.id@);
    let p3 = str_bytes(",\"lane_id\":"@);
    let p4 = spec_dec(r.lane_id.0 as nat);
    let p5 = str_bytes(",\"path\":"@);
    let p6 = enc_str_list(strs_view(r.path@));
    let p7 = str_bytes(",\"latency_ms\":"@);
    let p8 = spec_dec(r.latency_ms as nat);
    let p9 = str_bytes(",\"cost\":"@);
    let p10 = spec_dec(r.cost as nat);
    let p11 = str_bytes("}"@);
    assert(s =~= p1 + (p2 + (p3 + (p4 + (p5 + (p6 + (p7 + (p8 + (p9 + (p10 + p11))))))))));
    assert(s.subrange(0, s.len() as int) =~= s);
    lemma_seq_split(s, 0, p1, p2 + (p3 + (p4 + (p5 + (p6 + (p7 + (p8 + (p9 + (p10 + p11)))))))));
    let o1: int = p1.len() as int;
    lemma_seq_split(s, o1, p2, p3 + (p4 + (p5 + (p6 + (p7 + (p8 + (p9 + (p10 + p11))))))));
    let o2: int = o1 + p2.len() as int;
    lemma_seq_split(s, o2, p3, p4 + (p5 + (p6 + (p7 + (p8 + (p9 + (p10 + p11)))))));
    let o3: int = o2 + p3.len() as int;
    lemma_seq_split(s, o3, p4, p5 + (p6 + (p7 + (p8 + (p9 + (p10 + p11))))));
    let o4: int = o3 + p4.len() as int;
    lemma_seq_split(s, o4, p5, p6 + (p7 + (p8 + (p9 + (p10 + p11)))));
    let o5: int = o4 + p5.len() as int;
    lemma_seq_split(s, o5, p6, p7 + (p8 + (p9 + (p10 + p11))));
    let o6: int = o5 + p6.len() as int;
    lemma_seq_split(s, o6, p7, p8 + (p9 + (p10 + p11)));
    let o7: int = o6 + p7.len() as int;
    lemma_seq_split(s, o7, p8, p9 + (p10 + p11));
    let o8: int = o7 + p8.len() as int;
    lemma_seq_split(s, o8, p9, p10 + p11);
    let o9: int = o8 + p9.len() as int;
    lemma_seq_split(s, o9, p10, p11);
    let o10: int = o9 + p10.len() as int;
    assert(s[o4] == s.subrange(o4, o4 + p5.len())[0]);
    assert(s[o8] == s.subrange(o8, o8 + p9.len())[0]);
    assert(s[o10] == s.subrange(o10, o10 + p11.len())[0]);
    assert(!is_digit(0x2cu8) && !is_digit(0x7du8));
}

/// Writes a route in the stored form. Fails exactly when one of its
/// strings cannot stand on the wire.
pub fn route_to_store(r: &Route) -> (res: Option<Vec<u8>>)
    ensures
        res matches Some(v) ==> wire_route_ok(*r) && v@ == enc_route(*r),
        res is None ==> !wire_route_ok(*r),
{
    if !crate::wire::check_wire_str(r.id.as_str()) {
        return None;
    }
    let n = r.path.len();
    let mut t: usize = 0;
    while t < n
        invariant
            n == r.path@.len(),
            0 <= t <= n,
            forall|u: int| 0 <= u < t ==> wire_str_ok(#[trigger] strs_view(r.path@)[u]),
        decreases n - t,
    {
        proof {
            assert(strs_view(r.path@)[t as int] == r.path@[t as int]@);
        }
        if !crate::wire::check_wire_str(r.path[t].as_str()) {
            return None;
        }
        t += 1;
    }
    proof {
        lemma_route_literals();
    }
    let mut out: Vec<u8> = Vec::new();
    push_lit(&mut out, "{\"id\":");
    push_string(&mut out, r.id.as_str());
    push_lit(&mut out, ",\"lane_id\":");
    push_u64(&mut out, r.lane_id.0 as u64);
    push_lit(&mut out, ",\"path\":");
    crate::persist::push_str_list(&mut out, &r.path);
    push_lit(&mut out, ",\"latency_ms\":");
    push_u64(&mut out, r.latency_ms);
    push_lit(&mut out, ",\"cost\":");
    push_u64(&mut out, r.cost);
    push_lit(&mut out, "}");
    proof {
        assert(out@ =~= enc_route(*r));
    }
    Some(out)
}

/// Reads a route from the stored form. The whole input must be one stored
/// route.
#[verifier::rlimit(100)]
pub fn route_from_store(s: &[u8]) -> (r: Option<Route>)
    ensures
        r matches Some(rt) ==> wire_route_ok(rt) && s@ == enc_route(rt),
        forall|rt: Route|
            wire_route_ok(rt) && s@ == enc_route(rt) ==> (r matches Some(q) && route_eqv(q, rt)),
{
    proof {
        lemma_route_literals();
        assert forall|rt: Route|
            wire_route_ok(rt) && s@ == enc_route(rt) implies route_fields_at(s@, rt) by {
            lemma_route_fields(s@, rt);
        }
    }
    let i0: usize = 0;
    let j1 = match expect_lit(s, i0, "{\"id\":") {
        Some(j) => j,
        None => {
            return None;
        },
    };
    let (id, j2) = match parse_string(s, j1) {
        Some(p) => p,
        None => {
            return None;
        },
    };
    let j3 = match expect_lit(s, j2, ",\"lane_id\":") {
        Some(j) => j,
        None => {
            return None;
        },
    };
    proof {
        assert forall|rt: Route|
            wire_route_ok(rt) && s@ == enc_route(rt) implies spec_num_at(
            s@,
            j3 as int,
            (rt.lane_id.0 as u64) as nat,
        ) by {
            assert(spec_num_at(s@, j3 as int, rt.lane_id.0 as nat));
        }
    }
    let (lane64, j4) = match parse_u64(s, j3) {
        Some(p) => p,
        None => {
            return None;
        },
    };
    if lane64 > 255 {
        return None;
    }
    let j5 = match expect_lit(s, j4, ",\"path\":") {
        Some(j) => j,
        None => {
            return None;
        },
    };
    let (path, j6) = match crate::persist::parse_str_list(s, j5) {
        Some(p) => p,
        None => {
            return None;
        },
    };
    let j7 = match expect_lit(s, j6, ",\"latency_ms\":") {
        Some(j) => j,
        None => {
            return None;
        },
    };
    let (latency_ms, j8) = match parse_u64(s, j7) {
        Some(p) => p,
        None => {
            return None;
        },
    };
    let j9 = match expect_lit(s, j8, ",\"cost\":") {
        Some(j) => j,
        None => {
            return None;
        },
    };
    let (cost, j10) = match parse_u64(s, j9) {
        Some(p) => p,
        None => {
            return None;
        },
    };
    let j11 = match expect_lit(s, j10, "}") {
        Some(j) => j,
        None => {
            return None;
        },
    };
    if j11 != s.len() {
        return None;
    }
    let result = Route { id, lane_id: LaneId(lane64 as u8), path, latency_ms, cost };
    proof {
        lemma_seq_join(s@, 0, j1 as int, j2 as int);
        lemma_seq_join(s@, 0, j2 as int, j3 as int);
        lemma_seq_join(s@, 0, j3 as int, j4 as int);
        lemma_seq_join(s@, 0, j4 as int, j5 as int);
        lemma_seq_join(s@, 0, j5 as int, j6 as int);
        lemma_seq_join(s@, 0, j6 as int, j7 as int);
        lemma_seq_join(s@, 0, j7 as int, j8 as int);
        lemma_seq_join(s@, 0, j8 as int, j9 as int);
        lemma_seq_join(s@, 0, j9 as int, j10 as int);
        lemma_seq_join(s@, 0, j10 as int, j11 as int);
        assert(s@.subrange(0, j11 as int) =~= s@);
        assert(s@ =~= enc_route(result));
        assert forall|rt: Route|
            wire_route_ok(rt) && s@ == enc_route(rt) implies route_eqv(result, rt) by {
            assert(spec_string_at(s@, j1 as int, rt.id@));
            assert(spec_str_list_at(s@, j5 as int, strs_view(rt.path@)));
        }
    }
    Some(result)
}

// ---------------------------------------------------------------------
// Statistics records
// ---------------------------------------------------------------------
/// The per-lane match counts flattened into one number list: each entry's
/// lane and count in turn.
pub open spec fn spec_lanes_flat(ls: Seq<(u8, u64)>) -> Seq<u64>
    decreases ls.len(),
{
    if ls.len() == 0 {
        Seq::empty()
    } else {
        seq![ls[0].0 as u64, ls[0].1] + spec_lanes_flat(ls.drop_first())
    }
}

/// Whether two statistics records carry the same data.
pub open spec fn stats_eqv(a: AuctionStats, b: AuctionStats) -> bool {
    &&& a.total_auctions == b.total_auctions
    &&& a.total_matches == b.total_matches
    &&& a.total_unmatched == b.total_unmatched
    &&& a.total_volume == b.total_volume
    &&& a.matches_by_precision == b.matches_by_precision
    &&& a.matches_by_lane@ == b.matches_by_lane@
}

/// The statistics flattened into one number list: the four counters, the
/// four per-precision counts, then each lane entry's lane and count in
/// turn.
pub open spec fn spec_stats_flat(st: AuctionStats) -> Seq<u64> {
    seq![
        st.total_auctions,
        st.total_matches,
        st.total_unmatched,
        st.total_volume,
        st.matches_by_precision.bf16,
        st.matches_by_precision.fp8,
        st.matches_by_precision.e5m2,
        st.matches_by_precision.int8,
    ] + spec_lanes_flat(st.matches_by_lane@)
}

/// The stored encoding of the auction statistics: the flattened list.
pub open spec fn enc_stats(st: AuctionStats) -> Seq<u8> {
    enc_u64_list(spec_stats_flat(st))
}

/// Writes the statistics in the stored form.
pub fn stats_to_store(st: &AuctionStats) -> (r: Vec<u8>)
    ensures
        r@ == enc_stats(*st),
{
    let mut flat: Vec<u64> = Vec::new();
    flat.push(st.total_auctions);
    flat.push(st.total_matches);
    flat.push(st.total_unmatched);
    flat.push(st.total_volume);
    flat.push(st.matches_by_precision.bf16);
    flat.push(st.matches_by_precision.fp8);
    flat.push(st.matches_by_precision.e5m2);
    flat.push(st.matches_by_precision.int8);
    let ghost head = flat@;
    let n = st.matches_by_lane.len();
    let mut t: usize = 0;
    while t < n
        invariant
            n == st.matches_by_lane@.len(),
            0 <= t <= n,
            flat@ =~= head + spec_lanes_flat(st.matches_by_lane@.take(t as int)),
            head == seq![
                st.total_auctions,
                st.total_matches,
                st.total_unmatched,
                st.total_volume,
                st.matches_by_precision.bf16,
                st.matches_by_precision.fp8,
                st.matches_by_precision.e5m2,
                st.matches_by_precision.int8,
            ],
        decreases n - t,
    {
        flat.push(st.matches_by_lane[t].0 as u64);
        flat.push(st.matches_by_lane[t].1);
        proof {
            lemma_lanes_flat_push(st.matches_by_lane@.take(t as int), st.matches_by_lane@[t as int]);
            assert(st.matches_by_lane@.take(t + 1) =~= st.matches_by_lane@.take(t as int).push(
                st.matches_by_lane@[t as int],
            ));
            assert(flat@ =~= head + spec_lanes_flat(st.matches_by_lane@.take(t + 1)));
        }
        t += 1;
    }
    proof {
        assert(st.matches_by_lane@.take(n as int) =~= st.matches_by_lane@);
        assert(flat@ =~= spec_stats_flat(*st));
    }
    let mut out: Vec<u8> = Vec::new();
    push_u64_list(&mut out, &flat);
    proof {
        assert(out@ =~= enc_stats(*st));
    }
    out
}

/// Flattening distributes over appending one entry.
proof fn lemma_lanes_flat_push(ls: Seq<(u8, u64)>, e: (u8, u64))
    ensures
        spec_lanes_flat(ls.push(e)) == spec_lanes_flat(ls) + seq![e.0 as u64, e.1],
    decreases ls.len(),
{
    reveal_with_fuel(spec_lanes_flat, 3);
    if ls.len() == 0 {
        assert(ls.push(e).drop_first() =~= Seq::<(u8, u64)>::empty());
        assert(spec_lanes_flat(ls.push(e)) =~= spec_lanes_flat(ls) + seq![e.0 as u64, e.1]);
    } else {
        assert(ls.push(e).drop_first() =~= ls.drop_first().push(e));
        lemma_lanes_flat_push(ls.drop_first(), e);
        assert(spec_lanes_flat(ls.push(e)) =~= spec_lanes_flat(ls) + seq![e.0 as u64, e.1]);
    }
}

/// Reads the statistics from the stored form. The whole input must be one
/// stored statistics record.
pub fn stats_from_store(s: &[u8]) -> (r: Option<AuctionStats>)
    ensures
        r matches Some(st) ==> s@ == enc_stats(st),
        forall|st: AuctionStats|
            s@ == enc_stats(st) ==> (r matches Some(q) && stats_eqv(q, st)),
{
    proof {
        assert forall|st: AuctionStats|
            s@ == enc_stats(st) implies spec_u64_list_at(s@, 0, spec_stats_flat(st)) by {
            assert(s@.subrange(0, s@.len() as int) =~= s@);
        }
    }
    let (flat, j) = match parse_u64_list(s, 0) {
        Some(p) => p,
        None => {
            return None;
        },
    };
    if j != s.len() {
        return None;
    }
    if flat.len() < 8 {
        proof {
            assert forall|st: AuctionStats| s@ != enc_stats(st) by {
                if s@ == enc_stats(st) {
                    lemma_lanes_flat_even(st.matches_by_lane@);
                }
            }
        }
        return None;
    }
    let lanes = match unflatten_lanes(&flat, 8) {
        Some(l) => l,
        None => {
            proof {
                assert forall|st: AuctionStats| s@ != enc_stats(st) by {
                    if s@ == enc_stats(st) {
                        assert(flat@.skip(8) =~= spec_lanes_flat(st.matches_by_lane@));
                    }
                }
            }
            return None;
        },
    };
    let result = AuctionStats {
        total_auctions: flat[0],
        total_matches: flat[1],
        total_unmatched: flat[2],
        total_volume: flat[3],
        matches_by_precision: PrecisionCounts {
            bf16: flat[4],
            fp8: flat[5],
            e5m2: flat[6],
            int8: flat[7],
        },
        matches_by_lane: lanes,
    };
    proof {
        assert(spec_stats_flat(result) =~= flat@);
        assert(s@.subrange(0, s@.len() as int) =~= s@);
        assert(s@ =~= enc_stats(result));
        assert forall|st: AuctionStats| s@ == enc_stats(st) implies stats_eqv(result, st) by {
            assert(spec_stats_flat(st) == flat@);
            assert(spec_lanes_flat(st.matches_by_lane@) =~= flat@.skip(8));
            lemma_lanes_flat_injective(result.matches_by_lane@, st.matches_by_lane@);
        }
    }
    Some(result)
}

/// Rebuilds the per-lane counts from their flattened form starting at
/// `start`: from there on the list must alternate lanes below 256 with
/// counts.
fn unflatten_lanes(flat: &Vec<u64>, start: usize) -> (r: Option<Vec<(u8, u64)>>)
    requires
        start <= flat@.len(),
    ensures
        r matches Some(l) ==> spec_lanes_flat(l@) == flat@.skip(start as int),
        r is None ==> forall|l: Seq<(u8, u64)>|
            #[trigger] spec_lanes_flat(l) != flat@.skip(start as int),
{
    let n = flat.len();
    if (n - start) % 2 != 0 {
        proof {
            assert forall|l: Seq<(u8, u64)>|
                #[trigger] spec_lanes_flat(l) != flat@.skip(start as int) by {
                lemma_lanes_flat_even(l);
            }
        }
        return None;
    }
    let mut out: Vec<(u8, u64)> = Vec::new();
    let mut t: usize = start;
    while t < n
        invariant
            n == flat@.len(),
            start <= t <= n,
            (n - start) % 2 == 0,
            (t - start) % 2 == 0,
            spec_lanes_flat(out@) =~= flat@.subrange(start as int, t as int),
        decreases n - t,
    {
        proof {
            assert(t + 1 < n);
        }
        let lane = flat[t];
        if lane > 255 {
            proof {
                assert forall|l: Seq<(u8, u64)>|
                    #[trigger] spec_lanes_flat(l) != flat@.skip(start as int) by {
                    if spec_lanes_flat(l) == flat@.skip(start as int) {
                        lemma_lanes_flat_bytes(l, t - start);
                        assert(spec_lanes_flat(l)[t - start] == flat@[t as int]);
                    }
                }
            }
            return None;
        }
        let ghost pre = out@;
        let count = flat[t + 1];
        out.push((lane as u8, count));
        proof {
            assert(out@ == pre.push(((lane as u8), count)));
            lemma_lanes_flat_push(pre, ((lane as u8), count));
            assert(((lane as u8) as u64) == flat@[t as int]);
            assert(flat@.subrange(start as int, t + 2) =~= flat@.subrange(start as int, t as int)
                + seq![flat@[t as int], flat@[t + 1]]);
            assert(spec_lanes_flat(out@) =~= flat@.subrange(start as int, t + 2));
        }
        t += 2;
    }
    proof {
        assert(t == n);
        assert(flat@.subrange(start as int, n as int) =~= flat@.skip(start as int));
    }
    Some(out)
}

/// A flattened lane list has even length: two numbers per entry.
proof fn lemma_lanes_flat_even(l: Seq<(u8, u64)>)
    ensures
        spec_lanes_flat(l).len() % 2 == 0,
        spec_lanes_flat(l).len() == 2 * l.len(),
    decreases l.len(),
{
    if l.len() > 0 {
        lemma_lanes_flat_even(l.drop_first());
    }
}

/// Every even position of a flattened lane list holds a lane below 256.
proof fn lemma_lanes_flat_bytes(l: Seq<(u8, u64)>, t: int)
    requires
        0 <= t < spec_lanes_flat(l).len(),
        t % 2 == 0,
    ensures
        spec_lanes_flat(l)[t] <= 255,
    decreases l.len(),
{
    lemma_lanes_flat_even(l);
    if l.len() > 0 {
        if t >= 2 {
            lemma_lanes_flat_bytes(l.drop_first(), t - 2);
            assert(spec_lanes_flat(l)[t] == spec_lanes_flat(l.drop_first())[t - 2]);
        }
    }
}

/// Flattening is injective.
proof fn lemma_lanes_flat_injective(a: Seq<(u8, u64)>, b: Seq<(u8, u64)>)
    requires
        spec_lanes_flat(a) == spec_lanes_flat(b),
    ensures
        a == b,
    decreases a.len(),
{
    lemma_lanes_flat_even(a);
    lemma_lanes_flat_even(b);
    if a.len() == 0 {
        assert(a =~= b);
    } else {
        assert(spec_lanes_flat(a)[0] == a[0].0 as u64);
        assert(spec_lanes_flat(b)[0] == b[0].0 as u64);
        assert(spec_lanes_flat(a)[1] == a[0].1);
        assert(spec_lanes_flat(b)[1] == b[0].1);
        assert(a[0].0 == b[0].0);
        assert(a[0].1 == b[0].1);
        assert(a[0] == b[0]);
        assert forall|u: int|
            0 <= u < spec_lanes_flat(a.drop_first()).len() implies spec_lanes_flat(
            a.drop_first(),
        )[u] == spec_lanes_flat(b.drop_first())[u] by {
            assert(spec_lanes_flat(a)[2 + u] == spec_lanes_flat(a.drop_first())[u]);
            assert(spec_lanes_flat(b)[2 + u] == spec_lanes_flat(b.drop_first())[u]);
        }
        assert(spec_lanes_flat(a.drop_first()) =~= spec_lanes_flat(b.drop_first()));
        lemma_lanes_flat_injective(a.drop_first(), b.drop_first());
        assert forall|u: int| 0 <= u < a.len() implies a[u] == b[u] by {
            if u > 0 {
                assert(a[u] == a.drop_first()[u - 1]);
                assert(b[u] == b.drop_first()[u - 1]);
            }
        }
        assert(a =~= b);
    }
}

} // verus!
