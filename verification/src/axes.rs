use vstd::prelude::*;
use vstd::string::StringSliceAdditionalSpecFns;
use crate::coords::{numerically_equal, keys_numerically_equal};

verus! {

/// Whether four bytes make an OpenType tag: printable ASCII, not starting
/// with a space, and nothing but spaces after a space.
pub open spec fn valid_tag(b: Seq<u8>) -> bool {
    &&& b.len() == 4
    &&& b[0] != 0x20
    &&& forall|i: int| 0 <= i < 4 ==> 0x20 <= #[trigger] b[i] <= 0x7E
    &&& forall|i: int, j: int| 0 <= i < j < 4 && #[trigger] b[i] == 0x20 ==> #[trigger] b[j] == 0x20
}

/// The big-endian value of four bytes, which is how tags order.
pub open spec fn tag_value(b: Seq<u8>) -> u32 {
    (b[0] as int * 0x100_0000 + b[1] as int * 0x1_0000 + b[2] as int * 0x100 + b[3] as int) as u32
}

/// Calls `Tag::new_checked` of babelfont (font-types' tag) on four bytes.
/// Claimed, as that function's source shows for four bytes: it accepts exactly
/// the bytes that `valid_tag` describes, and the tag it makes holds the bytes
/// unchanged, read here as a big-endian value.
#[verifier::external_body]
pub(crate) fn checked_tag(bytes: [u8; 4]) -> (r: Option<u32>)
    ensures
        r == (if valid_tag(bytes@) { Some(tag_value(bytes@)) } else { None::<u32> }),
{
    babelfont::Tag::new_checked(&bytes).ok().map(|t| u32::from_be_bytes(t.to_be_bytes()))
}

/// The four bytes an axis tag is read from: the first four bytes of the text
/// padded with spaces.
pub open spec fn padded_tag_bytes(tag: &str) -> Seq<u8> {
    (tag.spec_bytes() + seq![0x20u8, 0x20u8, 0x20u8, 0x20u8]).take(4)
}

/// The tag of an axis named by `tag`: the text padded with spaces to four
/// characters and cut to four bytes, if those make a tag. Where they do not,
/// `None`; these are the texts for which the padding, the cut or the tag
/// check fail (a character of more than one byte among the first four bytes
/// makes the cut or the check fail either way).
pub fn axis_tag(tag: &str) -> (r: Option<u32>)
    ensures
        r == (if valid_tag(padded_tag_bytes(tag)) { Some(tag_value(padded_tag_bytes(tag))) } else { None::<u32> }),
{
    let b = tag.as_bytes();
    let b0: u8 = if b.len() > 0 { b[0] } else { 0x20 };
    let b1: u8 = if b.len() > 1 { b[1] } else { 0x20 };
    let b2: u8 = if b.len() > 2 { b[2] } else { 0x20 };
    let b3: u8 = if b.len() > 3 { b[3] } else { 0x20 };
    let bytes: [u8; 4] = [b0, b1, b2, b3];
    proof {
        let p = padded_tag_bytes(tag);
        let pad = seq![0x20u8, 0x20u8, 0x20u8, 0x20u8];
        assert(b@ == tag.spec_bytes());
        assert forall|i: int| 0 <= i < 4 implies #[trigger] p[i] == bytes@[i] by {
            if i < b@.len() {
                assert((b@ + pad)[i] == b@[i]);
            } else {
                assert((b@ + pad)[i] == pad[i - b@.len()]);
            }
        }
        assert(p =~= bytes@);
    }
    checked_tag(bytes)
}

/// Lexicographic order on (user, design) coordinate pairs.
pub open spec fn pair_lt(a: (u64, u64), b: (u64, u64)) -> bool {
    a.0 < b.0 || (a.0 == b.0 && a.1 < b.1)
}

/// Strictly increasing pairs.
pub open spec fn strictly_sorted(s: Seq<(u64, u64)>) -> bool {
    forall|i: int, j: int| 0 <= i < j < s.len() ==> pair_lt(#[trigger] s[i], #[trigger] s[j])
}

/// An axis map sorted and without repeats: its entries in increasing order,
/// each once.
pub fn sorted_unique(entries: &Vec<(u64, u64)>) -> (r: Vec<(u64, u64)>)
    ensures
        strictly_sorted(r@),
        r@.to_set() == entries@.to_set(),
{
    let mut out: Vec<(u64, u64)> = Vec::new();
    let mut i: usize = 0;
    while i < entries.len()
        invariant
            i <= entries.len(),
            strictly_sorted(out@),
            out@.to_set() == entries@.take(i as int).to_set(),
        decreases entries.len() - i,
    {
        let e = entries[i];
        let mut p: usize = 0;
        while p < out.len() && pair_lt_exec(out[p], e)
            invariant
                p <= out.len(),
                forall|q: int| 0 <= q < p ==> pair_lt(#[trigger] out@[q], e),
            decreases out.len() - p,
        {
            p = p + 1;
        }
        let ghost before = out@;
        if p < out.len() && out[p].0 == e.0 && out[p].1 == e.1 {
            proof {
                assert(out@[p as int] == e);
            }
        } else {
            out.insert(p, e);
            proof {
                assert forall|a: int, b: int| 0 <= a < b < out@.len() implies pair_lt(#[trigger] out@[a], #[trigger] out@[b]) by {
                    if a < p && b == p {
                    } else if a < p && b > p {
                        assert(out@[b] == before[b - 1]);
                        assert(pair_lt(before[a], e));
                    } else if a == p {
                        assert(out@[b] == before[b - 1]);
                        if p < before.len() {
                            assert(!pair_lt(before[p as int], e));
                            if b - 1 > p {
                                assert(pair_lt(before[p as int], before[b - 1]));
                            }
                        }
                    } else if a > p {
                        assert(out@[a] == before[a - 1] && out@[b] == before[b - 1]);
                    } else {
                        assert(out@[a] == before[a] && out@[b] == before[b]);
                    }
                }
            }
        }
        proof {
            let t = entries@.take(i as int + 1);
            assert(t =~= entries@.take(i as int).push(e));
            assert(out@.to_set() =~= before.to_set().insert(e)) by {
                assert forall|x: (u64, u64)| out@.to_set().contains(x) <==> before.to_set().insert(e).contains(x) by {
                    if out@.contains(x) {
                        let k = choose|k: int| 0 <= k < out@.len() && out@[k] == x;
                        if out@.len() > before.len() {
                            if k < p {
                                assert(before[k] == x);
                            } else if k > p {
                                assert(before[k - 1] == x);
                            }
                        } else {
                            assert(before[k] == x);
                        }
                    }
                    if before.contains(x) {
                        let k = choose|k: int| 0 <= k < before.len() && before[k] == x;
                        if out@.len() > before.len() {
                            if k < p {
                                assert(out@[k] == x);
                            } else {
                                assert(out@[k + 1] == x);
                            }
                        } else {
                            assert(out@[k] == x);
                        }
                    }
                    if x == e {
                        assert(out@[p as int] == x);
                    }
                }
            }
            entries@.take(i as int).lemma_push_to_set_commute(e);
        }
        i = i + 1;
    }
    assert(entries@.take(i as int) =~= entries@);
    out
}

fn pair_lt_exec(a: (u64, u64), b: (u64, u64)) -> (r: bool)
    ensures
        r == pair_lt(a, b),
{
    a.0 < b.0 || (a.0 == b.0 && a.1 < b.1)
}

/// An axis map with consecutive entries of numerically equal user coordinates
/// collapsed to the first of them (a NaN equals nothing, not even itself).
pub open spec fn dedup_by_user(s: Seq<(u64, u64)>) -> Seq<(u64, u64)>
    decreases s.len(),
{
    if s.len() == 0 {
        s
    } else {
        let d = dedup_by_user(s.drop_last());
        if d.len() > 0 && numerically_equal(d.last().0, s.last().0) {
            d
        } else {
            d.push(s.last())
        }
    }
}

/// Drops every entry whose user coordinate equals, as a number, that of the
/// entry kept before it.
pub fn dedup_user_runs(entries: &Vec<(u64, u64)>) -> (r: Vec<(u64, u64)>)
    ensures
        r@ == dedup_by_user(entries@),
{
    let mut out: Vec<(u64, u64)> = Vec::new();
    let mut i: usize = 0;
    while i < entries.len()
        invariant
            i <= entries.len(),
            out@ == dedup_by_user(entries@.take(i as int)),
        decreases entries.len() - i,
    {
        let e = entries[i];
        proof {
            let t = entries@.take(i as int + 1);
            assert(t.drop_last() =~= entries@.take(i as int));
            assert(t.last() == e);
        }
        let n = out.len();
        if n > 0 && keys_numerically_equal(out[n - 1].0, e.0) {
        } else {
            out.push(e);
        }
        i = i + 1;
    }
    assert(entries@.take(i as int) =~= entries@);
    out
}

} // verus!
