use vstd::prelude::*;
use crate::coords::ZERO_KEY;
use vstd::relations::injective_on;

verus! {

/// What the designspace logic reads of an axis.
///
/// `tag` is the axis tag as its big-endian value, so that tags order as they do
/// in a location. The coordinates are order keys (see `coords`); a missing
/// minimum, maximum or default counts as zero. `affects_metrics` and
/// `affects_kerning` are the axis' boolean flags of those names, `None` where
/// the axis has no such flag or the flag is not a boolean.
#[derive(Clone, Copy, Debug, PartialEq, Eq, Structural)]
pub struct AxisModel {
    pub tag: u32,
    pub min: Option<u64>,
    pub max: Option<u64>,
    pub default: Option<u64>,
    pub affects_metrics: Option<bool>,
    pub affects_kerning: Option<bool>,
}

/// A location in the designspace: one coordinate per axis tag, the entries
/// kept in increasing tag order.
#[derive(Debug)]
pub struct Location {
    pub entries: Vec<(u32, u64)>,
}

impl View for Location {
    type V = Seq<(u32, u64)>;

    open spec fn view(&self) -> Seq<(u32, u64)> {
        self.entries@
    }
}

/// The locations of a list of masters.
pub open spec fn locations(v: Seq<Location>) -> Seq<Seq<(u32, u64)>> {
    v.map_values(|l: Location| l@)
}

/// The coordinate that stands for a missing one.
pub open spec fn coord_or_zero(c: Option<u64>) -> u64 {
    match c {
        Some(k) => k,
        None => ZERO_KEY,
    }
}

pub open spec fn min_of(a: AxisModel) -> u64 {
    coord_or_zero(a.min)
}

pub open spec fn max_of(a: AxisModel) -> u64 {
    coord_or_zero(a.max)
}

pub open spec fn default_of(a: AxisModel) -> u64 {
    coord_or_zero(a.default)
}

/// Sets the coordinate of `tag`: the entry of that tag is replaced, or a new
/// one goes in before the first entry with a larger tag.
pub open spec fn loc_insert(s: Seq<(u32, u64)>, tag: u32, key: u64) -> Seq<(u32, u64)>
    decreases s.len(),
{
    if s.len() == 0 {
        seq![(tag, key)]
    } else if s[0].0 == tag {
        seq![(tag, key)] + s.drop_first()
    } else if s[0].0 > tag {
        seq![(tag, key)] + s
    } else {
        seq![s[0]] + loc_insert(s.drop_first(), tag, key)
    }
}

/// The default location: every axis at its default, later axes overriding
/// earlier ones of the same tag.
pub open spec fn default_location(axes: Seq<AxisModel>) -> Seq<(u32, u64)>
    decreases axes.len(),
{
    if axes.len() == 0 {
        Seq::empty()
    } else {
        loc_insert(default_location(axes.drop_last()), axes.last().tag, default_of(axes.last()))
    }
}

/// The three locations that one location becomes on a further axis: at its
/// minimum, its maximum and its default, in that order.
pub open spec fn three_ways(l: Seq<(u32, u64)>, a: AxisModel) -> Seq<Seq<(u32, u64)>> {
    seq![loc_insert(l, a.tag, min_of(a)), loc_insert(l, a.tag, max_of(a)), loc_insert(l, a.tag, default_of(a))]
}

pub open spec fn expand(prev: Seq<Seq<(u32, u64)>>, a: AxisModel) -> Seq<Seq<(u32, u64)>>
    decreases prev.len(),
{
    if prev.len() == 0 {
        Seq::empty()
    } else {
        expand(prev.drop_last(), a) + three_ways(prev.last(), a)
    }
}

/// The Cartesian product of minimum, maximum and default over the axes, the
/// first axis varying slowest.
pub open spec fn product_locations(axes: Seq<AxisModel>) -> Seq<Seq<(u32, u64)>>
    decreases axes.len(),
{
    if axes.len() == 0 {
        seq![Seq::empty()]
    } else {
        expand(product_locations(axes.drop_last()), axes.last())
    }
}

/// The corner locations of the designspace; none without axes.
pub open spec fn corners(axes: Seq<AxisModel>) -> Seq<Seq<(u32, u64)>> {
    if axes.len() == 0 {
        Seq::empty()
    } else {
        product_locations(axes)
    }
}

/// The corners that become new masters: each corner in turn, unless a master
/// (an existing one or one added before it) already stands there.
pub open spec fn new_masters(existing: Seq<Seq<(u32, u64)>>, cs: Seq<Seq<(u32, u64)>>) -> Seq<Seq<(u32, u64)>>
    decreases cs.len(),
{
    if cs.len() == 0 {
        Seq::empty()
    } else {
        let prev = new_masters(existing, cs.drop_last());
        if (existing + prev).contains(cs.last()) {
            prev
        } else {
            prev.push(cs.last())
        }
    }
}

/// The master locations after filling out the designspace: the first master
/// moved to the default location, then the new masters.
pub open spec fn filled_out(axes: Seq<AxisModel>, masters: Seq<Seq<(u32, u64)>>) -> Seq<Seq<(u32, u64)>> {
    let existing = masters.update(0, default_location(axes));
    existing + new_masters(existing, corners(axes))
}

/// Which of an axis' flags a location is filtered by.
#[derive(Clone, Copy, Debug, PartialEq, Eq, Structural)]
pub enum AxisEffect {
    Metrics,
    Kerning,
}

pub open spec fn effect_flag(a: AxisModel, effect: AxisEffect) -> Option<bool> {
    match effect {
        AxisEffect::Metrics => a.affects_metrics,
        AxisEffect::Kerning => a.affects_kerning,
    }
}

/// The flag of the first axis with this tag, `None` where there is no such axis.
pub open spec fn first_flag(axes: Seq<AxisModel>, tag: u32, effect: AxisEffect) -> Option<bool>
    decreases axes.len(),
{
    if axes.len() == 0 {
        None
    } else if axes[0].tag == tag {
        effect_flag(axes[0], effect)
    } else {
        first_flag(axes.drop_first(), tag, effect)
    }
}

/// Whether a location keeps its coordinate on `tag`: only an axis that says it
/// does not affect metrics (or kerning) drops out.
pub open spec fn keeps_tag(axes: Seq<AxisModel>, tag: u32, effect: AxisEffect) -> bool {
    first_flag(axes, tag, effect) != Some(false)
}

// ---------------------------------------------------------------------------
// Proofs about the specification functions
// ---------------------------------------------------------------------------

proof fn lemma_loc_insert_at(s: Seq<(u32, u64)>, tag: u32, key: u64, i: int)
    requires
        0 <= i <= s.len(),
        forall|j: int| 0 <= j < i ==> #[trigger] s[j].0 < tag,
        i < s.len() ==> s[i].0 >= tag,
    ensures
        loc_insert(s, tag, key) == (if i < s.len() && s[i].0 == tag {
            s.update(i, (tag, key))
        } else {
            s.insert(i, (tag, key))
        }),
    decreases i,
{
    if s.len() == 0 {
        assert(s.insert(i, (tag, key)) =~= seq![(tag, key)]);
    } else if i == 0 {
        if s[0].0 == tag {
            assert(s.update(0, (tag, key)) =~= seq![(tag, key)] + s.drop_first());
        } else {
            assert(s.insert(0, (tag, key)) =~= seq![(tag, key)] + s);
        }
    } else {
        assert(s[0].0 < tag);
        let t = s.drop_first();
        assert forall|j: int| 0 <= j < i - 1 implies #[trigger] t[j].0 < tag by {
            assert(t[j] == s[j + 1]);
        }
        lemma_loc_insert_at(t, tag, key, i - 1);
        if i < s.len() && s[i].0 == tag {
            assert(s.update(i, (tag, key)) =~= seq![s[0]] + t.update(i - 1, (tag, key)));
        } else {
            assert(s.insert(i, (tag, key)) =~= seq![s[0]] + t.insert(i - 1, (tag, key)));
        }
    }
}

proof fn lemma_expand_len(prev: Seq<Seq<(u32, u64)>>, a: AxisModel)
    ensures
        expand(prev, a).len() == 3 * prev.len(),
    decreases prev.len(),
{
    if prev.len() > 0 {
        lemma_expand_len(prev.drop_last(), a);
    }
}

proof fn lemma_product_nonempty(axes: Seq<AxisModel>)
    ensures
        product_locations(axes).len() >= 1,
    decreases axes.len(),
{
    if axes.len() > 0 {
        lemma_product_nonempty(axes.drop_last());
        lemma_expand_len(product_locations(axes.drop_last()), axes.last());
    }
}

/// What `expand` holds: each location on the axis' minimum, maximum or default.
proof fn lemma_expand_contains(prev: Seq<Seq<(u32, u64)>>, a: AxisModel, x: Seq<(u32, u64)>)
    ensures
        expand(prev, a).contains(x) <==> exists|l: Seq<(u32, u64)>, j: int|
            0 <= j < 3 && prev.contains(l) && x == #[trigger] three_ways(l, a)[j],
    decreases prev.len(),
{
    if prev.len() > 0 {
        let p = prev.drop_last();
        lemma_expand_contains(p, a, x);
        let e = expand(p, a);
        let t = three_ways(prev.last(), a);
        assert(expand(prev, a) == e + t);
        if expand(prev, a).contains(x) {
            let k = choose|k: int| 0 <= k < expand(prev, a).len() && expand(prev, a)[k] == x;
            if k < e.len() {
                assert(e[k] == x);
                assert(e.contains(x));
                let (l, j) = choose|l: Seq<(u32, u64)>, j: int|
                    0 <= j < 3 && p.contains(l) && x == #[trigger] three_ways(l, a)[j];
                let m = choose|m: int| 0 <= m < p.len() && p[m] == l;
                assert(prev[m] == l);
                assert(prev.contains(l));
            } else {
                lemma_expand_len(p, a);
                let j = k - e.len();
                assert(t[j] == x);
                assert(prev[prev.len() - 1] == prev.last());
                assert(prev.contains(prev.last()));
                assert(x == three_ways(prev.last(), a)[j]);
            }
        }
        if exists|l: Seq<(u32, u64)>, j: int|
            0 <= j < 3 && prev.contains(l) && x == #[trigger] three_ways(l, a)[j] {
            let (l, j) = choose|l: Seq<(u32, u64)>, j: int|
                0 <= j < 3 && prev.contains(l) && x == #[trigger] three_ways(l, a)[j];
            let m = choose|m: int| 0 <= m < prev.len() && prev[m] == l;
            lemma_expand_len(p, a);
            if m < prev.len() - 1 {
                assert(p[m] == l);
                assert(p.contains(l));
                assert(e.contains(x));
                let k = choose|k: int| 0 <= k < e.len() && e[k] == x;
                assert((e + t)[k] == x);
            } else {
                assert(l == prev.last());
                assert((e + t)[e.len() + j] == x);
            }
        }
    }
}

/// The default location is one of the product's locations.
proof fn lemma_default_in_product(axes: Seq<AxisModel>)
    ensures
        product_locations(axes).contains(default_location(axes)),
    decreases axes.len(),
{
    if axes.len() == 0 {
        assert(product_locations(axes)[0] == default_location(axes));
    } else {
        let p = axes.drop_last();
        lemma_default_in_product(p);
        let a = axes.last();
        lemma_expand_contains(product_locations(p), a, default_location(axes));
        assert(default_location(axes) == three_ways(default_location(p), a)[2]);
    }
}

/// Each new master is a corner, and it stands where no master stood before.
proof fn lemma_new_masters_props(existing: Seq<Seq<(u32, u64)>>, cs: Seq<Seq<(u32, u64)>>)
    ensures
        existing.no_duplicates() ==> (existing + new_masters(existing, cs)).no_duplicates(),
        forall|x: Seq<(u32, u64)>|
            (existing + new_masters(existing, cs)).contains(x) <==> (existing.contains(x)
                || cs.contains(x)),
    decreases cs.len(),
{
    if cs.len() > 0 {
        let init = cs.drop_last();
        let c = cs.last();
        lemma_new_masters_props(existing, init);
        let prev = new_masters(existing, init);
        let all = existing + prev;
        assert(cs == init.push(c));
        if all.contains(c) {
            assert forall|x: Seq<(u32, u64)>|
                (existing + new_masters(existing, cs)).contains(x) <==> (existing.contains(x)
                    || cs.contains(x)) by {
                if cs.contains(x) && !init.contains(x) {
                    let k = choose|k: int| 0 <= k < cs.len() && cs[k] == x;
                    if k < init.len() {
                        assert(init[k] == x);
                    }
                }
                if init.contains(x) {
                    let k = choose|k: int| 0 <= k < init.len() && init[k] == x;
                    assert(cs[k] == x);
                }
            }
        } else {
            let next = all.push(c);
            assert(existing + prev.push(c) == next);
            if existing.no_duplicates() {
                assert forall|i: int, j: int| 0 <= i < next.len() && 0 <= j < next.len() && i != j
                    implies next[i] != next[j] by {
                    if i == all.len() {
                        assert(all[j] == next[j]);
                    } else if j == all.len() {
                        assert(all[i] == next[i]);
                    } else {
                        assert(all[i] == next[i] && all[j] == next[j]);
                    }
                }
            }
            assert forall|x: Seq<(u32, u64)>|
                next.contains(x) <==> (existing.contains(x) || cs.contains(x)) by {
                if next.contains(x) {
                    let k = choose|k: int| 0 <= k < next.len() && next[k] == x;
                    if k < all.len() {
                        assert(all[k] == x);
                        if init.contains(x) {
                            let m = choose|m: int| 0 <= m < init.len() && init[m] == x;
                            assert(cs[m] == x);
                        }
                    } else {
                        assert(cs[cs.len() - 1] == x);
                    }
                }
                if cs.contains(x) {
                    let k = choose|k: int| 0 <= k < cs.len() && cs[k] == x;
                    if k < init.len() {
                        assert(init[k] == x);
                        assert(init.contains(x));
                        assert(all.contains(x));
                        let m = choose|m: int| 0 <= m < all.len() && all[m] == x;
                        assert(next[m] == x);
                    } else {
                        assert(next[all.len() as int] == x);
                    }
                }
                if existing.contains(x) {
                    let m = choose|m: int| 0 <= m < existing.len() && existing[m] == x;
                    assert(next[m] == x);
                }
            }
        }
    }
}

/// No corner becomes a master where every corner already has one.
proof fn lemma_new_masters_none(existing: Seq<Seq<(u32, u64)>>, cs: Seq<Seq<(u32, u64)>>)
    requires
        forall|x: Seq<(u32, u64)>| cs.contains(x) ==> existing.contains(x),
    ensures
        new_masters(existing, cs) == Seq::<Seq<(u32, u64)>>::empty(),
    decreases cs.len(),
{
    if cs.len() > 0 {
        let init = cs.drop_last();
        assert forall|x: Seq<(u32, u64)>| init.contains(x) implies existing.contains(x) by {
            let k = choose|k: int| 0 <= k < init.len() && init[k] == x;
            assert(cs[k] == x);
        }
        lemma_new_masters_none(existing, init);
        assert(cs[cs.len() - 1] == cs.last());
        assert(existing + Seq::<Seq<(u32, u64)>>::empty() == existing);
    }
}

// ---------------------------------------------------------------------------
// Laws
// ---------------------------------------------------------------------------

/// Filling out the masters of a font that has one master leaves one master on
/// each corner of the designspace and no two masters in the same place; the
/// first of them stands at the default location.
pub proof fn law_fill_out_covers_corners(axes: Seq<AxisModel>, masters: Seq<Seq<(u32, u64)>>)
    requires
        masters.len() == 1,
        axes.len() >= 1,
    ensures
        filled_out(axes, masters).no_duplicates(),
        filled_out(axes, masters)[0] == default_location(axes),
        forall|x: Seq<(u32, u64)>| #[trigger] filled_out(axes, masters).contains(x) <==> corners(axes).contains(x),
{
    let d = default_location(axes);
    let existing = masters.update(0, d);
    assert(existing =~= seq![d]);
    lemma_new_masters_props(existing, corners(axes));
    lemma_default_in_product(axes);
    assert forall|x: Seq<(u32, u64)>| #[trigger] filled_out(axes, masters).contains(x) <==> corners(axes).contains(x) by {
        if existing.contains(x) {
            let k = choose|k: int| 0 <= k < existing.len() && existing[k] == x;
            assert(x == d);
        }
        if x == d {
            assert(existing[0] == x);
        }
    }
}

/// Filling out the masters a second time adds none: every corner has its
/// master already, and the first master is already at the default location.
pub proof fn law_fill_out_idempotent(axes: Seq<AxisModel>, masters: Seq<Seq<(u32, u64)>>)
    requires
        masters.len() >= 1,
    ensures
        filled_out(axes, filled_out(axes, masters)) == filled_out(axes, masters),
{
    let d = default_location(axes);
    let existing = masters.update(0, d);
    let cs = corners(axes);
    let once = filled_out(axes, masters);
    lemma_new_masters_props(existing, cs);
    assert(once[0] == d);
    assert(once.update(0, d) =~= once);
    assert forall|x: Seq<(u32, u64)>| cs.contains(x) implies once.contains(x) by {}
    lemma_new_masters_none(once, cs);
    assert(once + Seq::<Seq<(u32, u64)>>::empty() =~= once);
}

/// A location with the coordinates dropped of the axes that say they do not
/// affect metrics (or kerning, as `effect` says).
pub open spec fn varying(l: Seq<(u32, u64)>, axes: Seq<AxisModel>, effect: AxisEffect) -> Seq<(u32, u64)> {
    l.filter(|e: (u32, u64)| keeps_tag(axes, e.0, effect))
}

/// An axis that says it does not affect metrics (or kerning) is frozen: once
/// a location is filtered for that effect, no coordinate of the axis' tag is
/// left, as long as no earlier axis has the same tag; the coordinates of an
/// axis that does not say so all stay.
pub proof fn law_frozen_axes_dropped(l: Seq<(u32, u64)>, axes: Seq<AxisModel>, effect: AxisEffect, i: int)
    requires
        0 <= i < axes.len(),
        forall|j: int| 0 <= j < i ==> #[trigger] axes[j].tag != axes[i].tag,
    ensures
        effect_flag(axes[i], effect) == Some(false) ==> forall|k: int| 0 <= k < varying(l, axes, effect).len()
            ==> #[trigger] varying(l, axes, effect)[k].0 != axes[i].tag,
        effect_flag(axes[i], effect) != Some(false) ==> forall|k: int| 0 <= k < l.len() && #[trigger] l[k].0 == axes[i].tag
            ==> varying(l, axes, effect).contains(l[k]),
{
    broadcast use vstd::seq_lib::group_filter_ensures;

    lemma_first_flag_at(axes, effect, i);
    let pred = |e: (u32, u64)| keeps_tag(axes, e.0, effect);
    let f = l.filter(pred);
    assert(f == varying(l, axes, effect));
    if effect_flag(axes[i], effect) == Some(false) {
        assert forall|k: int| 0 <= k < f.len() implies #[trigger] f[k].0 != axes[i].tag by {
            assert(pred(f[k]));
        }
    } else {
        assert forall|k: int| 0 <= k < l.len() && #[trigger] l[k].0 == axes[i].tag implies f.contains(l[k]) by {
            assert(pred(l[k]));
        }
    }
}

proof fn lemma_first_flag_at(axes: Seq<AxisModel>, effect: AxisEffect, i: int)
    requires
        0 <= i < axes.len(),
        forall|j: int| 0 <= j < i ==> #[trigger] axes[j].tag != axes[i].tag,
    ensures
        first_flag(axes, axes[i].tag, effect) == effect_flag(axes[i], effect),
    decreases i,
{
    if i > 0 {
        let r = axes.drop_first();
        assert forall|j: int| 0 <= j < i - 1 implies #[trigger] r[j].tag != r[i - 1].tag by {
            assert(r[j] == axes[j + 1]);
        }
        lemma_first_flag_at(r, effect, i - 1);
        assert(axes[0].tag != axes[i].tag);
    }
}

// ---------------------------------------------------------------------------
// Counting the corners
// ---------------------------------------------------------------------------

/// How many different values an axis' minimum, maximum and default take.
pub open spec fn distinct_count(a: AxisModel) -> nat {
    if min_of(a) == max_of(a) && max_of(a) == default_of(a) {
        1
    } else if min_of(a) == max_of(a) || max_of(a) == default_of(a) || min_of(a) == default_of(a) {
        2
    } else {
        3
    }
}

/// The number of corners of a designspace whose axes have different tags: the
/// product of the number of different values of each axis.
pub open spec fn corner_count(axes: Seq<AxisModel>) -> nat
    decreases axes.len(),
{
    if axes.len() == 0 {
        1
    } else {
        corner_count(axes.drop_last()) * distinct_count(axes.last())
    }
}

/// No two axes share a tag.
pub open spec fn axis_tags_distinct(axes: Seq<AxisModel>) -> bool {
    forall|i: int, j: int| 0 <= i < axes.len() && 0 <= j < axes.len() && i != j ==> axes[i].tag != axes[j].tag
}

/// Whether a location has a coordinate for this tag.
pub open spec fn has_tag(s: Seq<(u32, u64)>, t: u32) -> bool {
    exists|i: int| 0 <= i < s.len() && #[trigger] s[i].0 == t
}

/// Where a new tag goes into a location: before the first entry with a tag at
/// least as large.
pub open spec fn insert_pos(s: Seq<(u32, u64)>, t: u32) -> int
    decreases s.len(),
{
    if s.len() == 0 {
        0
    } else if s[0].0 >= t {
        0
    } else {
        1 + insert_pos(s.drop_first(), t)
    }
}

proof fn lemma_insert_pos(s: Seq<(u32, u64)>, t: u32)
    ensures
        0 <= insert_pos(s, t) <= s.len(),
        forall|j: int| 0 <= j < insert_pos(s, t) ==> #[trigger] s[j].0 < t,
        insert_pos(s, t) < s.len() ==> s[insert_pos(s, t)].0 >= t,
    decreases s.len(),
{
    if s.len() > 0 && s[0].0 < t {
        let r = s.drop_first();
        lemma_insert_pos(r, t);
        assert forall|j: int| 0 <= j < insert_pos(s, t) implies #[trigger] s[j].0 < t by {
            if j > 0 {
                assert(s[j] == r[j - 1]);
            }
        }
    }
}

proof fn lemma_insert_absent(s: Seq<(u32, u64)>, t: u32, v: u64)
    requires
        !has_tag(s, t),
    ensures
        loc_insert(s, t, v) == s.insert(insert_pos(s, t), (t, v)),
{
    lemma_insert_pos(s, t);
    let p = insert_pos(s, t);
    lemma_loc_insert_at(s, t, v, p);
    if p < s.len() {
        assert(s[p].0 != t);
    }
}

/// Setting a coordinate that a location lacks loses nothing: the location and
/// the value can be read back.
proof fn lemma_insert_injective(l1: Seq<(u32, u64)>, l2: Seq<(u32, u64)>, t: u32, v1: u64, v2: u64)
    requires
        !has_tag(l1, t),
        !has_tag(l2, t),
        loc_insert(l1, t, v1) == loc_insert(l2, t, v2),
    ensures
        l1 == l2,
        v1 == v2,
{
    lemma_insert_absent(l1, t, v1);
    lemma_insert_absent(l2, t, v2);
    lemma_insert_pos(l1, t);
    lemma_insert_pos(l2, t);
    let p1 = insert_pos(l1, t);
    let p2 = insert_pos(l2, t);
    let r = loc_insert(l1, t, v1);
    l1.insert_ensures(p1, (t, v1));
    l2.insert_ensures(p2, (t, v2));
    if p1 < p2 {
        assert(r[p1] == (t, v1));
        assert(r[p1] == l2[p1]);
        assert(l2[p1].0 < t);
    } else if p2 < p1 {
        assert(r[p2] == (t, v2));
        assert(r[p2] == l1[p2]);
        assert(l1[p2].0 < t);
    } else {
        assert(r[p1] == (t, v1));
        assert forall|j: int| 0 <= j < l1.len() implies l1[j] == l2[j] by {
            if j < p1 {
                assert(r[j] == l1[j] && r[j] == l2[j]);
            } else {
                assert(r[j + 1] == l1[j] && r[j + 1] == l2[j]);
            }
        }
        assert(l1 =~= l2);
    }
}

proof fn lemma_insert_entries(s: Seq<(u32, u64)>, t: u32, v: u64, e: (u32, u64))
    ensures
        loc_insert(s, t, v).contains(e) ==> s.contains(e) || e.0 == t,
    decreases s.len(),
{
    let r = loc_insert(s, t, v);
    if r.contains(e) && e.0 != t {
        let k = choose|k: int| 0 <= k < r.len() && r[k] == e;
        if s.len() == 0 {
        } else if s[0].0 == t {
            assert(s[k] == e);
        } else if s[0].0 > t {
            assert(s[k - 1] == e);
        } else {
            let d = s.drop_first();
            if k == 0 {
                assert(s[0] == e);
            } else {
                lemma_insert_entries(d, t, v, e);
                assert(loc_insert(d, t, v)[k - 1] == e);
                let m = choose|m: int| 0 <= m < d.len() && d[m] == e;
                assert(s[m + 1] == e);
            }
        }
    }
}

/// Every coordinate of a product location belongs to one of the axes.
proof fn lemma_product_tags(axes: Seq<AxisModel>, l: Seq<(u32, u64)>, e: (u32, u64))
    requires
        product_locations(axes).contains(l),
        l.contains(e),
    ensures
        exists|i: int| 0 <= i < axes.len() && #[trigger] axes[i].tag == e.0,
    decreases axes.len(),
{
    if axes.len() == 0 {
        assert(product_locations(axes) == seq![Seq::<(u32, u64)>::empty()]);
        let k = choose|k: int| 0 <= k < product_locations(axes).len() && product_locations(axes)[k] == l;
        assert(l == Seq::<(u32, u64)>::empty());
    } else {
        let p = axes.drop_last();
        let a = axes.last();
        lemma_expand_contains(product_locations(p), a, l);
        let (m, j) = choose|m: Seq<(u32, u64)>, j: int|
            0 <= j < 3 && product_locations(p).contains(m) && l == #[trigger] three_ways(m, a)[j];
        let v = if j == 0 { min_of(a) } else if j == 1 { max_of(a) } else { default_of(a) };
        assert(l == loc_insert(m, a.tag, v));
        lemma_insert_entries(m, a.tag, v, e);
        if e.0 == a.tag {
            assert(axes[axes.len() - 1].tag == e.0);
        } else {
            lemma_product_tags(p, m, e);
            let i = choose|i: int| 0 <= i < p.len() && #[trigger] p[i].tag == e.0;
            assert(axes[i] == p[i]);
        }
    }
}

/// Setting a coordinate gives a location with that tag and keeps every
/// other tag.
proof fn lemma_insert_has_tag(s: Seq<(u32, u64)>, t: u32, v: u64, u: u32)
    ensures
        has_tag(loc_insert(s, t, v), u) <==> (has_tag(s, u) || u == t),
    decreases s.len(),
{
    let r = loc_insert(s, t, v);
    if s.len() == 0 {
        if has_tag(r, u) {
            assert(r[0].0 == u);
        }
        if u == t {
            assert(r[0].0 == u);
        }
    } else if s[0].0 == t {
        if has_tag(r, u) && u != t {
            let k = choose|k: int| 0 <= k < r.len() && #[trigger] r[k].0 == u;
            assert(s[k].0 == u);
        }
        if has_tag(s, u) {
            let k = choose|k: int| 0 <= k < s.len() && #[trigger] s[k].0 == u;
            if k == 0 {
                assert(r[0].0 == u);
            } else {
                assert(r[k].0 == u);
            }
        }
        if u == t {
            assert(r[0].0 == u);
        }
    } else if s[0].0 > t {
        if has_tag(r, u) && u != t {
            let k = choose|k: int| 0 <= k < r.len() && #[trigger] r[k].0 == u;
            assert(s[k - 1].0 == u);
        }
        if has_tag(s, u) {
            let k = choose|k: int| 0 <= k < s.len() && #[trigger] s[k].0 == u;
            assert(r[k + 1].0 == u);
        }
        if u == t {
            assert(r[0].0 == u);
        }
    } else {
        let d = s.drop_first();
        lemma_insert_has_tag(d, t, v, u);
        let rd = loc_insert(d, t, v);
        if has_tag(r, u) {
            let k = choose|k: int| 0 <= k < r.len() && #[trigger] r[k].0 == u;
            if k == 0 {
                assert(s[0].0 == u);
            } else {
                assert(rd[k - 1].0 == u);
                if has_tag(d, u) {
                    let m = choose|m: int| 0 <= m < d.len() && #[trigger] d[m].0 == u;
                    assert(s[m + 1].0 == u);
                }
            }
        }
        if has_tag(s, u) {
            let k = choose|k: int| 0 <= k < s.len() && #[trigger] s[k].0 == u;
            if k == 0 {
                assert(r[0].0 == u);
            } else {
                assert(d[k - 1].0 == u);
                let m = choose|m: int| 0 <= m < rd.len() && #[trigger] rd[m].0 == u;
                assert(r[m + 1].0 == u);
            }
        }
        if u == t {
            let m = choose|m: int| 0 <= m < rd.len() && #[trigger] rd[m].0 == u;
            assert(r[m + 1].0 == u);
        }
    }
}

/// Every product location has a coordinate on each axis' tag.
proof fn lemma_product_has_tags(axes: Seq<AxisModel>, l: Seq<(u32, u64)>, i: int)
    requires
        product_locations(axes).contains(l),
        0 <= i < axes.len(),
    ensures
        has_tag(l, axes[i].tag),
    decreases axes.len(),
{
    let p = axes.drop_last();
    let a = axes.last();
    lemma_expand_contains(product_locations(p), a, l);
    let (m, j) = choose|m: Seq<(u32, u64)>, j: int|
        0 <= j < 3 && product_locations(p).contains(m) && l == #[trigger] three_ways(m, a)[j];
    let v = if j == 0 { min_of(a) } else if j == 1 { max_of(a) } else { default_of(a) };
    assert(l == loc_insert(m, a.tag, v));
    lemma_insert_has_tag(m, a.tag, v, axes[i].tag);
    if i < axes.len() - 1 {
        assert(p[i] == axes[i]);
        lemma_product_has_tags(p, m, i);
    }
}

/// Every corner of the designspace, and so every master after filling out,
/// has a coordinate on exactly the axes' tags: one on each axis' tag, and
/// none on a tag that no axis has.
pub proof fn law_corners_hold_axis_tags(axes: Seq<AxisModel>, l: Seq<(u32, u64)>)
    requires
        corners(axes).contains(l),
    ensures
        forall|i: int| 0 <= i < axes.len() ==> has_tag(l, #[trigger] axes[i].tag),
        forall|k: int| #![trigger l[k]] 0 <= k < l.len() ==> exists|i: int| 0 <= i < axes.len() && #[trigger] axes[i].tag == l[k].0,
{
    assert forall|i: int| 0 <= i < axes.len() implies has_tag(l, #[trigger] axes[i].tag) by {
        lemma_product_has_tags(axes, l, i);
    }
    assert forall|k: int| #![trigger l[k]] 0 <= k < l.len() implies exists|i: int| 0 <= i < axes.len() && #[trigger] axes[i].tag == l[k].0 by {
        assert(l.contains(l[k]));
        lemma_product_tags(axes, l, l[k]);
    }
}

/// The product has as many different locations as `corner_count` says,
/// provided the axes have different tags.
proof fn lemma_product_card(axes: Seq<AxisModel>)
    requires
        axis_tags_distinct(axes),
    ensures
        product_locations(axes).to_set().len() == corner_count(axes),
    decreases axes.len(),
{
    broadcast use vstd::set::group_set_axioms, vstd::seq_lib::seq_to_set_is_finite;

    if axes.len() == 0 {
        assert(product_locations(axes).to_set() =~= Set::<Seq<(u32, u64)>>::empty().insert(Seq::empty())) by {
            assert(product_locations(axes)[0] == Seq::<(u32, u64)>::empty());
        }
    } else {
        let p = axes.drop_last();
        let a = axes.last();
        let t = a.tag;
        assert(axis_tags_distinct(p)) by {
            assert forall|i: int, j: int| 0 <= i < p.len() && 0 <= j < p.len() && i != j implies p[i].tag != p[j].tag by {
                assert(p[i] == axes[i] && p[j] == axes[j]);
            }
        }
        lemma_product_card(p);
        let pl = product_locations(p);
        let s = pl.to_set();
        assert forall|l: Seq<(u32, u64)>| s.contains(l) implies !has_tag(l, t) by {
            if has_tag(l, t) {
                let k = choose|k: int| 0 <= k < l.len() && #[trigger] l[k].0 == t;
                assert(l.contains(l[k]));
                lemma_product_tags(p, l, l[k]);
                let i = choose|i: int| 0 <= i < p.len() && #[trigger] p[i].tag == l[k].0;
                assert(axes[i] == p[i]);
                assert(axes[axes.len() - 1].tag == t);
            }
        }
        let fmin = |l: Seq<(u32, u64)>| loc_insert(l, t, min_of(a));
        let fmax = |l: Seq<(u32, u64)>| loc_insert(l, t, max_of(a));
        let fdef = |l: Seq<(u32, u64)>| loc_insert(l, t, default_of(a));
        let ia = s.map(fmin);
        let ib = s.map(fmax);
        let ic = s.map(fdef);
        assert(injective_on(fmin, s)) by {
            assert forall|x: Seq<(u32, u64)>, y: Seq<(u32, u64)>| s.contains(x) && s.contains(y) && #[trigger] fmin(x) == #[trigger] fmin(y) implies x == y by {
                lemma_insert_injective(x, y, t, min_of(a), min_of(a));
            }
        }
        assert(injective_on(fmax, s)) by {
            assert forall|x: Seq<(u32, u64)>, y: Seq<(u32, u64)>| s.contains(x) && s.contains(y) && #[trigger] fmax(x) == #[trigger] fmax(y) implies x == y by {
                lemma_insert_injective(x, y, t, max_of(a), max_of(a));
            }
        }
        assert(injective_on(fdef, s)) by {
            assert forall|x: Seq<(u32, u64)>, y: Seq<(u32, u64)>| s.contains(x) && s.contains(y) && #[trigger] fdef(x) == #[trigger] fdef(y) implies x == y by {
                lemma_insert_injective(x, y, t, default_of(a), default_of(a));
            }
        }
        vstd::set_lib::lemma_map_size(s, ia, fmin);
        vstd::set_lib::lemma_map_size(s, ib, fmax);
        vstd::set_lib::lemma_map_size(s, ic, fdef);
        let e = product_locations(axes).to_set();
        assert(product_locations(axes) == expand(pl, a));
        // The product is the three images together.
        assert forall|x: Seq<(u32, u64)>| e.contains(x) <==> (ia.contains(x) || ib.contains(x) || ic.contains(x)) by {
            lemma_expand_contains(pl, a, x);
            if e.contains(x) {
                assert(expand(pl, a).contains(x));
                let (l, j) = choose|l: Seq<(u32, u64)>, j: int|
                    0 <= j < 3 && pl.contains(l) && x == #[trigger] three_ways(l, a)[j];
                assert(s.contains(l));
                if j == 0 {
                    assert(fmin(l) == x);
                } else if j == 1 {
                    assert(fmax(l) == x);
                } else {
                    assert(fdef(l) == x);
                }
            }
            if ia.contains(x) {
                let l = choose|l: Seq<(u32, u64)>| s.contains(l) && fmin(l) == x;
                assert(x == three_ways(l, a)[0]);
                assert(expand(pl, a).contains(x));
            }
            if ib.contains(x) {
                let l = choose|l: Seq<(u32, u64)>| s.contains(l) && fmax(l) == x;
                assert(x == three_ways(l, a)[1]);
                assert(expand(pl, a).contains(x));
            }
            if ic.contains(x) {
                let l = choose|l: Seq<(u32, u64)>| s.contains(l) && fdef(l) == x;
                assert(x == three_ways(l, a)[2]);
                assert(expand(pl, a).contains(x));
            }
        }
        // Images of different values do not meet.
        assert(min_of(a) != max_of(a) ==> ia.disjoint(ib)) by {
            if min_of(a) != max_of(a) {
                assert forall|x: Seq<(u32, u64)>| !(ia.contains(x) && ib.contains(x)) by {
                    if ia.contains(x) && ib.contains(x) {
                        let l1 = choose|l: Seq<(u32, u64)>| s.contains(l) && fmin(l) == x;
                        let l2 = choose|l: Seq<(u32, u64)>| s.contains(l) && fmax(l) == x;
                        lemma_insert_injective(l1, l2, t, min_of(a), max_of(a));
                    }
                }
            }
        }
        assert(min_of(a) != default_of(a) ==> ia.disjoint(ic)) by {
            if min_of(a) != default_of(a) {
                assert forall|x: Seq<(u32, u64)>| !(ia.contains(x) && ic.contains(x)) by {
                    if ia.contains(x) && ic.contains(x) {
                        let l1 = choose|l: Seq<(u32, u64)>| s.contains(l) && fmin(l) == x;
                        let l2 = choose|l: Seq<(u32, u64)>| s.contains(l) && fdef(l) == x;
                        lemma_insert_injective(l1, l2, t, min_of(a), default_of(a));
                    }
                }
            }
        }
        assert(max_of(a) != default_of(a) ==> ib.disjoint(ic)) by {
            if max_of(a) != default_of(a) {
                assert forall|x: Seq<(u32, u64)>| !(ib.contains(x) && ic.contains(x)) by {
                    if ib.contains(x) && ic.contains(x) {
                        let l1 = choose|l: Seq<(u32, u64)>| s.contains(l) && fmax(l) == x;
                        let l2 = choose|l: Seq<(u32, u64)>| s.contains(l) && fdef(l) == x;
                        lemma_insert_injective(l1, l2, t, max_of(a), default_of(a));
                    }
                }
            }
        }
        let n = corner_count(p);
        assert(s.len() == n);
        assert(corner_count(axes) == n * distinct_count(a));
        if min_of(a) == max_of(a) && max_of(a) == default_of(a) {
            assert(ia =~= ib && ia =~= ic);
            assert(e =~= ia);
            assert(n * 1 == n);
        } else if min_of(a) == max_of(a) {
            assert(ia =~= ib);
            assert(e =~= ia + ic);
            vstd::set_lib::lemma_set_disjoint_lens(ia, ic);
            assert(n * 2 == n + n);
        } else if max_of(a) == default_of(a) {
            assert(ib =~= ic);
            assert(e =~= ia + ib);
            vstd::set_lib::lemma_set_disjoint_lens(ia, ib);
            assert(n * 2 == n + n);
        } else if min_of(a) == default_of(a) {
            assert(ia =~= ic);
            assert(e =~= ia + ib);
            vstd::set_lib::lemma_set_disjoint_lens(ia, ib);
            assert(n * 2 == n + n);
        } else {
            assert(e =~= (ia + ib) + ic);
            vstd::set_lib::lemma_set_disjoint_lens(ia, ib);
            assert((ia + ib).disjoint(ic));
            vstd::set_lib::lemma_set_disjoint_lens(ia + ib, ic);
            assert(n * 3 == n + n + n);
        }
    }
}

/// Filling out the masters of a font that has one master, over axes with
/// different tags, leaves as many masters as the product over the axes of the
/// number of different values among minimum, maximum and default.
pub proof fn law_master_count(axes: Seq<AxisModel>, masters: Seq<Seq<(u32, u64)>>)
    requires
        masters.len() == 1,
        axes.len() >= 1,
        axis_tags_distinct(axes),
    ensures
        filled_out(axes, masters).len() == corner_count(axes),
{
    broadcast use vstd::seq_lib::seq_to_set_is_finite;

    law_fill_out_covers_corners(axes, masters);
    lemma_product_card(axes);
    let f = filled_out(axes, masters);
    f.unique_seq_to_set();
    assert(f.to_set() =~= product_locations(axes).to_set()) by {
        assert forall|x: Seq<(u32, u64)>| f.to_set().contains(x) <==> product_locations(axes).to_set().contains(x) by {
            assert(f.contains(x) <==> corners(axes).contains(x));
        }
    }
}

// ---------------------------------------------------------------------------
// Executable functions
// ---------------------------------------------------------------------------

/// A copy of a location.
pub fn copy_location(l: &Location) -> (r: Location)
    ensures
        r@ == l@,
{
    let mut entries: Vec<(u32, u64)> = Vec::new();
    let mut i: usize = 0;
    while i < l.entries.len()
        invariant
            i <= l.entries.len(),
            entries@ == l.entries@.take(i as int),
        decreases l.entries.len() - i,
    {
        let e = l.entries[i];
        entries.push(e);
        i = i + 1;
        assert(entries@ =~= l.entries@.take(i as int));
    }
    assert(l.entries@.take(i as int) =~= l.entries@);
    Location { entries }
}

/// Whether two locations are the same.
pub fn same_location(a: &Location, b: &Location) -> (r: bool)
    ensures
        r == (a@ == b@),
{
    if a.entries.len() != b.entries.len() {
        return false;
    }
    let mut i: usize = 0;
    while i < a.entries.len()
        invariant
            i <= a.entries.len(),
            a.entries.len() == b.entries.len(),
            forall|j: int| 0 <= j < i ==> a.entries@[j] == b.entries@[j],
        decreases a.entries.len() - i,
    {
        let x = a.entries[i];
        let y = b.entries[i];
        if x.0 != y.0 || x.1 != y.1 {
            assert(a@[i as int] != b@[i as int]);
            return false;
        }
        i = i + 1;
    }
    assert(a@ =~= b@);
    true
}

/// Whether a list of locations holds this one.
pub fn has_location(list: &Vec<Location>, l: &Location) -> (r: bool)
    ensures
        r == locations(list@).contains(l@),
{
    let mut i: usize = 0;
    while i < list.len()
        invariant
            i <= list.len(),
            forall|j: int| 0 <= j < i ==> list@[j]@ != l@,
        decreases list.len() - i,
    {
        if same_location(&list[i], l) {
            assert(locations(list@)[i as int] == l@);
            return true;
        }
        i = i + 1;
    }
    assert forall|k: int| 0 <= k < locations(list@).len() implies locations(list@)[k] != l@ by {
        assert(locations(list@)[k] == list@[k]@);
    }
    false
}

/// Sets the coordinate of `tag` in a location, as `loc_insert` says.
pub fn insert_coord(l: &mut Location, tag: u32, key: u64)
    ensures
        final(l)@ == loc_insert(old(l)@, tag, key),
{
    let mut i: usize = 0;
    while i < l.entries.len() && l.entries[i].0 < tag
        invariant
            i <= l.entries.len(),
            forall|j: int| 0 <= j < i ==> #[trigger] l.entries@[j].0 < tag,
        decreases l.entries.len() - i,
    {
        i = i + 1;
    }
    proof {
        lemma_loc_insert_at(l.entries@, tag, key, i as int);
    }
    if i < l.entries.len() && l.entries[i].0 == tag {
        l.entries.set(i, (tag, key));
    } else {
        l.entries.insert(i, (tag, key));
    }
}

/// The default location of the axes.
pub fn default_location_of(axes: &Vec<AxisModel>) -> (r: Location)
    ensures
        r@ == default_location(axes@),
{
    let mut loc = Location { entries: Vec::new() };
    let mut i: usize = 0;
    while i < axes.len()
        invariant
            i <= axes.len(),
            loc@ == default_location(axes@.take(i as int)),
        decreases axes.len() - i,
    {
        let a = axes[i];
        let d = match a.default {
            Some(k) => k,
            None => ZERO_KEY,
        };
        insert_coord(&mut loc, a.tag, d);
        assert(axes@.take(i as int + 1).drop_last() =~= axes@.take(i as int));
        i = i + 1;
    }
    assert(axes@.take(i as int) =~= axes@);
    loc
}

/// The location `l` with `tag` set to `key`, as a new location.
fn with_coord(l: &Location, tag: u32, key: u64) -> (r: Location)
    ensures
        r@ == loc_insert(l@, tag, key),
{
    let mut c = copy_location(l);
    insert_coord(&mut c, tag, key);
    c
}

/// The corners of the designspace: minimum, maximum and default of each axis
/// combined with those of every other axis, the first axis varying slowest.
pub fn corner_locations(axes: &Vec<AxisModel>) -> (r: Vec<Location>)
    ensures
        locations(r@) == corners(axes@),
{
    let mut corners_so_far: Vec<Location> = Vec::new();
    let mut i: usize = 0;
    while i < axes.len()
        invariant
            i <= axes.len(),
            locations(corners_so_far@) == corners(axes@.take(i as int)),
        decreases axes.len() - i,
    {
        let a = axes[i];
        let lo = match a.min { Some(k) => k, None => ZERO_KEY };
        let hi = match a.max { Some(k) => k, None => ZERO_KEY };
        let de = match a.default { Some(k) => k, None => ZERO_KEY };
        let ghost prefix = axes@.take(i as int);
        let ghost next_prefix = axes@.take(i as int + 1);
        proof {
            assert(next_prefix.drop_last() =~= prefix);
            assert(next_prefix.last() == a);
        }
        if corners_so_far.len() == 0 {
            proof {
                if i > 0 {
                    lemma_product_nonempty(prefix);
                }
            }
            let empty = Location { entries: Vec::new() };
            let mut fresh: Vec<Location> = Vec::new();
            fresh.push(with_coord(&empty, a.tag, lo));
            fresh.push(with_coord(&empty, a.tag, hi));
            fresh.push(with_coord(&empty, a.tag, de));
            proof {
                let start = seq![Seq::<(u32, u64)>::empty()];
                assert(product_locations(prefix) == start);
                assert(start.drop_last() =~= Seq::<Seq<(u32, u64)>>::empty());
                assert(expand(start.drop_last(), a) == Seq::<Seq<(u32, u64)>>::empty());
                assert(expand(start, a) =~= Seq::<Seq<(u32, u64)>>::empty() + three_ways(start.last(), a));
                assert(locations(fresh@) =~= three_ways(Seq::empty(), a));
            }
            corners_so_far = fresh;
        } else {
            let mut next: Vec<Location> = Vec::new();
            let mut k: usize = 0;
            let ghost prev = locations(corners_so_far@);
            proof {
                assert(prev == product_locations(prefix));
            }
            while k < corners_so_far.len()
                invariant
                    k <= corners_so_far.len(),
                    prev == locations(corners_so_far@),
                    locations(next@) == expand(prev.take(k as int), a),
                    lo == min_of(a),
                    hi == max_of(a),
                    de == default_of(a),
                decreases corners_so_far.len() - k,
            {
                let l = &corners_so_far[k];
                next.push(with_coord(l, a.tag, lo));
                next.push(with_coord(l, a.tag, hi));
                next.push(with_coord(l, a.tag, de));
                proof {
                    let t = prev.take(k as int + 1);
                    assert(t.drop_last() =~= prev.take(k as int));
                    assert(t.last() == l@);
                    assert(locations(next@) =~= expand(prev.take(k as int), a) + three_ways(l@, a));
                }
                k = k + 1;
            }
            proof {
                assert(prev.take(k as int) =~= prev);
            }
            corners_so_far = next;
        }
        i = i + 1;
    }
    assert(axes@.take(i as int) =~= axes@);
    corners_so_far
}

/// Where the masters go when the designspace is filled out.
pub struct MasterPlan {
    /// The location the first master moves to.
    pub default_location: Location,
    /// The locations of the masters to add, in order.
    pub new_locations: Vec<Location>,
}

/// Plans the filling out of the designspace: the first master moves to the
/// default location, and every corner where no master stands yet gets a new
/// master, in corner order, each corner at most once.
pub fn plan_masters(axes: &Vec<AxisModel>, masters: &Vec<Location>) -> (r: MasterPlan)
    requires
        masters.len() >= 1,
    ensures
        r.default_location@ == default_location(axes@),
        locations(masters@).update(0, r.default_location@) + locations(r.new_locations@)
            == filled_out(axes@, locations(masters@)),
{
    let default = default_location_of(axes);
    let cs = corner_locations(axes);
    let mut known: Vec<Location> = Vec::new();
    known.push(copy_location(&default));
    let mut i: usize = 1;
    while i < masters.len()
        invariant
            1 <= i <= masters.len(),
            locations(known@) == locations(masters@).update(0, default@).take(i as int),
        decreases masters.len() - i,
    {
        let ghost old_known = known@;
        let c = copy_location(&masters[i]);
        known.push(c);
        assert(locations(masters@).update(0, default@)[i as int] == masters@[i as int]@);
        assert(locations(known@) =~= locations(old_known).push(c@));
        assert(locations(masters@).update(0, default@).take(i as int + 1) =~= locations(masters@).update(0, default@).take(i as int).push(c@));
        assert(locations(known@) =~= locations(masters@).update(0, default@).take(i as int + 1));
        i = i + 1;
    }
    let ghost existing = locations(masters@).update(0, default@);
    assert(locations(known@) =~= existing);
    let mut added: Vec<Location> = Vec::new();
    let mut k: usize = 0;
    while k < cs.len()
        invariant
            k <= cs.len(),
            locations(known@) == existing,
            locations(added@) == new_masters(existing, locations(cs@).take(k as int)),
        decreases cs.len() - k,
    {
        let c = &cs[k];
        let ghost t = locations(cs@).take(k as int + 1);
        proof {
            assert(t.drop_last() =~= locations(cs@).take(k as int));
            assert(t.last() == c@);
        }
        let in_known = has_location(&known, c);
        let in_added = has_location(&added, c);
        proof {
            let all = existing + locations(added@);
            if all.contains(c@) {
                let m = choose|m: int| 0 <= m < all.len() && all[m] == c@;
                if m < existing.len() {
                    assert(locations(known@)[m] == c@);
                } else {
                    assert(locations(added@)[m - existing.len()] == c@);
                }
            }
            if in_known {
                let m = choose|m: int| 0 <= m < locations(known@).len() && locations(known@)[m] == c@;
                assert(all[m] == c@);
            }
            if in_added {
                let m = choose|m: int| 0 <= m < locations(added@).len() && locations(added@)[m] == c@;
                assert(all[existing.len() + m] == c@);
            }
        }
        if !in_known && !in_added {
            added.push(copy_location(c));
            assert(locations(added@) =~= new_masters(existing, t));
        }
        k = k + 1;
    }
    assert(locations(cs@).take(k as int) =~= locations(cs@));
    MasterPlan { default_location: default, new_locations: added }
}

/// The location with the coordinates dropped of every axis that says it does
/// not affect metrics (or kerning, as `effect` says); the first axis of a tag
/// decides for it.
pub fn varying_location(l: &Location, axes: &Vec<AxisModel>, effect: AxisEffect) -> (r: Location)
    ensures
        r@ == varying(l@, axes@, effect),
{
    let ghost pred = |e: (u32, u64)| keeps_tag(axes@, e.0, effect);
    let mut entries: Vec<(u32, u64)> = Vec::new();
    let mut i: usize = 0;
    while i < l.entries.len()
        invariant
            i <= l.entries.len(),
            pred == (|e: (u32, u64)| keeps_tag(axes@, e.0, effect)),
            entries@ == l.entries@.take(i as int).filter(pred),
        decreases l.entries.len() - i,
    {
        let e = l.entries[i];
        let keep = axis_keeps(axes, e.0, effect);
        proof {
            let t = l.entries@.take(i as int + 1);
            assert(t.drop_last() =~= l.entries@.take(i as int));
            assert(t.last() == e);
            reveal_with_fuel(Seq::filter, 1);
        }
        if keep {
            entries.push(e);
        }
        i = i + 1;
    }
    assert(l.entries@.take(i as int) =~= l.entries@);
    Location { entries }
}

/// Whether the first axis with this tag lets the coordinate stay.
fn axis_keeps(axes: &Vec<AxisModel>, tag: u32, effect: AxisEffect) -> (r: bool)
    ensures
        r == keeps_tag(axes@, tag, effect),
{
    let mut i: usize = 0;
    assert(axes@.skip(0) =~= axes@);
    while i < axes.len()
        invariant
            i <= axes.len(),
            forall|j: int| 0 <= j < i ==> #[trigger] axes@[j].tag != tag,
            first_flag(axes@, tag, effect) == first_flag(axes@.skip(i as int), tag, effect),
        decreases axes.len() - i,
    {
        let a = axes[i];
        proof {
            let s = axes@.skip(i as int);
            assert(s[0] == a);
            assert(s.drop_first() =~= axes@.skip(i as int + 1));
        }
        if a.tag == tag {
            let flag = match effect {
                AxisEffect::Metrics => a.affects_metrics,
                AxisEffect::Kerning => a.affects_kerning,
            };
            return match flag {
                Some(b) => b,
                None => true,
            };
        }
        i = i + 1;
    }
    assert(axes@.skip(i as int) =~= Seq::<AxisModel>::empty());
    true
}

} // verus!
