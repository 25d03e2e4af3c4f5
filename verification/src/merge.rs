use vstd::prelude::*;
use std::collections::HashSet;
use vstd::string::StringSliceAdditionalSpecFns;

verus! {

broadcast use vstd::std_specs::hash::group_hash_axioms;

/// What the merge reads of a glyph: its name and the codepoints it is mapped
/// from, in order.
#[derive(Clone, Debug)]
pub struct GlyphEntry {
    pub name: String,
    pub codepoints: Vec<u32>,
}

impl View for GlyphEntry {
    type V = (Seq<char>, Seq<u32>);

    open spec fn view(&self) -> (Seq<char>, Seq<u32>) {
        (self.name@, self.codepoints@)
    }
}

/// The names and codepoints of a list of glyphs.
pub open spec fn glyph_views(v: Seq<GlyphEntry>) -> Seq<(Seq<char>, Seq<u32>)> {
    v.map_values(|g: GlyphEntry| g@)
}

/// Whether some glyph has this name.
pub open spec fn has_name(gs: Seq<(Seq<char>, Seq<u32>)>, n: Seq<char>) -> bool {
    exists|i: int| 0 <= i < gs.len() && #[trigger] gs[i].0 == n
}

/// Whether some glyph is mapped from this codepoint.
pub open spec fn has_codepoint(gs: Seq<(Seq<char>, Seq<u32>)>, c: u32) -> bool {
    exists|i: int| 0 <= i < gs.len() && #[trigger] gs[i].1.contains(c)
}

/// The codepoints of `cps` that no glyph of `gs` is mapped from, in order.
pub open spec fn free_codepoints(cps: Seq<u32>, gs: Seq<(Seq<char>, Seq<u32>)>) -> Seq<u32> {
    cps.filter(|c: u32| !has_codepoint(gs, c))
}

/// What becomes of one glyph of the other font, merged into `gs`: nothing if
/// its name is taken; otherwise it is added with the codepoints that are still
/// free.
pub open spec fn merge_step(gs: Seq<(Seq<char>, Seq<u32>)>, g: (Seq<char>, Seq<u32>)) -> Option<Seq<u32>> {
    if has_name(gs, g.0) {
        None
    } else {
        Some(free_codepoints(g.1, gs))
    }
}

/// The glyphs after merging the glyphs of `other` into `base`, one at a time.
pub open spec fn merged(base: Seq<(Seq<char>, Seq<u32>)>, other: Seq<(Seq<char>, Seq<u32>)>) -> Seq<(Seq<char>, Seq<u32>)>
    decreases other.len(),
{
    if other.len() == 0 {
        base
    } else {
        let m = merged(base, other.drop_last());
        match merge_step(m, other.last()) {
            None => m,
            Some(cps) => m.push((other.last().0, cps)),
        }
    }
}

/// The glyphs after applying a merge plan: each glyph of `other` whose entry
/// in the plan holds codepoints is added, under its own name, with those
/// codepoints.
pub open spec fn apply_plan(
    base: Seq<(Seq<char>, Seq<u32>)>,
    other: Seq<(Seq<char>, Seq<u32>)>,
    plan: Seq<Option<Seq<u32>>>,
) -> Seq<(Seq<char>, Seq<u32>)>
    decreases other.len(),
{
    if other.len() == 0 || plan.len() == 0 {
        base
    } else {
        let m = apply_plan(base, other.drop_last(), plan.drop_last());
        match plan.last() {
            None => m,
            Some(cps) => m.push((other.last().0, cps)),
        }
    }
}

/// The codepoints of a plan entry, as a sequence.
pub open spec fn plan_view(p: Seq<Option<Vec<u32>>>) -> Seq<Option<Seq<u32>>> {
    p.map_values(|o: Option<Vec<u32>>| match o {
        Some(v) => Some(v@),
        None => None,
    })
}

/// No two glyphs share a name.
pub open spec fn names_distinct(gs: Seq<(Seq<char>, Seq<u32>)>) -> bool {
    forall|i: int, j: int| 0 <= i < gs.len() && 0 <= j < gs.len() && i != j ==> gs[i].0 != gs[j].0
}

/// No codepoint occurs twice in the font, on two glyphs or twice on one.
pub open spec fn codepoints_distinct(gs: Seq<(Seq<char>, Seq<u32>)>) -> bool {
    forall|i: int, j: int, k: int, l: int|
        0 <= i < gs.len() && 0 <= j < gs.len() && 0 <= k < gs[i].1.len() && 0 <= l < gs[j].1.len()
            && (i != j || k != l) ==> #[trigger] gs[i].1[k] != #[trigger] gs[j].1[l]
}

/// A font whose names and codepoints identify its glyphs.
pub open spec fn unambiguous(gs: Seq<(Seq<char>, Seq<u32>)>) -> bool {
    names_distinct(gs) && codepoints_distinct(gs)
}

// ---------------------------------------------------------------------------
// Proofs
// ---------------------------------------------------------------------------

pub(crate) proof fn lemma_filter_no_duplicates(s: Seq<u32>, pred: spec_fn(u32) -> bool)
    requires
        s.no_duplicates(),
    ensures
        s.filter(pred).no_duplicates(),
        forall|x: u32| s.filter(pred).contains(x) <==> s.contains(x) && pred(x),
    decreases s.len(),
{
    broadcast use vstd::seq_lib::group_filter_ensures;

    reveal_with_fuel(Seq::filter, 1);
    if s.len() > 0 {
        let init = s.drop_last();
        assert(init.no_duplicates()) by {
            assert forall|i: int, j: int| 0 <= i < init.len() && 0 <= j < init.len() && i != j
                implies init[i] != init[j] by {
                assert(init[i] == s[i] && init[j] == s[j]);
            }
        }
        lemma_filter_no_duplicates(init, pred);
        let f = init.filter(pred);
        assert(!init.contains(s.last())) by {
            if init.contains(s.last()) {
                let k = choose|k: int| 0 <= k < init.len() && init[k] == s.last();
                assert(s[k] == s[s.len() - 1]);
            }
        }
        if pred(s.last()) {
            let g = f.push(s.last());
            assert forall|i: int, j: int| 0 <= i < g.len() && 0 <= j < g.len() && i != j
                implies g[i] != g[j] by {
                if i == f.len() {
                    assert(f.contains(g[j]));
                } else if j == f.len() {
                    assert(f.contains(g[i]));
                } else {
                    assert(g[i] == f[i] && g[j] == f[j]);
                }
            }
        }
        assert forall|x: u32| s.filter(pred).contains(x) <==> s.contains(x) && pred(x) by {
            assert(s == init.push(s.last()));
            if s.contains(x) {
                let k = choose|k: int| 0 <= k < s.len() && s[k] == x;
                if k < init.len() {
                    assert(init[k] == x);
                }
            }
            if init.contains(x) {
                let k = choose|k: int| 0 <= k < init.len() && init[k] == x;
                assert(s[k] == x);
            }
            if s.filter(pred).contains(x) && !f.contains(x) {
                let k = choose|k: int| 0 <= k < s.filter(pred).len() && s.filter(pred)[k] == x;
                assert(k == f.len());
            }
            if f.contains(x) {
                let k = choose|k: int| 0 <= k < f.len() && f[k] == x;
                assert(s.filter(pred)[k] == x);
            }
        }
    }
}

/// Taking one more element of a sequence adds exactly that element to what it
/// holds.
pub(crate) proof fn lemma_take_one_more(s: Seq<u32>, k: int)
    requires
        0 <= k < s.len(),
    ensures
        forall|x: u32| #[trigger] s.take(k + 1).contains(x) <==> (s.take(k).contains(x) || x == s[k]),
{
    let t = s.take(k + 1);
    assert forall|x: u32| #[trigger] t.contains(x) <==> (s.take(k).contains(x) || x == s[k]) by {
        if t.contains(x) && x != s[k] {
            let m = choose|m: int| 0 <= m < t.len() && t[m] == x;
            assert(s.take(k)[m] == x);
        }
        if s.take(k).contains(x) {
            let m = choose|m: int| 0 <= m < k && s.take(k)[m] == x;
            assert(t[m] == x);
        }
        if x == s[k] {
            assert(t[k] == x);
        }
    }
}

/// Merging keeps the glyphs of the base font first and in place.
proof fn lemma_merged_prefix(base: Seq<(Seq<char>, Seq<u32>)>, other: Seq<(Seq<char>, Seq<u32>)>)
    ensures
        merged(base, other).len() >= base.len(),
        forall|i: int| 0 <= i < base.len() ==> #[trigger] merged(base, other)[i] == base[i],
    decreases other.len(),
{
    if other.len() > 0 {
        lemma_merged_prefix(base, other.drop_last());
    }
}

/// Merging keeps a font unambiguous, given that no glyph of the other font
/// lists a codepoint twice.
proof fn lemma_merged_unambiguous(base: Seq<(Seq<char>, Seq<u32>)>, other: Seq<(Seq<char>, Seq<u32>)>)
    requires
        unambiguous(base),
        forall|i: int| 0 <= i < other.len() ==> (#[trigger] other[i]).1.no_duplicates(),
    ensures
        unambiguous(merged(base, other)),
    decreases other.len(),
{
    if other.len() > 0 {
        let init = other.drop_last();
        assert forall|i: int| 0 <= i < init.len() implies (#[trigger] init[i]).1.no_duplicates() by {
            assert(init[i] == other[i]);
        }
        lemma_merged_unambiguous(base, init);
        let m = merged(base, init);
        let g = other.last();
        assert(other[other.len() - 1] == g);
        if !has_name(m, g.0) {
            let pred = |c: u32| !has_codepoint(m, c);
            let kept = g.1.filter(pred);
            lemma_filter_no_duplicates(g.1, pred);
            let n = m.push((g.0, kept));
            assert(merged(base, other) == n);
            assert forall|i: int, j: int| 0 <= i < n.len() && 0 <= j < n.len() && i != j
                implies n[i].0 != n[j].0 by {
                if i == m.len() {
                    assert(m[j] == n[j]);
                } else if j == m.len() {
                    assert(m[i] == n[i]);
                } else {
                    assert(m[i] == n[i] && m[j] == n[j]);
                }
            }
            assert forall|i: int, j: int, k: int, l: int|
                0 <= i < n.len() && 0 <= j < n.len() && 0 <= k < n[i].1.len() && 0 <= l < n[j].1.len()
                    && (i != j || k != l) implies #[trigger] n[i].1[k] != #[trigger] n[j].1[l] by {
                if i == m.len() && j == m.len() {
                } else if i == m.len() {
                    assert(n[j] == m[j]);
                    assert(m[j].1.contains(n[j].1[l]));
                    assert(has_codepoint(m, n[j].1[l]));
                    assert(kept.contains(kept[k]));
                } else if j == m.len() {
                    assert(n[i] == m[i]);
                    assert(m[i].1.contains(n[i].1[k]));
                    assert(has_codepoint(m, n[i].1[k]));
                    assert(kept.contains(kept[l]));
                } else {
                    assert(n[i] == m[i] && n[j] == m[j]);
                }
            }
        }
    }
}

/// Applying the plan that `merge_step` gives, glyph by glyph, is merging.
proof fn lemma_plan_applies(
    base: Seq<(Seq<char>, Seq<u32>)>,
    other: Seq<(Seq<char>, Seq<u32>)>,
    plan: Seq<Option<Seq<u32>>>,
)
    requires
        plan.len() == other.len(),
        forall|i: int| 0 <= i < other.len() ==> #[trigger] plan[i] == merge_step(merged(base, other.take(i)), other[i]),
    ensures
        apply_plan(base, other, plan) == merged(base, other),
    decreases other.len(),
{
    if other.len() > 0 {
        let init = other.drop_last();
        let pinit = plan.drop_last();
        assert forall|i: int| 0 <= i < init.len() implies #[trigger] pinit[i] == merge_step(merged(base, init.take(i)), init[i]) by {
            assert(init.take(i) =~= other.take(i));
            assert(pinit[i] == plan[i]);
        }
        lemma_plan_applies(base, init, pinit);
        let k = other.len() - 1;
        assert(other.take(k) =~= init);
        assert(plan[k] == plan.last());
    }
}

// ---------------------------------------------------------------------------
// Laws
// ---------------------------------------------------------------------------

/// Combining scripts keeps a font unambiguous: if no two glyphs of the font
/// share a name and no codepoint occurs twice in it, the same holds after
/// merging in the glyphs of another font (none of which lists a codepoint
/// twice). The glyphs already there stay first and unchanged.
pub proof fn law_merge_stays_unambiguous(base: Seq<(Seq<char>, Seq<u32>)>, other: Seq<(Seq<char>, Seq<u32>)>)
    requires
        unambiguous(base),
        forall|i: int| 0 <= i < other.len() ==> (#[trigger] other[i]).1.no_duplicates(),
    ensures
        unambiguous(merged(base, other)),
        merged(base, other).take(base.len() as int) == base,
{
    lemma_merged_unambiguous(base, other);
    lemma_merged_prefix(base, other);
    assert(merged(base, other).take(base.len() as int) =~= base);
}

/// A glyph of the other font whose name is still free is kept, even when all
/// of its codepoints are taken: it loses exactly the codepoints that a glyph
/// already in the font is mapped from.
pub proof fn law_merge_keeps_free_names(
    base: Seq<(Seq<char>, Seq<u32>)>,
    other: Seq<(Seq<char>, Seq<u32>)>,
    i: int,
)
    requires
        0 <= i < other.len(),
        !has_name(merged(base, other.take(i)), other[i].0),
    ensures
        merged(base, other.take(i + 1)) == merged(base, other.take(i)).push(
            (other[i].0, free_codepoints(other[i].1, merged(base, other.take(i)))),
        ),
        forall|c: u32| #[trigger] free_codepoints(other[i].1, merged(base, other.take(i))).contains(c)
            <==> other[i].1.contains(c) && !has_codepoint(merged(base, other.take(i)), c),
{
    broadcast use vstd::seq_lib::group_filter_ensures;

    let t = other.take(i + 1);
    assert(t.drop_last() =~= other.take(i));
    assert(t.last() == other[i]);
    let m = merged(base, other.take(i));
    let pred = |c: u32| !has_codepoint(m, c);
    assert forall|c: u32| #[trigger] free_codepoints(other[i].1, m).contains(c)
        <==> other[i].1.contains(c) && !has_codepoint(m, c) by {
        if other[i].1.contains(c) && pred(c) {
            let k = choose|k: int| 0 <= k < other[i].1.len() && other[i].1[k] == c;
            assert(other[i].1.filter(pred).contains(other[i].1[k]));
        }
        if free_codepoints(other[i].1, m).contains(c) {
            let k = choose|k: int| 0 <= k < other[i].1.filter(pred).len() && other[i].1.filter(pred)[k] == c;
            assert(pred(other[i].1.filter(pred)[k]));
            other[i].1.lemma_filter_contains_rev(pred, c);
        }
    }
}

/// After a merge, every name of the other font is in the font.
proof fn lemma_merged_has_names(base: Seq<(Seq<char>, Seq<u32>)>, other: Seq<(Seq<char>, Seq<u32>)>)
    ensures
        forall|i: int| 0 <= i < other.len() ==> has_name(merged(base, other), #[trigger] other[i].0),
        forall|n: Seq<char>| has_name(base, n) ==> has_name(merged(base, other), n),
    decreases other.len(),
{
    if other.len() > 0 {
        let init = other.drop_last();
        lemma_merged_has_names(base, init);
        let m = merged(base, init);
        let g = other.last();
        let n = merged(base, other);
        // Every name of `m` is still in `n`.
        assert forall|x: Seq<char>| has_name(m, x) implies has_name(n, x) by {
            let j = choose|j: int| 0 <= j < m.len() && #[trigger] m[j].0 == x;
            if !has_name(m, g.0) {
                assert(n[j] == m[j]);
            }
        }
        assert(has_name(n, g.0)) by {
            if !has_name(m, g.0) {
                assert(n[m.len() as int].0 == g.0);
            }
        }
        assert forall|i: int| 0 <= i < other.len() implies has_name(n, #[trigger] other[i].0) by {
            if i < init.len() {
                assert(init[i] == other[i]);
                assert(has_name(m, init[i].0));
            } else {
                assert(other[i] == g);
            }
        }
    }
}

/// Merging into a font that already has every name of the other font changes
/// nothing.
proof fn lemma_merge_names_taken(m: Seq<(Seq<char>, Seq<u32>)>, other: Seq<(Seq<char>, Seq<u32>)>)
    requires
        forall|i: int| 0 <= i < other.len() ==> has_name(m, #[trigger] other[i].0),
    ensures
        merged(m, other) == m,
    decreases other.len(),
{
    if other.len() > 0 {
        let init = other.drop_last();
        assert forall|i: int| 0 <= i < init.len() implies has_name(m, #[trigger] init[i].0) by {
            assert(init[i] == other[i]);
        }
        lemma_merge_names_taken(m, init);
        assert(has_name(m, other[other.len() - 1].0));
    }
}

/// Merging the same font a second time adds nothing: every one of its names
/// is taken after the first merge.
pub proof fn law_merge_twice_adds_nothing(base: Seq<(Seq<char>, Seq<u32>)>, other: Seq<(Seq<char>, Seq<u32>)>)
    ensures
        merged(merged(base, other), other) == merged(base, other),
        forall|i: int| 0 <= i < other.len() ==> #[trigger] merge_step(merged(base, other), other[i]) is None,
{
    lemma_merged_has_names(base, other);
    lemma_merge_names_taken(merged(base, other), other);
}

// ---------------------------------------------------------------------------
// Executable functions
// ---------------------------------------------------------------------------

fn name_in(names: &Vec<String>, n: &String) -> (r: bool)
    ensures
        r == exists|i: int| 0 <= i < names@.len() && #[trigger] names@[i]@ == n@,
{
    let mut i: usize = 0;
    while i < names.len()
        invariant
            i <= names.len(),
            forall|j: int| 0 <= j < i ==> #[trigger] names@[j]@ != n@,
        decreases names.len() - i,
    {
        if names[i] == *n {
            assert(names@[i as int]@ == n@);
            return true;
        }
        i = i + 1;
    }
    false
}

/// Plans the merge of the glyphs of `other` into `base`: for each glyph of
/// `other`, in order, `None` where a glyph of that name is already in the font
/// (those of `base` and those added before it), and otherwise the codepoints
/// it keeps: those that no glyph in the font is mapped from yet.
pub fn merge_plan(base: &Vec<GlyphEntry>, other: &Vec<GlyphEntry>) -> (plan: Vec<Option<Vec<u32>>>)
    ensures
        plan.len() == other.len(),
        forall|i: int| 0 <= i < other.len() ==> #[trigger] plan_view(plan@)[i] == merge_step(
            merged(glyph_views(base@), glyph_views(other@).take(i)),
            glyph_views(other@)[i],
        ),
        apply_plan(glyph_views(base@), glyph_views(other@), plan_view(plan@)) == merged(glyph_views(base@), glyph_views(other@)),
{
    let ghost b = glyph_views(base@);
    let ghost o = glyph_views(other@);
    let mut names: Vec<String> = Vec::new();
    let mut taken: HashSet<u32> = HashSet::new();
    // The names and codepoints of the base font.
    let mut i: usize = 0;
    while i < base.len()
        invariant
            i <= base.len(),
            b == glyph_views(base@),
            names.len() == i,
            forall|j: int| 0 <= j < i ==> #[trigger] names@[j]@ == b[j].0,
            forall|c: u32| taken@.contains(c) <==> has_codepoint(b.take(i as int), c),
        decreases base.len() - i,
    {
        let g = &base[i];
        names.push(g.name.clone());
        let mut k: usize = 0;
        while k < g.codepoints.len()
            invariant
                k <= g.codepoints.len(),
                i < base.len(),
                g == base@[i as int],
                b == glyph_views(base@),
                forall|c: u32| taken@.contains(c) <==> (has_codepoint(b.take(i as int), c)
                    || g.codepoints@.take(k as int).contains(c)),
            decreases g.codepoints.len() - k,
        {
            let c = g.codepoints[k];
            taken.insert(c);
            proof {
                lemma_take_one_more(g.codepoints@, k as int);
            }
            k = k + 1;
        }
        proof {
            assert(g.codepoints@.take(k as int) =~= g.codepoints@);
            let p = b.take(i as int + 1);
            assert(p[i as int] == b[i as int]);
            assert(b[i as int] == g@);
            assert forall|c: u32| taken@.contains(c) <==> has_codepoint(p, c) by {
                if has_codepoint(b.take(i as int), c) {
                    let m = choose|m: int| 0 <= m < i && #[trigger] b.take(i as int)[m].1.contains(c);
                    assert(p[m] == b.take(i as int)[m]);
                }
                if g.codepoints@.contains(c) {
                    assert(p[i as int].1.contains(c));
                }
                if has_codepoint(p, c) {
                    let m = choose|m: int| 0 <= m < p.len() && #[trigger] p[m].1.contains(c);
                    if m < i {
                        assert(b.take(i as int)[m] == p[m]);
                    }
                }
            }
        }
        i = i + 1;
    }
    assert(b.take(base.len() as int) =~= b);
    // The glyphs of the other font, one at a time.
    let mut plan: Vec<Option<Vec<u32>>> = Vec::new();
    let mut r: usize = 0;
    while r < other.len()
        invariant
            r <= other.len(),
            b == glyph_views(base@),
            o == glyph_views(other@),
            names.len() == merged(b, o.take(r as int)).len(),
            forall|j: int| 0 <= j < names.len() ==> #[trigger] names@[j]@ == merged(b, o.take(r as int))[j].0,
            forall|c: u32| taken@.contains(c) <==> has_codepoint(merged(b, o.take(r as int)), c),
            plan.len() == r,
            forall|q: int| 0 <= q < r ==> #[trigger] plan_view(plan@)[q] == merge_step(merged(b, o.take(q)), o[q]),
        decreases other.len() - r,
    {
        let g = &other[r];
        let ghost m = merged(b, o.take(r as int));
        let ghost t = o.take(r as int + 1);
        proof {
            assert(t.drop_last() =~= o.take(r as int));
            assert(t.last() == o[r as int]);
            assert(o[r as int] == g@);
        }
        let seen = name_in(&names, &g.name);
        proof {
            if seen {
                let j = choose|j: int| 0 <= j < names@.len() && #[trigger] names@[j]@ == g.name@;
                assert(m[j].0 == g.name@);
            }
            if has_name(m, g.name@) {
                let j = choose|j: int| 0 <= j < m.len() && #[trigger] m[j].0 == g.name@;
                assert(names@[j]@ == g.name@);
            }
        }
        if seen {
            let ghost old_plan = plan@;
            plan.push(None);
            proof {
                assert forall|q: int| 0 <= q < r + 1 implies #[trigger] plan_view(plan@)[q] == merge_step(merged(b, o.take(q)), o[q]) by {
                    if q < r {
                        assert(plan@[q] == old_plan[q]);
                        assert(plan_view(plan@)[q] == plan_view(old_plan)[q]);
                    } else {
                        assert(o.take(q) =~= o.take(r as int));
                    }
                }
            }
        } else {
            let ghost pred = |c: u32| !has_codepoint(m, c);
            let mut kept: Vec<u32> = Vec::new();
            let mut k: usize = 0;
            while k < g.codepoints.len()
                invariant
                    k <= g.codepoints.len(),
                    pred == (|c: u32| !has_codepoint(m, c)),
                    forall|c: u32| taken@.contains(c) <==> has_codepoint(m, c),
                    kept@ == g.codepoints@.take(k as int).filter(pred),
                decreases g.codepoints.len() - k,
            {
                let c = g.codepoints[k];
                proof {
                    let s = g.codepoints@.take(k as int + 1);
                    assert(s.drop_last() =~= g.codepoints@.take(k as int));
                    assert(s.last() == c);
                    reveal_with_fuel(Seq::filter, 1);
                }
                if !taken.contains(&c) {
                    kept.push(c);
                }
                k = k + 1;
            }
            assert(g.codepoints@.take(k as int) =~= g.codepoints@);
            assert(free_codepoints(g.codepoints@, m) == g.codepoints@.filter(pred));
            let ghost kept_view = kept@;
            let ghost n = m.push((g.name@, kept_view));
            proof {
                assert(merged(b, t) == n);
            }
            // Record the glyph's name and codepoints as taken.
            names.push(g.name.clone());
            let mut k2: usize = 0;
            while k2 < kept.len()
                invariant
                    k2 <= kept.len(),
                    kept@ == kept_view,
                    forall|c: u32| taken@.contains(c) <==> (has_codepoint(m, c) || kept_view.take(k2 as int).contains(c)),
                decreases kept.len() - k2,
            {
                let c = kept[k2];
                assert(kept_view[k2 as int] == c);
                let ghost before = taken@;
                taken.insert(c);
                proof {
                    let s = kept_view.take(k2 as int + 1);
                    lemma_take_one_more(kept_view, k2 as int);
                    assert(taken@ == before.insert(c));
                    assert forall|x: u32| taken@.contains(x) <==> (has_codepoint(m, x) || s.contains(x)) by {
                        assert(taken@.contains(x) == (before.contains(x) || x == c));
                    }
                }
                k2 = k2 + 1;
            }
            proof {
                assert(kept_view.take(k2 as int) =~= kept_view);
                assert forall|c: u32| taken@.contains(c) <==> has_codepoint(n, c) by {
                    if has_codepoint(m, c) {
                        let j = choose|j: int| 0 <= j < m.len() && #[trigger] m[j].1.contains(c);
                        assert(n[j] == m[j]);
                    }
                    if kept_view.contains(c) {
                        assert(n[m.len() as int].1.contains(c));
                    }
                    if has_codepoint(n, c) {
                        let j = choose|j: int| 0 <= j < n.len() && #[trigger] n[j].1.contains(c);
                        if j < m.len() {
                            assert(m[j] == n[j]);
                        }
                    }
                }
                assert forall|j: int| 0 <= j < names.len() implies #[trigger] names@[j]@ == n[j].0 by {
                    if j < m.len() {
                        assert(n[j] == m[j]);
                    }
                }
            }
            let ghost old_plan = plan@;
            plan.push(Some(kept));
            proof {
                assert forall|q: int| 0 <= q < r + 1 implies #[trigger] plan_view(plan@)[q] == merge_step(merged(b, o.take(q)), o[q]) by {
                    if q < r {
                        assert(plan@[q] == old_plan[q]);
                        assert(plan_view(plan@)[q] == plan_view(old_plan)[q]);
                    } else {
                        assert(o.take(q) =~= o.take(r as int));
                    }
                }
            }
        }
        r = r + 1;
    }
    proof {
        assert(o.take(r as int) =~= o);
        lemma_plan_applies(b, o, plan_view(plan@));
    }
    plan
}

/// Whether `hay` holds `needle` as a run of consecutive elements.
pub open spec fn contains_run(hay: Seq<u8>, needle: Seq<u8>) -> bool {
    exists|i: int| 0 <= i && i + needle.len() <= hay.len() && #[trigger] hay.subrange(i, i + needle.len()) == needle
}

/// Whether a feature-code prefix is kept when merging: a prefix whose code
/// mentions `languagesystem` is not, since the font already declares its own.
pub fn keeps_prefix(code: &str) -> (r: bool)
    ensures
        r == !contains_run(code.spec_bytes(), "languagesystem".spec_bytes()),
{
    let hay = code.as_bytes();
    let needle = "languagesystem".as_bytes();
    if needle.len() > hay.len() {
        return true;
    }
    let mut i: usize = 0;
    while i <= hay.len() - needle.len()
        invariant
            hay@ == code.spec_bytes(),
            needle@ == "languagesystem".spec_bytes(),
            needle.len() <= hay.len(),
            i <= hay.len() - needle.len() + 1,
            forall|p: int| 0 <= p < i ==> #[trigger] hay@.subrange(p, p + needle.len()) != needle@,
        decreases hay.len() - i,
    {
        let mut j: usize = 0;
        let mut same = true;
        while j < needle.len()
            invariant
                j <= needle.len(),
                i + needle.len() <= hay.len(),
                same == (forall|q: int| 0 <= q < j ==> hay@[i + q] == needle@[q]),
            decreases needle.len() - j,
        {
            if hay[i + j] != needle[j] {
                same = false;
            }
            j = j + 1;
        }
        if same {
            assert(hay@.subrange(i as int, i + needle.len()) =~= needle@);
            return false;
        }
        assert(hay@.subrange(i as int, i + needle.len()) != needle@) by {
            let q = choose|q: int| 0 <= q < needle.len() && hay@[i + q] != needle@[q];
            assert(hay@.subrange(i as int, i + needle.len())[q] == hay@[i + q]);
        }
        i = i + 1;
    }
    true
}

/// Whether `needle` stands in `hay` from position `i` on, element by element.
pub open spec fn run_at(hay: Seq<u8>, needle: Seq<u8>, i: int) -> bool {
    0 <= i && i + needle.len() <= hay.len() && forall|q: int| #![trigger needle[q]] 0 <= q < needle.len() ==> hay[i + q] == needle[q]
}

/// A run is found wherever it stands, not only at the start: `hay` holds
/// `needle` exactly when `needle` stands in it from some position.
pub proof fn law_run_found_anywhere(hay: Seq<u8>, needle: Seq<u8>)
    ensures
        forall|i: int| #[trigger] run_at(hay, needle, i) ==> contains_run(hay, needle),
        contains_run(hay, needle) ==> exists|i: int| #[trigger] run_at(hay, needle, i),
{
    assert forall|i: int| #[trigger] run_at(hay, needle, i) implies contains_run(hay, needle) by {
        assert(hay.subrange(i, i + needle.len()) =~= needle);
    }
    if contains_run(hay, needle) {
        let i = choose|i: int| 0 <= i && i + needle.len() <= hay.len() && #[trigger] hay.subrange(i, i + needle.len()) == needle;
        assert forall|q: int| 0 <= q < needle.len() implies hay[i + q] == #[trigger] needle[q] by {
            assert(hay.subrange(i, i + needle.len())[q] == hay[i + q]);
        }
        assert(run_at(hay, needle, i));
    }
}

/// A feature-code prefix is dropped (`keeps_prefix` gives `false`, which is
/// `!contains_run`) whenever `languagesystem` occurs anywhere in its code, at
/// its start or after other statements, and kept when it occurs nowhere.
pub proof fn law_languagesystem_anywhere_drops_the_prefix(code: &str)
    ensures
        forall|i: int| #[trigger] run_at(code.spec_bytes(), "languagesystem".spec_bytes(), i)
            ==> contains_run(code.spec_bytes(), "languagesystem".spec_bytes()),
        (forall|i: int| !#[trigger] run_at(code.spec_bytes(), "languagesystem".spec_bytes(), i))
            ==> !contains_run(code.spec_bytes(), "languagesystem".spec_bytes()),
{
    law_run_found_anywhere(code.spec_bytes(), "languagesystem".spec_bytes());
}

} // verus!
