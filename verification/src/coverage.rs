use vstd::prelude::*;
use std::collections::{HashMap, HashSet};
use crate::merge::{GlyphEntry, glyph_views, lemma_filter_no_duplicates, lemma_take_one_more};
use google_fonts_glyphsets::{
    GF_ARABIC_CORE, GF_CYRILLIC_CORE, GF_GREEK_CORE, GF_LATIN_AFRICAN, GF_LATIN_CORE,
    GF_LATIN_KERNEL, GF_LATIN_PLUS, GF_LATIN_VIETNAMESE,
};

verus! {

broadcast use vstd::std_specs::hash::group_hash_axioms;

/// The coverage level of Latin characters in a fake font.
#[derive(PartialEq, Eq, Structural, Clone, Copy, Debug)]
pub enum LatinCoverage {
    /// Full Latin coverage, including core, kernel, African, Vietnamese, and additional Latin characters.
    Full,
    /// Google Fonts' expected core Latin coverage, including only the essential Latin characters and diacritic combinations.
    Core,
    /// Kernel Latin coverage, including the minimal set of Latin characters.
    Kernel,
}

/// The Google Fonts glyph sets that a fake font draws its codepoints from.
#[derive(PartialEq, Eq, Structural, Clone, Copy, Debug)]
pub enum Glyphset {
    LatinCore,
    LatinKernel,
    LatinAfrican,
    LatinVietnamese,
    LatinPlus,
    GreekCore,
    CyrillicCore,
    ArabicCore,
}

/// The codepoints of a Google Fonts glyph set.
pub uninterp spec fn glyphset_codepoints(set: Glyphset) -> Set<u32>;

/// Calls `Glyphset::iter_codepoints` of google_fonts_glyphsets on the glyph
/// set's static. Claimed: the codepoints come out once each (they are drained
/// from a `HashSet`), and what comes out is the glyph set's codepoint set,
/// which depends on the glyph set alone. Their order is the hash set's and is
/// left unsaid.
#[verifier::external_body]
fn codepoints_of(set: Glyphset) -> (r: Vec<u32>)
    ensures
        r@.no_duplicates(),
        r@.to_set() == glyphset_codepoints(set),
{
    match set {
        Glyphset::LatinCore => GF_LATIN_CORE.iter_codepoints().collect(),
        Glyphset::LatinKernel => GF_LATIN_KERNEL.iter_codepoints().collect(),
        Glyphset::LatinAfrican => GF_LATIN_AFRICAN.iter_codepoints().collect(),
        Glyphset::LatinVietnamese => GF_LATIN_VIETNAMESE.iter_codepoints().collect(),
        Glyphset::LatinPlus => GF_LATIN_PLUS.iter_codepoints().collect(),
        Glyphset::GreekCore => GF_GREEK_CORE.iter_codepoints().collect(),
        Glyphset::CyrillicCore => GF_CYRILLIC_CORE.iter_codepoints().collect(),
        Glyphset::ArabicCore => GF_ARABIC_CORE.iter_codepoints().collect(),
    }
}

/// The glyph sets a font of this coverage draws from, Greek and Cyrillic
/// included on request.
pub open spec fn coverage_glyphsets(coverage: LatinCoverage, greek: bool, cyrillic: bool) -> Seq<Glyphset> {
    let latin = match coverage {
        LatinCoverage::Core => seq![Glyphset::LatinCore],
        LatinCoverage::Kernel => seq![Glyphset::LatinKernel],
        LatinCoverage::Full => seq![
            Glyphset::LatinCore,
            Glyphset::LatinKernel,
            Glyphset::LatinAfrican,
            Glyphset::LatinVietnamese,
            Glyphset::LatinPlus,
        ],
    };
    let with_greek = if greek { latin.push(Glyphset::GreekCore) } else { latin };
    if cyrillic { with_greek.push(Glyphset::CyrillicCore) } else { with_greek }
}

/// The codepoints a font of this coverage wants: those of any of its glyph sets.
pub open spec fn wanted_set(coverage: LatinCoverage, greek: bool, cyrillic: bool) -> Set<u32> {
    Set::new(|c: u32| exists|i: int| 0 <= i < coverage_glyphsets(coverage, greek, cyrillic).len()
        && #[trigger] glyphset_codepoints(coverage_glyphsets(coverage, greek, cyrillic)[i]).contains(c))
}

/// The glyph sets a font of this coverage draws from.
pub fn glyphsets_for(coverage: LatinCoverage, greek: bool, cyrillic: bool) -> (r: Vec<Glyphset>)
    ensures
        r@ == coverage_glyphsets(coverage, greek, cyrillic),
{
    let mut sets: Vec<Glyphset> = Vec::new();
    match coverage {
        LatinCoverage::Core => {
            sets.push(Glyphset::LatinCore);
        },
        LatinCoverage::Kernel => {
            sets.push(Glyphset::LatinKernel);
        },
        LatinCoverage::Full => {
            sets.push(Glyphset::LatinCore);
            sets.push(Glyphset::LatinKernel);
            sets.push(Glyphset::LatinAfrican);
            sets.push(Glyphset::LatinVietnamese);
            sets.push(Glyphset::LatinPlus);
        },
    }
    if greek {
        sets.push(Glyphset::GreekCore);
    }
    if cyrillic {
        sets.push(Glyphset::CyrillicCore);
    }
    assert(sets@ =~= coverage_glyphsets(coverage, greek, cyrillic));
    sets
}

/// The union of lists of codepoints: every codepoint of any list, once.
pub fn union_codepoints(lists: &Vec<Vec<u32>>) -> (r: Vec<u32>)
    ensures
        r@.no_duplicates(),
        forall|c: u32| #[trigger] r@.contains(c) <==> exists|i: int| 0 <= i < lists.len() && #[trigger] lists@[i]@.contains(c),
{
    let mut seen: HashSet<u32> = HashSet::new();
    let mut out: Vec<u32> = Vec::new();
    let mut i: usize = 0;
    while i < lists.len()
        invariant
            i <= lists.len(),
            out@.no_duplicates(),
            forall|c: u32| seen@.contains(c) <==> out@.contains(c),
            forall|c: u32| #[trigger] out@.contains(c) <==> exists|j: int| 0 <= j < i && #[trigger] lists@[j]@.contains(c),
        decreases lists.len() - i,
    {
        let list = &lists[i];
        let mut k: usize = 0;
        while k < list.len()
            invariant
                k <= list.len(),
                i < lists.len(),
                list == lists@[i as int],
                out@.no_duplicates(),
                forall|c: u32| seen@.contains(c) <==> out@.contains(c),
                forall|c: u32| #[trigger] out@.contains(c) <==> ((exists|j: int| 0 <= j < i && #[trigger] lists@[j]@.contains(c))
                    || list@.take(k as int).contains(c)),
            decreases list.len() - k,
        {
            let c = list[k];
            let ghost before = out@;
            let ghost t = list@.take(k as int + 1);
            proof {
                lemma_take_one_more(list@, k as int);
            }
            if !seen.contains(&c) {
                seen.insert(c);
                out.push(c);
                proof {
                    assert forall|a: int, b: int| 0 <= a < out@.len() && 0 <= b < out@.len() && a != b
                        implies out@[a] != out@[b] by {
                        if a == before.len() {
                            assert(before.contains(out@[b]) || b == a);
                        } else if b == before.len() {
                            assert(before.contains(out@[a]));
                        } else {
                            assert(out@[a] == before[a] && out@[b] == before[b]);
                        }
                    }
                    assert forall|x: u32| out@.contains(x) <==> (before.contains(x) || x == c) by {
                        if out@.contains(x) && x != c {
                            let m = choose|m: int| 0 <= m < out@.len() && out@[m] == x;
                            assert(before[m] == x);
                        }
                        if before.contains(x) {
                            let m = choose|m: int| 0 <= m < before.len() && before[m] == x;
                            assert(out@[m] == x);
                        }
                        if x == c {
                            assert(out@[before.len() as int] == x);
                        }
                    }
                }
            }
            proof {
                assert(out@.contains(c));
                assert forall|x: u32| #[trigger] out@.contains(x) <==> ((exists|j: int| 0 <= j < i && #[trigger] lists@[j]@.contains(x))
                    || t.contains(x)) by {
                    if x != c {
                        assert(out@.contains(x) == before.contains(x));
                    }
                }
            }
            k = k + 1;
        }
        proof {
            assert(list@.take(k as int) =~= list@);
            assert forall|c: u32| #[trigger] out@.contains(c) <==> exists|j: int| 0 <= j < i + 1 && #[trigger] lists@[j]@.contains(c) by {
                if list@.contains(c) {
                    assert(lists@[i as int]@.contains(c));
                }
                if exists|j: int| 0 <= j < i + 1 && #[trigger] lists@[j]@.contains(c) {
                    let j = choose|j: int| 0 <= j < i + 1 && #[trigger] lists@[j]@.contains(c);
                    if j == i {
                        assert(list@.contains(c));
                    }
                }
            }
        }
        i = i + 1;
    }
    out
}

/// The codepoints a font of this coverage wants, once each.
pub fn wanted_codepoints(coverage: LatinCoverage, greek: bool, cyrillic: bool) -> (r: Vec<u32>)
    ensures
        r@.no_duplicates(),
        r@.to_set() == wanted_set(coverage, greek, cyrillic),
{
    let sets = glyphsets_for(coverage, greek, cyrillic);
    let mut lists: Vec<Vec<u32>> = Vec::new();
    let mut i: usize = 0;
    while i < sets.len()
        invariant
            i <= sets.len(),
            sets@ == coverage_glyphsets(coverage, greek, cyrillic),
            lists.len() == i,
            forall|j: int| 0 <= j < i ==> (#[trigger] lists@[j])@.to_set() == glyphset_codepoints(sets@[j]),
        decreases sets.len() - i,
    {
        lists.push(codepoints_of(sets[i]));
        i = i + 1;
    }
    let r = union_codepoints(&lists);
    assert(r@.to_set() =~= wanted_set(coverage, greek, cyrillic)) by {
        assert forall|c: u32| r@.to_set().contains(c) <==> wanted_set(coverage, greek, cyrillic).contains(c) by {
            if r@.contains(c) {
                let j = choose|j: int| 0 <= j < lists.len() && #[trigger] lists@[j]@.contains(c);
                assert(lists@[j]@.to_set().contains(c));
            }
            if wanted_set(coverage, greek, cyrillic).contains(c) {
                let j = choose|j: int| 0 <= j < sets@.len() && #[trigger] glyphset_codepoints(sets@[j]).contains(c);
                assert(lists@[j]@.to_set().contains(c));
                assert(lists@[j]@.contains(c));
            }
        }
    }
    r
}

/// Full Latin coverage wants every codepoint that core or kernel coverage
/// wants, and adding Greek or Cyrillic only ever adds codepoints.
pub proof fn law_coverage_grows(coverage: LatinCoverage, greek: bool, cyrillic: bool)
    ensures
        wanted_set(LatinCoverage::Core, greek, cyrillic).subset_of(wanted_set(LatinCoverage::Full, greek, cyrillic)),
        wanted_set(LatinCoverage::Kernel, greek, cyrillic).subset_of(wanted_set(LatinCoverage::Full, greek, cyrillic)),
        wanted_set(coverage, false, cyrillic).subset_of(wanted_set(coverage, true, cyrillic)),
        wanted_set(coverage, greek, false).subset_of(wanted_set(coverage, greek, true)),
{
    let full = coverage_glyphsets(LatinCoverage::Full, greek, cyrillic);
    assert forall|c: u32| wanted_set(LatinCoverage::Core, greek, cyrillic).contains(c)
        implies wanted_set(LatinCoverage::Full, greek, cyrillic).contains(c) by {
        let s = coverage_glyphsets(LatinCoverage::Core, greek, cyrillic);
        let i = choose|i: int| 0 <= i < s.len() && #[trigger] glyphset_codepoints(s[i]).contains(c);
        let j = if i == 0 { 0 } else { i + 4 };
        assert(full[j] == s[i]);
    }
    assert forall|c: u32| wanted_set(LatinCoverage::Kernel, greek, cyrillic).contains(c)
        implies wanted_set(LatinCoverage::Full, greek, cyrillic).contains(c) by {
        let s = coverage_glyphsets(LatinCoverage::Kernel, greek, cyrillic);
        let i = choose|i: int| 0 <= i < s.len() && #[trigger] glyphset_codepoints(s[i]).contains(c);
        let j = if i == 0 { 1 } else { i + 4 };
        assert(full[j] == s[i]);
    }
    assert forall|c: u32| wanted_set(coverage, false, cyrillic).contains(c)
        implies wanted_set(coverage, true, cyrillic).contains(c) by {
        let s = coverage_glyphsets(coverage, false, cyrillic);
        let t = coverage_glyphsets(coverage, true, cyrillic);
        let i = choose|i: int| 0 <= i < s.len() && #[trigger] glyphset_codepoints(s[i]).contains(c);
        let latin_len: int = if coverage == LatinCoverage::Full { 5 } else { 1 };
        let j = if i < latin_len { i } else { i + 1 };
        assert(t[j] == s[i]);
    }
    assert forall|c: u32| wanted_set(coverage, greek, false).contains(c)
        implies wanted_set(coverage, greek, true).contains(c) by {
        let s = coverage_glyphsets(coverage, greek, false);
        let t = coverage_glyphsets(coverage, greek, true);
        let i = choose|i: int| 0 <= i < s.len() && #[trigger] glyphset_codepoints(s[i]).contains(c);
        assert(t[i] == s[i]);
    }
}

/// Whether a glyph set is one of the five Latin sets.
pub open spec fn is_latin_set(s: Glyphset) -> bool {
    s == Glyphset::LatinCore || s == Glyphset::LatinKernel || s == Glyphset::LatinAfrican
        || s == Glyphset::LatinVietnamese || s == Glyphset::LatinPlus
}

/// Each coverage draws from its Latin glyph sets whatever is asked of Greek
/// and Cyrillic: full coverage from all five Latin sets (core, kernel,
/// African, Vietnamese and Plus), core coverage from the core set alone and
/// kernel coverage from the kernel set alone. Greek and Cyrillic are drawn
/// from exactly when they are asked for. So a full font wants every codepoint
/// of every Latin set.
pub proof fn law_coverage_draws_from_its_sets(greek: bool, cyrillic: bool)
    ensures
        forall|s: Glyphset| #[trigger] coverage_glyphsets(LatinCoverage::Full, greek, cyrillic).contains(s)
            <==> (is_latin_set(s) || (s == Glyphset::GreekCore && greek) || (s == Glyphset::CyrillicCore && cyrillic)),
        forall|s: Glyphset| #[trigger] coverage_glyphsets(LatinCoverage::Core, greek, cyrillic).contains(s)
            <==> (s == Glyphset::LatinCore || (s == Glyphset::GreekCore && greek) || (s == Glyphset::CyrillicCore && cyrillic)),
        forall|s: Glyphset| #[trigger] coverage_glyphsets(LatinCoverage::Kernel, greek, cyrillic).contains(s)
            <==> (s == Glyphset::LatinKernel || (s == Glyphset::GreekCore && greek) || (s == Glyphset::CyrillicCore && cyrillic)),
        forall|s: Glyphset, c: u32| is_latin_set(s) && #[trigger] glyphset_codepoints(s).contains(c)
            ==> #[trigger] wanted_set(LatinCoverage::Full, greek, cyrillic).contains(c),
{
    let covs = seq![LatinCoverage::Full, LatinCoverage::Core, LatinCoverage::Kernel];
    assert forall|k: int, s: Glyphset| 0 <= k < 3 implies #[trigger] coverage_glyphsets(covs[k], greek, cyrillic).contains(s)
        <==> ((if covs[k] == LatinCoverage::Full { is_latin_set(s) } else if covs[k] == LatinCoverage::Core {
            s == Glyphset::LatinCore
        } else {
            s == Glyphset::LatinKernel
        }) || (s == Glyphset::GreekCore && greek) || (s == Glyphset::CyrillicCore && cyrillic)) by {
        let q = coverage_glyphsets(covs[k], greek, cyrillic);
        let n: int = if covs[k] == LatinCoverage::Full { 5 } else { 1 };
        if q.contains(s) {
            let i = choose|i: int| 0 <= i < q.len() && q[i] == s;
            if i >= n {
                if greek && i == n {
                    assert(s == Glyphset::GreekCore);
                } else {
                    assert(s == Glyphset::CyrillicCore);
                }
            }
        }
        let i: int = if covs[k] == LatinCoverage::Full {
            if s == Glyphset::LatinCore { 0 } else if s == Glyphset::LatinKernel { 1 } else if s == Glyphset::LatinAfrican {
                2
            } else if s == Glyphset::LatinVietnamese { 3 } else if s == Glyphset::LatinPlus { 4 } else if s == Glyphset::GreekCore {
                5
            } else if greek { 6 } else { 5 }
        } else {
            if s == Glyphset::GreekCore { 1 } else if s == Glyphset::CyrillicCore { if greek { 2 } else { 1 } } else { 0 }
        };
        if (if covs[k] == LatinCoverage::Full { is_latin_set(s) } else if covs[k] == LatinCoverage::Core {
            s == Glyphset::LatinCore
        } else {
            s == Glyphset::LatinKernel
        }) || (s == Glyphset::GreekCore && greek) || (s == Glyphset::CyrillicCore && cyrillic) {
            assert(q[i] == s);
        }
    }
    assert forall|s: Glyphset| #[trigger] coverage_glyphsets(LatinCoverage::Full, greek, cyrillic).contains(s)
        <==> (is_latin_set(s) || (s == Glyphset::GreekCore && greek) || (s == Glyphset::CyrillicCore && cyrillic)) by {
        assert(covs[0] == LatinCoverage::Full);
        assert(coverage_glyphsets(covs[0], greek, cyrillic).contains(s) == coverage_glyphsets(covs[0], greek, cyrillic).contains(s));
    }
    assert forall|s: Glyphset| #[trigger] coverage_glyphsets(LatinCoverage::Core, greek, cyrillic).contains(s)
        <==> (s == Glyphset::LatinCore || (s == Glyphset::GreekCore && greek) || (s == Glyphset::CyrillicCore && cyrillic)) by {
        assert(covs[1] == LatinCoverage::Core);
        assert(coverage_glyphsets(covs[1], greek, cyrillic).contains(s) == coverage_glyphsets(covs[1], greek, cyrillic).contains(s));
    }
    assert forall|s: Glyphset| #[trigger] coverage_glyphsets(LatinCoverage::Kernel, greek, cyrillic).contains(s)
        <==> (s == Glyphset::LatinKernel || (s == Glyphset::GreekCore && greek) || (s == Glyphset::CyrillicCore && cyrillic)) by {
        assert(covs[2] == LatinCoverage::Kernel);
        assert(coverage_glyphsets(covs[2], greek, cyrillic).contains(s) == coverage_glyphsets(covs[2], greek, cyrillic).contains(s));
    }
    assert forall|s: Glyphset, c: u32| is_latin_set(s) && #[trigger] glyphset_codepoints(s).contains(c)
        implies #[trigger] wanted_set(LatinCoverage::Full, greek, cyrillic).contains(c) by {
        let q = coverage_glyphsets(LatinCoverage::Full, greek, cyrillic);
        assert(q.contains(s));
        let i = choose|i: int| 0 <= i < q.len() && q[i] == s;
        assert(glyphset_codepoints(q[i]).contains(c));
    }
}

/// The index of the last glyph mapped from `c`, -1 if there is none.
pub open spec fn owner_index(gs: Seq<(Seq<char>, Seq<u32>)>, c: u32) -> int
    decreases gs.len(),
{
    if gs.len() == 0 {
        -1
    } else if gs.last().1.contains(c) {
        gs.len() - 1
    } else {
        owner_index(gs.drop_last(), c)
    }
}

/// The names of the glyphs that the wanted codepoints map to, one per wanted
/// codepoint that some glyph is mapped from: where several glyphs are mapped
/// from a codepoint, the last of them.
pub open spec fn retained_names(gs: Seq<(Seq<char>, Seq<u32>)>, wanted: Seq<u32>) -> Seq<Seq<char>>
    decreases wanted.len(),
{
    if wanted.len() == 0 {
        Seq::empty()
    } else {
        let r = retained_names(gs, wanted.drop_last());
        let i = owner_index(gs, wanted.last());
        if i >= 0 {
            r.push(gs[i].0)
        } else {
            r
        }
    }
}

proof fn lemma_owner_index_bounds(gs: Seq<(Seq<char>, Seq<u32>)>, c: u32)
    ensures
        -1 <= owner_index(gs, c) < gs.len(),
        owner_index(gs, c) >= 0 ==> gs[owner_index(gs, c)].1.contains(c),
        owner_index(gs, c) < 0 ==> forall|j: int| 0 <= j < gs.len() ==> !(#[trigger] gs[j].1.contains(c)),
    decreases gs.len(),
{
    if gs.len() > 0 {
        lemma_owner_index_bounds(gs.drop_last(), c);
        if !gs.last().1.contains(c) && owner_index(gs, c) < 0 {
            assert forall|j: int| 0 <= j < gs.len() implies !(#[trigger] gs[j].1.contains(c)) by {
                if j < gs.len() - 1 {
                    assert(gs.drop_last()[j] == gs[j]);
                }
            }
        }
    }
}

/// A name is retained exactly when some wanted codepoint's last glyph has it.
proof fn lemma_retained_contains(gs: Seq<(Seq<char>, Seq<u32>)>, wanted: Seq<u32>, n: Seq<char>)
    ensures
        retained_names(gs, wanted).contains(n) <==> exists|c: u32| wanted.contains(c)
            && owner_index(gs, c) >= 0 && #[trigger] gs[owner_index(gs, c)].0 == n,
    decreases wanted.len(),
{
    if wanted.len() > 0 {
        let init = wanted.drop_last();
        let c = wanted.last();
        lemma_retained_contains(gs, init, n);
        let r = retained_names(gs, init);
        let i = owner_index(gs, c);
        assert(wanted[wanted.len() - 1] == c);
        if retained_names(gs, wanted).contains(n) {
            if !r.contains(n) {
                let k = choose|k: int| 0 <= k < retained_names(gs, wanted).len() && retained_names(gs, wanted)[k] == n;
                if i >= 0 {
                    if k < r.len() {
                        assert(r[k] == n);
                    }
                    assert(gs[owner_index(gs, c)].0 == n);
                } else {
                    assert(r[k] == n);
                }
            } else {
                let d = choose|d: u32| init.contains(d) && owner_index(gs, d) >= 0 && #[trigger] gs[owner_index(gs, d)].0 == n;
                let k = choose|k: int| 0 <= k < init.len() && init[k] == d;
                assert(wanted[k] == d);
            }
        }
        if exists|d: u32| wanted.contains(d) && owner_index(gs, d) >= 0 && #[trigger] gs[owner_index(gs, d)].0 == n {
            let d = choose|d: u32| wanted.contains(d) && owner_index(gs, d) >= 0 && #[trigger] gs[owner_index(gs, d)].0 == n;
            let k = choose|k: int| 0 <= k < wanted.len() && wanted[k] == d;
            if k < init.len() {
                assert(init[k] == d);
                assert(r.contains(n));
                let m = choose|m: int| 0 <= m < r.len() && r[m] == n;
                assert(retained_names(gs, wanted)[m] == n);
            } else {
                assert(d == c);
                assert(retained_names(gs, wanted)[r.len() as int] == n);
            }
        }
    }
}

/// Wanting more codepoints never keeps fewer glyphs: every glyph kept for
/// some codepoints is kept for any codepoints that include them. So a font of
/// full Latin coverage keeps every glyph that a core or kernel font keeps, and
/// asking for Greek or Cyrillic only adds glyphs.
pub proof fn law_more_codepoints_keep_more_glyphs(gs: Seq<(Seq<char>, Seq<u32>)>, fewer: Seq<u32>, more: Seq<u32>)
    requires
        fewer.to_set().subset_of(more.to_set()),
    ensures
        retained_names(gs, fewer).to_set().subset_of(retained_names(gs, more).to_set()),
{
    assert forall|n: Seq<char>| retained_names(gs, fewer).to_set().contains(n) implies retained_names(gs, more).to_set().contains(n) by {
        lemma_retained_contains(gs, fewer, n);
        lemma_retained_contains(gs, more, n);
        let c = choose|c: u32| fewer.contains(c) && owner_index(gs, c) >= 0 && #[trigger] gs[owner_index(gs, c)].0 == n;
        assert(fewer.to_set().contains(c));
        assert(more.to_set().contains(c));
        assert(more.contains(c));
    }
}

/// The glyphs a new font keeps depend on its coverage and scripts alone: two
/// lists of the codepoints wanted for the same coverage, Greek and Cyrillic
/// choice (such as two results of `wanted_codepoints`, in whatever order they
/// come) keep the same set of glyph names.
pub proof fn law_same_request_keeps_same_glyphs(
    gs: Seq<(Seq<char>, Seq<u32>)>,
    coverage: LatinCoverage,
    greek: bool,
    cyrillic: bool,
    first: Seq<u32>,
    second: Seq<u32>,
)
    requires
        first.to_set() == wanted_set(coverage, greek, cyrillic),
        second.to_set() == wanted_set(coverage, greek, cyrillic),
    ensures
        retained_names(gs, first).to_set() == retained_names(gs, second).to_set(),
{
    law_more_codepoints_keep_more_glyphs(gs, first, second);
    law_more_codepoints_keep_more_glyphs(gs, second, first);
    assert(retained_names(gs, first).to_set() =~= retained_names(gs, second).to_set());
}

/// The names of the glyphs to keep for the wanted codepoints: for each wanted
/// codepoint, in order, the name of the last glyph mapped from it, if any.
pub fn retain_for_codepoints(glyphs: &Vec<GlyphEntry>, wanted: &Vec<u32>) -> (r: Vec<String>)
    ensures
        r@.map_values(|s: String| s@) == retained_names(glyph_views(glyphs@), wanted@),
{
    let ghost gs = glyph_views(glyphs@);
    let mut owners: HashMap<u32, usize> = HashMap::new();
    let mut i: usize = 0;
    while i < glyphs.len()
        invariant
            i <= glyphs.len(),
            gs == glyph_views(glyphs@),
            forall|c: u32| owners@.contains_key(c) <==> owner_index(gs.take(i as int), c) >= 0,
            forall|c: u32| owners@.contains_key(c) ==> owners@[c] as int == owner_index(gs.take(i as int), c),
        decreases glyphs.len() - i,
    {
        let g = &glyphs[i];
        let mut k: usize = 0;
        while k < g.codepoints.len()
            invariant
                k <= g.codepoints.len(),
                i < glyphs.len(),
                g == glyphs@[i as int],
                gs == glyph_views(glyphs@),
                forall|c: u32| owners@.contains_key(c) <==> (owner_index(gs.take(i as int), c) >= 0
                    || g.codepoints@.take(k as int).contains(c)),
                forall|c: u32| owners@.contains_key(c) ==> owners@[c] as int == (if g.codepoints@.take(k as int).contains(c) {
                    i as int
                } else {
                    owner_index(gs.take(i as int), c)
                }),
            decreases g.codepoints.len() - k,
        {
            let c = g.codepoints[k];
            owners.insert(c, i);
            proof {
                lemma_take_one_more(g.codepoints@, k as int);
            }
            k = k + 1;
        }
        proof {
            assert(g.codepoints@.take(k as int) =~= g.codepoints@);
            let p = gs.take(i as int + 1);
            assert(p.drop_last() =~= gs.take(i as int));
            assert(p.last() == g@);
        }
        i = i + 1;
    }
    assert(gs.take(i as int) =~= gs);
    let mut names: Vec<String> = Vec::new();
    let mut w: usize = 0;
    while w < wanted.len()
        invariant
            w <= wanted.len(),
            gs == glyph_views(glyphs@),
            forall|c: u32| owners@.contains_key(c) <==> owner_index(gs, c) >= 0,
            forall|c: u32| owners@.contains_key(c) ==> owners@[c] as int == owner_index(gs, c),
            names@.map_values(|s: String| s@) == retained_names(gs, wanted@.take(w as int)),
        decreases wanted.len() - w,
    {
        let c = wanted[w];
        let ghost t = wanted@.take(w as int + 1);
        proof {
            assert(t.drop_last() =~= wanted@.take(w as int));
            assert(t.last() == c);
            lemma_owner_index_bounds(gs, c);
        }
        match owners.get(&c) {
            Some(idx) => {
                let n = glyphs[*idx].name.clone();
                let ghost before = names@;
                names.push(n);
                assert(names@.map_values(|s: String| s@) =~= before.map_values(|s: String| s@).push(gs[owner_index(gs, c)].0));
            },
            None => {},
        }
        w = w + 1;
    }
    assert(wanted@.take(w as int) =~= wanted@);
    names
}

/// Calls `char::from_u32`: the character of a Unicode scalar value, `None` for
/// a surrogate or a value above U+10FFFF.
#[verifier::external_body]
fn scalar_char(c: u32) -> (r: Option<char>)
    ensures
        r == (if c < 0xD800 || (0xE000 <= c && c <= 0x10FFFF) { Some(c as char) } else { None }),
{
    char::from_u32(c)
}

/// The characters of a list of codepoints, in order, leaving out those that
/// are not Unicode scalar values.
pub fn scalar_chars(cps: &Vec<u32>) -> (r: Vec<char>)
    ensures
        r@ == cps@.filter(|c: u32| c < 0xD800 || (0xE000 <= c && c <= 0x10FFFF)).map_values(|c: u32| c as char),
        cps@.no_duplicates() ==> r@.no_duplicates(),
{
    let ghost pred = |c: u32| c < 0xD800 || (0xE000 <= c && c <= 0x10FFFF);
    let mut out: Vec<char> = Vec::new();
    let mut i: usize = 0;
    while i < cps.len()
        invariant
            i <= cps.len(),
            pred == (|c: u32| c < 0xD800 || (0xE000 <= c && c <= 0x10FFFF)),
            out@ == cps@.take(i as int).filter(pred).map_values(|c: u32| c as char),
        decreases cps.len() - i,
    {
        let c = cps[i];
        proof {
            let t = cps@.take(i as int + 1);
            assert(t.drop_last() =~= cps@.take(i as int));
            assert(t.last() == c);
            reveal_with_fuel(Seq::filter, 1);
        }
        match scalar_char(c) {
            Some(ch) => {
                out.push(ch);
                assert(out@ =~= cps@.take(i as int + 1).filter(pred).map_values(|c: u32| c as char));
            },
            None => {
                assert(out@ =~= cps@.take(i as int + 1).filter(pred).map_values(|c: u32| c as char));
            },
        }
        i = i + 1;
    }
    assert(cps@.take(i as int) =~= cps@);
    proof {
        if cps@.no_duplicates() {
            broadcast use vstd::seq_lib::group_filter_ensures;

            lemma_filter_no_duplicates(cps@, pred);
            let f = cps@.filter(pred);
            assert forall|a: int, b: int| 0 <= a < out@.len() && 0 <= b < out@.len() && a != b implies out@[a] != out@[b] by {
                assert(pred(f[a]) && pred(f[b]));
                assert(f[a] != f[b]);
                assert((f[a] as char) as u32 == f[a]);
                assert((f[b] as char) as u32 == f[b]);
            }
        }
    }
    out
}

/// The characters a standard Arabic subset is cut around: those of the
/// Arabic glyph set that are Unicode scalar values, once each. The glyph set
/// is Google Fonts' Arabic core set: the glyph-set data at hand has no Arabic
/// kernel set, the smaller set a standard Arabic subset is meant to be cut
/// around.
pub fn standard_arabic_chars() -> (r: Vec<char>)
    ensures
        r@.no_duplicates(),
        exists|cps: Seq<u32>| cps.to_set() == glyphset_codepoints(Glyphset::ArabicCore)
            && r@ == cps.filter(|c: u32| c < 0xD800 || (0xE000 <= c && c <= 0x10FFFF)).map_values(|c: u32| c as char),
{
    let cps = codepoints_of(Glyphset::ArabicCore);
    scalar_chars(&cps)
}

} // verus!
