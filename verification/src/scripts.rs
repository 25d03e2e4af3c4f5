use vstd::prelude::*;
use vstd::string::StringSliceAdditionalSpecFns;
use crate::coverage::LatinCoverage;
use crate::coords::{is_finite_key, key_is_finite};
use crate::axes::{checked_tag, padded_tag_bytes, valid_tag};

verus! {

broadcast use vstd::utf8::encode_utf8_decode_utf8;

/// The scripts a fake font can include beside Latin.
#[derive(PartialEq, Eq, Structural, Clone, Copy, Debug)]
pub enum OtherSubsets {
    Greek,
    Cyrillic,
    CjkBasic,
    Devanagari,
    Bengali,
    StandardArabic,
    UrduFarsi,
    Thai,
    Tamil,
    Telugu,
    Kannada,
}

/// Whether two texts are the same.
pub fn same_text(a: &str, b: &str) -> (r: bool)
    ensures
        r == (a@ == b@),
{
    let x = a.as_bytes();
    let y = b.as_bytes();
    if x.len() != y.len() {
        proof {
            if a@ == b@ {
                assert(a.spec_bytes() == b.spec_bytes());
            }
        }
        return false;
    }
    let mut i: usize = 0;
    while i < x.len()
        invariant
            i <= x.len(),
            x.len() == y.len(),
            x@ == a.spec_bytes(),
            y@ == b.spec_bytes(),
            forall|j: int| 0 <= j < i ==> x@[j] == y@[j],
        decreases x.len() - i,
    {
        if x[i] != y[i] {
            proof {
                if a@ == b@ {
                    assert(a.spec_bytes() == b.spec_bytes());
                    assert(x@ == y@);
                }
            }
            return false;
        }
        i = i + 1;
    }
    proof {
        assert(x@ =~= y@);
        assert(vstd::utf8::decode_utf8(a.spec_bytes()) == a@);
        assert(vstd::utf8::decode_utf8(b.spec_bytes()) == b@);
    }
    true
}

/// The Latin coverage a page names: `"full"`, `"core"` or `"kernel"`, and no
/// other text.
pub open spec fn latin_coverage_named(name: Seq<char>) -> Option<LatinCoverage> {
    if name == "full"@ {
        Some(LatinCoverage::Full)
    } else if name == "core"@ {
        Some(LatinCoverage::Core)
    } else if name == "kernel"@ {
        Some(LatinCoverage::Kernel)
    } else {
        None
    }
}

/// The Latin coverage named by `name`, `None` for an unknown name.
pub fn parse_latin_coverage(name: &str) -> (r: Option<LatinCoverage>)
    ensures
        r == latin_coverage_named(name@),
{
    if same_text(name, "full") {
        Some(LatinCoverage::Full)
    } else if same_text(name, "core") {
        Some(LatinCoverage::Core)
    } else if same_text(name, "kernel") {
        Some(LatinCoverage::Kernel)
    } else {
        None
    }
}

/// The script a page's tile names, by its value.
pub open spec fn subset_named(name: Seq<char>) -> Option<OtherSubsets> {
    if name == "greek"@ {
        Some(OtherSubsets::Greek)
    } else if name == "cyrillic"@ {
        Some(OtherSubsets::Cyrillic)
    } else if name == "cjk-basic"@ {
        Some(OtherSubsets::CjkBasic)
    } else if name == "devanagari"@ {
        Some(OtherSubsets::Devanagari)
    } else if name == "bengali"@ {
        Some(OtherSubsets::Bengali)
    } else if name == "standard-arabic"@ {
        Some(OtherSubsets::StandardArabic)
    } else if name == "farsi-urdu"@ {
        Some(OtherSubsets::UrduFarsi)
    } else if name == "thai"@ {
        Some(OtherSubsets::Thai)
    } else if name == "tamil"@ {
        Some(OtherSubsets::Tamil)
    } else if name == "telugu"@ {
        Some(OtherSubsets::Telugu)
    } else if name == "kannada"@ {
        Some(OtherSubsets::Kannada)
    } else {
        None
    }
}

/// The script named by `name`, `None` for an unknown name.
pub fn parse_subset(name: &str) -> (r: Option<OtherSubsets>)
    ensures
        r == subset_named(name@),
{
    if same_text(name, "greek") {
        Some(OtherSubsets::Greek)
    } else if same_text(name, "cyrillic") {
        Some(OtherSubsets::Cyrillic)
    } else if same_text(name, "cjk-basic") {
        Some(OtherSubsets::CjkBasic)
    } else if same_text(name, "devanagari") {
        Some(OtherSubsets::Devanagari)
    } else if same_text(name, "bengali") {
        Some(OtherSubsets::Bengali)
    } else if same_text(name, "standard-arabic") {
        Some(OtherSubsets::StandardArabic)
    } else if same_text(name, "farsi-urdu") {
        Some(OtherSubsets::UrduFarsi)
    } else if same_text(name, "thai") {
        Some(OtherSubsets::Thai)
    } else if same_text(name, "tamil") {
        Some(OtherSubsets::Tamil)
    } else if same_text(name, "telugu") {
        Some(OtherSubsets::Telugu)
    } else if same_text(name, "kannada") {
        Some(OtherSubsets::Kannada)
    } else {
        None
    }
}

/// The scripts added one by one after the Latin font is cut out, in the order
/// they are added.
pub open spec fn added_scripts_order() -> Seq<OtherSubsets> {
    seq![
        OtherSubsets::CjkBasic,
        OtherSubsets::Devanagari,
        OtherSubsets::Bengali,
        OtherSubsets::StandardArabic,
        OtherSubsets::UrduFarsi,
        OtherSubsets::Thai,
        OtherSubsets::Tamil,
        OtherSubsets::Telugu,
        OtherSubsets::Kannada,
    ]
}

/// Which scripts a font gets: Greek and Cyrillic are cut out with the Latin
/// glyphs, the others are added afterwards, each once, in a fixed order.
pub struct ScriptSelection {
    pub greek: bool,
    pub cyrillic: bool,
    pub added: Vec<OtherSubsets>,
}

/// The scripts of the fixed order that the request names, in that order.
pub open spec fn requested_in_order(requested: Seq<OtherSubsets>) -> Seq<OtherSubsets> {
    added_scripts_order().filter(|s: OtherSubsets| requested.contains(s))
}

/// Sorts a request for scripts into what the font is cut with and what is
/// added to it. Order and repeats in the request do not matter.
pub fn select_scripts(requested: &Vec<OtherSubsets>) -> (r: ScriptSelection)
    ensures
        r.greek == requested@.contains(OtherSubsets::Greek),
        r.cyrillic == requested@.contains(OtherSubsets::Cyrillic),
        r.added@ == requested_in_order(requested@),
{
    let ghost order = added_scripts_order();
    let ghost pred = |s: OtherSubsets| requested@.contains(s);
    let greek = requests(requested, OtherSubsets::Greek);
    let cyrillic = requests(requested, OtherSubsets::Cyrillic);
    let order_exec: Vec<OtherSubsets> = vec![
        OtherSubsets::CjkBasic,
        OtherSubsets::Devanagari,
        OtherSubsets::Bengali,
        OtherSubsets::StandardArabic,
        OtherSubsets::UrduFarsi,
        OtherSubsets::Thai,
        OtherSubsets::Tamil,
        OtherSubsets::Telugu,
        OtherSubsets::Kannada,
    ];
    assert(order_exec@ =~= order);
    let mut added: Vec<OtherSubsets> = Vec::new();
    let mut i: usize = 0;
    while i < order_exec.len()
        invariant
            i <= order_exec.len(),
            order_exec@ == order,
            order == added_scripts_order(),
            pred == (|s: OtherSubsets| requested@.contains(s)),
            added@ == order.take(i as int).filter(pred),
        decreases order_exec.len() - i,
    {
        let s = order_exec[i];
        proof {
            let t = order.take(i as int + 1);
            assert(t.drop_last() =~= order.take(i as int));
            assert(t.last() == s);
            reveal_with_fuel(Seq::filter, 1);
        }
        if requests(requested, s) {
            added.push(s);
        }
        i = i + 1;
    }
    assert(order.take(i as int) =~= order);
    ScriptSelection { greek, cyrillic, added }
}

fn requests(requested: &Vec<OtherSubsets>, s: OtherSubsets) -> (r: bool)
    ensures
        r == requested@.contains(s),
{
    let mut i: usize = 0;
    while i < requested.len()
        invariant
            i <= requested.len(),
            forall|j: int| 0 <= j < i ==> requested@[j] != s,
        decreases requested.len() - i,
    {
        if requested[i] == s {
            assert(requested@[i as int] == s);
            return true;
        }
        i = i + 1;
    }
    false
}

/// Two requests that name the same scripts, in whatever order and however
/// often, select the same scripts.
pub proof fn law_selection_ignores_order_and_repeats(a: Seq<OtherSubsets>, b: Seq<OtherSubsets>)
    requires
        a.to_set() == b.to_set(),
    ensures
        a.contains(OtherSubsets::Greek) == b.contains(OtherSubsets::Greek),
        a.contains(OtherSubsets::Cyrillic) == b.contains(OtherSubsets::Cyrillic),
        requested_in_order(a) == requested_in_order(b),
{
    assert forall|s: OtherSubsets| a.contains(s) == b.contains(s) by {
        assert(a.to_set().contains(s) == a.contains(s));
        assert(b.to_set().contains(s) == b.contains(s));
        assert(a.to_set().contains(s) == b.to_set().contains(s));
    }
    let pa = |s: OtherSubsets| a.contains(s);
    let pb = |s: OtherSubsets| b.contains(s);
    assert(pa =~= pb);
}

/// Where a script stands among those added after the Latin font is cut out:
/// CJK first, Kannada last; Greek and Cyrillic are never added afterwards.
pub open spec fn added_rank(s: OtherSubsets) -> int {
    match s {
        OtherSubsets::CjkBasic => 0,
        OtherSubsets::Devanagari => 1,
        OtherSubsets::Bengali => 2,
        OtherSubsets::StandardArabic => 3,
        OtherSubsets::UrduFarsi => 4,
        OtherSubsets::Thai => 5,
        OtherSubsets::Tamil => 6,
        OtherSubsets::Telugu => 7,
        OtherSubsets::Kannada => 8,
        OtherSubsets::Greek => -1,
        OtherSubsets::Cyrillic => -1,
    }
}

proof fn lemma_order_ranks()
    ensures
        added_scripts_order().len() == 9,
        forall|i: int| 0 <= i < 9 ==> added_rank(#[trigger] added_scripts_order()[i]) == i,
{
}

spec fn requested_among_first(requested: Seq<OtherSubsets>, k: int) -> Seq<OtherSubsets> {
    added_scripts_order().take(k).filter(|s: OtherSubsets| requested.contains(s))
}

proof fn lemma_requested_prefix_ranked(requested: Seq<OtherSubsets>, k: int)
    requires
        0 <= k <= 9,
    ensures
        forall|i: int| 0 <= i < requested_among_first(requested, k).len()
            ==> 0 <= added_rank(#[trigger] requested_among_first(requested, k)[i]) < k,
        forall|i: int, j: int| 0 <= i < j < requested_among_first(requested, k).len()
            ==> added_rank(#[trigger] requested_among_first(requested, k)[i])
                < added_rank(#[trigger] requested_among_first(requested, k)[j]),
    decreases k,
{
    let pred = |s: OtherSubsets| requested.contains(s);
    let order = added_scripts_order();
    lemma_order_ranks();
    if k > 0 {
        lemma_requested_prefix_ranked(requested, k - 1);
        let t = order.take(k);
        assert(t.drop_last() =~= order.take(k - 1));
        assert(t.last() == order[k - 1]);
        reveal_with_fuel(Seq::filter, 1);
        let prev = requested_among_first(requested, k - 1);
        let cur = requested_among_first(requested, k);
        if pred(order[k - 1]) {
            assert(cur == prev.push(order[k - 1]));
        } else {
            assert(cur == prev);
        }
    } else {
        assert(order.take(0) =~= Seq::<OtherSubsets>::empty());
        reveal_with_fuel(Seq::filter, 1);
    }
}

/// Every script beside Greek and Cyrillic that a request names is added to
/// the font, Kannada as much as CJK; nothing the request does not name is
/// added, Greek and Cyrillic never are (they come with the Latin glyphs), no
/// script is added twice, and the scripts come in ascending `added_rank`.
pub proof fn law_every_named_script_is_added(requested: Seq<OtherSubsets>)
    ensures
        forall|s: OtherSubsets| s != OtherSubsets::Greek && s != OtherSubsets::Cyrillic
            ==> (#[trigger] requested_in_order(requested).contains(s) <==> requested.contains(s)),
        !requested_in_order(requested).contains(OtherSubsets::Greek),
        !requested_in_order(requested).contains(OtherSubsets::Cyrillic),
        forall|i: int, j: int| 0 <= i < j < requested_in_order(requested).len()
            ==> added_rank(#[trigger] requested_in_order(requested)[i]) < added_rank(#[trigger] requested_in_order(requested)[j]),
        requested_in_order(requested).no_duplicates(),
{
    broadcast use vstd::seq_lib::group_filter_ensures;
    let pred = |s: OtherSubsets| requested.contains(s);
    let order = added_scripts_order();
    let r = requested_in_order(requested);
    lemma_order_ranks();
    assert(order.take(9) =~= order);
    assert(requested_among_first(requested, 9) == r);
    lemma_requested_prefix_ranked(requested, 9);
    assert forall|s: OtherSubsets| s != OtherSubsets::Greek && s != OtherSubsets::Cyrillic
        implies (#[trigger] r.contains(s) <==> requested.contains(s)) by {
        let i = added_rank(s);
        assert(order[i] == s);
        if requested.contains(s) {
            assert(pred(order[i]));
        }
        if r.contains(s) {
            let k = choose|k: int| 0 <= k < r.len() && r[k] == s;
            assert(pred(r[k]));
        }
    }
    assert forall|s: OtherSubsets| #[trigger] r.contains(s) implies added_rank(s) >= 0 by {
        let k = choose|k: int| 0 <= k < r.len() && r[k] == s;
    }
    assert(!r.contains(OtherSubsets::Greek));
    assert(!r.contains(OtherSubsets::Cyrillic));
    assert forall|i: int, j: int| 0 <= i < r.len() && 0 <= j < r.len() && i != j implies r[i] != r[j] by {
        if i < j {
            assert(added_rank(r[i]) < added_rank(r[j]));
        } else {
            assert(added_rank(r[j]) < added_rank(r[i]));
        }
    }
}

/// What can be wrong with an axis asked for by the page.
#[derive(PartialEq, Eq, Structural, Clone, Copy, Debug)]
pub enum AxisProblem {
    /// The tag is not exactly four bytes that make an axis tag.
    BadTag,
    /// A coordinate is not a finite number.
    NotFinite,
    /// The low end is not below the high end.
    LowNotBelowHigh,
    /// The default lies outside the range.
    DefaultOutside,
}

/// The first problem of an axis, in the order the page checks for them. A tag
/// passes exactly when it is four bytes that make a tag (`valid_tag`): four
/// printable ASCII characters, not starting with a space, nothing but spaces
/// after a space. Those are the tags the library turns into an axis as they
/// stand.
pub open spec fn axis_problem(tag: Seq<u8>, low: u64, high: u64, default: u64) -> Option<AxisProblem> {
    if !valid_tag(tag) {
        Some(AxisProblem::BadTag)
    } else if !(is_finite_key(low) && is_finite_key(high) && is_finite_key(default)) {
        Some(AxisProblem::NotFinite)
    } else if low >= high {
        Some(AxisProblem::LowNotBelowHigh)
    } else if default < low || default > high {
        Some(AxisProblem::DefaultOutside)
    } else {
        None
    }
}

/// Rejects anything the library cannot turn into an axis: a tag that is not
/// four bytes making a tag, coordinates that are not finite, a range that is
/// empty or backwards, a default outside the range. The coordinates are order
/// keys; for finite numbers their order is that of the numbers.
pub fn check_axis(tag: &str, low: u64, high: u64, default: u64) -> (r: Result<(), AxisProblem>)
    ensures
        r == (match axis_problem(tag.spec_bytes(), low, high, default) {
            Some(p) => Err::<(), AxisProblem>(p),
            None => Ok(()),
        }),
{
    let b = tag.as_bytes();
    if b.len() != 4 {
        return Err(AxisProblem::BadTag);
    }
    let bytes: [u8; 4] = [b[0], b[1], b[2], b[3]];
    assert(bytes@ =~= tag.spec_bytes());
    if checked_tag(bytes).is_none() {
        return Err(AxisProblem::BadTag);
    }
    if !(key_is_finite(low) && key_is_finite(high) && key_is_finite(default)) {
        return Err(AxisProblem::NotFinite);
    }
    if low >= high {
        return Err(AxisProblem::LowNotBelowHigh);
    }
    if default < low || default > high {
        return Err(AxisProblem::DefaultOutside);
    }
    Ok(())
}

/// An axis that passes the check has a tag that the library turns into an
/// axis unchanged: the tag the library makes of the text is the four bytes.
pub proof fn law_checked_axes_have_tags(tag: &str, low: u64, high: u64, default: u64)
    requires
        axis_problem(tag.spec_bytes(), low, high, default) is None,
    ensures
        valid_tag(padded_tag_bytes(tag)),
        padded_tag_bytes(tag) == tag.spec_bytes(),
{
    assert((tag.spec_bytes() + seq![0x20u8, 0x20u8, 0x20u8, 0x20u8]).take(4) =~= tag.spec_bytes());
}

} // verus!
