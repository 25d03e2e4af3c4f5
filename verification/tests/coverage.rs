use std::collections::HashSet;

use fakefont::coverage::{
    glyphsets_for, retain_for_codepoints, scalar_chars, standard_arabic_chars, union_codepoints,
    wanted_codepoints, Glyphset, LatinCoverage,
};
use fakefont::merge::GlyphEntry;

fn as_set(v: &[u32]) -> HashSet<u32> {
    v.iter().copied().collect()
}

#[test]
fn coverage_levels_pick_glyphsets() {
    assert_eq!(glyphsets_for(LatinCoverage::Core, false, false), vec![Glyphset::LatinCore]);
    assert_eq!(glyphsets_for(LatinCoverage::Kernel, true, false), vec![Glyphset::LatinKernel, Glyphset::GreekCore]);
    assert_eq!(
        glyphsets_for(LatinCoverage::Full, true, true),
        vec![
            Glyphset::LatinCore,
            Glyphset::LatinKernel,
            Glyphset::LatinAfrican,
            Glyphset::LatinVietnamese,
            Glyphset::LatinPlus,
            Glyphset::GreekCore,
            Glyphset::CyrillicCore
        ]
    );
}

#[test]
fn full_coverage_wants_more() {
    let core = wanted_codepoints(LatinCoverage::Core, false, false);
    let kernel = wanted_codepoints(LatinCoverage::Kernel, false, false);
    let full = wanted_codepoints(LatinCoverage::Full, false, false);
    assert!(core.contains(&0x41));
    assert!(kernel.contains(&0x61));
    assert!(as_set(&core).is_subset(&as_set(&full)));
    assert!(as_set(&kernel).is_subset(&as_set(&full)));
    assert!(full.len() > core.len());
    assert_eq!(as_set(&full).len(), full.len(), "codepoints come once each");
}

#[test]
fn greek_and_cyrillic_add_their_letters() {
    let plain = wanted_codepoints(LatinCoverage::Core, false, false);
    let greek = wanted_codepoints(LatinCoverage::Core, true, false);
    let cyrillic = wanted_codepoints(LatinCoverage::Core, false, true);
    assert!(!plain.contains(&0x391));
    assert!(greek.contains(&0x391));
    assert!(cyrillic.contains(&0x410));
    assert!(as_set(&plain).is_subset(&as_set(&greek)));
}

#[test]
fn union_keeps_first_appearance() {
    let u = union_codepoints(&vec![vec![3, 1], vec![1, 2, 3], vec![4]]);
    assert_eq!(u, vec![3, 1, 2, 4]);
    assert!(union_codepoints(&vec![]).is_empty());
}

#[test]
fn retained_names_follow_the_last_owner() {
    let glyphs = vec![
        GlyphEntry { name: "A".into(), codepoints: vec![0x41] },
        GlyphEntry { name: "B".into(), codepoints: vec![0x42] },
        GlyphEntry { name: "A.alt".into(), codepoints: vec![0x41, 0x391] },
    ];
    let names = retain_for_codepoints(&glyphs, &vec![0x41, 0x43, 0x42, 0x391]);
    assert_eq!(names, vec!["A.alt".to_string(), "B".to_string(), "A.alt".to_string()]);
    assert!(retain_for_codepoints(&glyphs, &vec![]).is_empty());
}

#[test]
fn scalar_values_become_chars() {
    let chars = scalar_chars(&vec![0x41, 0xD800, 0x10FFFF, 0x110000, 0x627]);
    assert_eq!(chars, vec!['A', '\u{10FFFF}', '\u{627}']);
    let arabic = standard_arabic_chars();
    assert!(arabic.contains(&'\u{627}'));
    let distinct: HashSet<char> = arabic.iter().copied().collect();
    assert_eq!(distinct.len(), arabic.len());
}

#[test]
fn more_coverage_keeps_more_glyphs() {
    let glyphs: Vec<GlyphEntry> = (0x20u32..0x300)
        .map(|c| GlyphEntry { name: format!("uni{c:04X}"), codepoints: vec![c] })
        .collect();
    let core = retain_for_codepoints(&glyphs, &wanted_codepoints(LatinCoverage::Core, false, false));
    let full = retain_for_codepoints(&glyphs, &wanted_codepoints(LatinCoverage::Full, false, false));
    let core: HashSet<String> = core.into_iter().collect();
    let full: HashSet<String> = full.into_iter().collect();
    assert!(core.contains("uni0041"));
    assert!(core.is_subset(&full));
    assert!(full.len() > core.len());
}

#[test]
fn same_request_keeps_same_glyphs() {
    let glyphs: Vec<GlyphEntry> = (0x20u32..0x500)
        .map(|c| GlyphEntry { name: format!("uni{c:04X}"), codepoints: vec![c] })
        .collect();
    let wanted = wanted_codepoints(LatinCoverage::Core, true, false);
    let mut reversed = wanted.clone();
    reversed.reverse();
    let a: HashSet<String> = retain_for_codepoints(&glyphs, &wanted).into_iter().collect();
    let b: HashSet<String> = retain_for_codepoints(&glyphs, &reversed).into_iter().collect();
    assert_eq!(a, b);
    assert!(!a.is_empty());
}
