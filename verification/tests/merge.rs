use std::collections::HashSet;

use fakefont::merge::{keeps_prefix, merge_plan, GlyphEntry};

fn glyph(name: &str, codepoints: &[u32]) -> GlyphEntry {
    GlyphEntry { name: name.to_string(), codepoints: codepoints.to_vec() }
}

/// Applies a plan as a font does: the kept glyphs go after the others.
fn apply(base: &mut Vec<GlyphEntry>, other: &[GlyphEntry]) {
    let plan = merge_plan(base, &other.to_vec());
    for (g, kept) in other.iter().zip(plan) {
        if let Some(codepoints) = kept {
            base.push(GlyphEntry { name: g.name.clone(), codepoints });
        }
    }
}

fn assert_unambiguous(font: &[GlyphEntry]) {
    let mut names = HashSet::new();
    let mut codepoints = HashSet::new();
    for g in font {
        assert!(names.insert(g.name.clone()), "duplicate glyph name {}", g.name);
        for c in &g.codepoints {
            assert!(codepoints.insert(*c), "U+{c:04X} is on two glyphs");
        }
    }
}

#[test]
fn merged_fonts_stay_unambiguous() {
    let mut font = vec![glyph("hyphen", &[0x2D]), glyph("slash", &[0x2F]), glyph("a", &[0x61])];
    let devanagari = vec![glyph("hyphen", &[0x2D]), glyph("ka-deva", &[0x915]), glyph("danda", &[0x964])];
    let tamil = vec![glyph("hyphen.tamil", &[0x2D]), glyph("ka-tamil", &[0xB95]), glyph("danda", &[0x964])];
    let kannada = vec![glyph("slash.UIknda", &[0x2F]), glyph("ka-knda", &[0xC95, 0x964])];
    apply(&mut font, &devanagari);
    apply(&mut font, &tamil);
    apply(&mut font, &kannada);
    assert_unambiguous(&font);
    let names: Vec<&str> = font.iter().map(|g| g.name.as_str()).collect();
    assert_eq!(
        names,
        vec!["hyphen", "slash", "a", "ka-deva", "danda", "hyphen.tamil", "ka-tamil", "slash.UIknda", "ka-knda"]
    );
}

#[test]
fn script_variant_keeps_glyph_loses_codepoint() {
    let base = vec![glyph("hyphen", &[0x2D]), glyph("a", &[0x61])];
    let other = vec![glyph("hyphen", &[0x2D]), glyph("hyphen.tamil", &[0x2D]), glyph("ka-tamil", &[0xB95, 0x61])];
    let plan = merge_plan(&base, &other);
    assert_eq!(plan, vec![None, Some(vec![]), Some(vec![0xB95])]);
}

#[test]
fn later_glyphs_see_earlier_ones() {
    let base: Vec<GlyphEntry> = vec![];
    let other = vec![glyph("x", &[1, 2]), glyph("x", &[3]), glyph("y", &[2, 3])];
    let plan = merge_plan(&base, &other);
    assert_eq!(plan, vec![Some(vec![1, 2]), None, Some(vec![3])]);
}

#[test]
fn merging_a_font_twice_adds_nothing() {
    let mut font = vec![glyph("a", &[0x61])];
    let other = vec![glyph("b", &[0x62]), glyph("c", &[0x63])];
    apply(&mut font, &other);
    assert_eq!(font.len(), 3);
    let plan = merge_plan(&font, &other);
    assert_eq!(plan, vec![None, None]);
}

#[test]
fn languagesystem_prefixes_are_dropped() {
    assert!(!keeps_prefix("languagesystem DFLT dflt;\nlanguagesystem deva dflt;"));
    assert!(!keeps_prefix("  languagesystem"));
    assert!(keeps_prefix("lookup foo { sub a by b; } foo;"));
    assert!(keeps_prefix("language TAM;"));
    assert!(keeps_prefix(""));
    assert!(keeps_prefix("languagesyste"));
}
