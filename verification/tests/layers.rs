use fakefont::layers::{layers_after_fill, layers_for_master};

fn some(s: &str) -> Option<String> {
    Some(s.to_string())
}

#[test]
fn new_masters_give_each_glyph_with_layers_one_layer_each() {
    let glyphs = vec![vec![some("m0")], vec![], vec![some("m0"), None]];
    let ids = vec!["m1".to_string(), "m2".to_string()];
    let after = layers_after_fill(&glyphs, &ids);
    assert_eq!(
        after,
        vec![
            vec![some("m0"), some("m1"), some("m2")],
            vec![],
            vec![some("m0"), None, some("m1"), some("m2")]
        ]
    );
}

#[test]
fn no_new_masters_no_new_layers() {
    let glyphs = vec![vec![some("m0"), some("m1")], vec![]];
    assert_eq!(layers_after_fill(&glyphs, &vec![]), glyphs);
}

#[test]
fn merged_layers_belong_to_the_first_master() {
    let layers = vec![some("deva-regular"), None, some("deva-bold")];
    assert_eq!(
        layers_for_master(&layers, &"m0".to_string()),
        vec![some("m0"), some("m0"), some("m0")]
    );
    assert!(layers_for_master(&vec![], &"m0".to_string()).is_empty());
}
