use vstd::prelude::*;
use crate::designspace::{AxisModel, corners, default_location, filled_out, new_masters};

verus! {

/// The master a layer is the default layer of, `None` for a layer that is the
/// default layer of no master.
pub open spec fn layer_view(l: Option<String>) -> Option<Seq<char>> {
    match l {
        Some(id) => Some(id@),
        None => None,
    }
}

/// The layers of one glyph, by their masters.
pub open spec fn glyph_layers(v: Seq<Option<String>>) -> Seq<Option<Seq<char>>> {
    v.map_values(|l: Option<String>| layer_view(l))
}

/// The layers of every glyph of a font, by their masters.
pub open spec fn font_layers(v: Seq<Vec<Option<String>>>) -> Seq<Seq<Option<Seq<char>>>> {
    v.map_values(|g: Vec<Option<String>>| glyph_layers(g@))
}

/// The layers after new masters are added: every glyph that has a layer gains
/// one more per new master, in the order of the masters, as that master's
/// default layer; a glyph without layers stays without.
pub open spec fn filled_layers(gs: Seq<Seq<Option<Seq<char>>>>, ids: Seq<Seq<char>>) -> Seq<Seq<Option<Seq<char>>>> {
    Seq::new(gs.len(), |i: int| if gs[i].len() > 0 {
        gs[i] + ids.map_values(|id: Seq<char>| Some(id))
    } else {
        gs[i]
    })
}

/// The layers of every glyph after masters with these ids are added, as
/// `filled_layers` says. The first layer of a glyph is what each new layer
/// starts from.
pub fn layers_after_fill(glyphs: &Vec<Vec<Option<String>>>, new_ids: &Vec<String>) -> (r: Vec<Vec<Option<String>>>)
    ensures
        font_layers(r@) == filled_layers(font_layers(glyphs@), new_ids@.map_values(|s: String| s@)),
{
    let ghost ids = new_ids@.map_values(|s: String| s@);
    let ghost added = ids.map_values(|id: Seq<char>| Some(id));
    let mut out: Vec<Vec<Option<String>>> = Vec::new();
    let mut i: usize = 0;
    while i < glyphs.len()
        invariant
            i <= glyphs.len(),
            ids == new_ids@.map_values(|s: String| s@),
            added == ids.map_values(|id: Seq<char>| Some(id)),
            out.len() == i,
            forall|j: int| 0 <= j < i ==> #[trigger] glyph_layers(out@[j]@) == (if glyph_layers(glyphs@[j]@).len() > 0 {
                glyph_layers(glyphs@[j]@) + added
            } else {
                glyph_layers(glyphs@[j]@)
            }),
        decreases glyphs.len() - i,
    {
        let g = &glyphs[i];
        let mut layers: Vec<Option<String>> = Vec::new();
        let mut k: usize = 0;
        while k < g.len()
            invariant
                k <= g.len(),
                glyph_layers(layers@) == glyph_layers(g@).take(k as int),
            decreases g.len() - k,
        {
            let l = match &g[k] {
                Some(id) => Some(id.clone()),
                None => None,
            };
            assert(layer_view(l) == layer_view(g@[k as int]));
            let ghost before = layers@;
            assert(glyph_layers(before).len() == before.len());
            layers.push(l);
            assert(layers@ == before.push(l));
            assert forall|j: int| 0 <= j < k + 1 implies #[trigger] glyph_layers(layers@)[j] == glyph_layers(g@).take(k as int + 1)[j] by {
                if j < k {
                    assert(layers@[j] == before[j]);
                    assert(glyph_layers(layers@)[j] == glyph_layers(before)[j]);
                }
            }
            assert(glyph_layers(layers@) =~= glyph_layers(g@).take(k as int + 1));
            k = k + 1;
        }
        assert(glyph_layers(layers@) =~= glyph_layers(g@));
        if g.len() > 0 {
            let ghost base = glyph_layers(layers@);
            let mut m: usize = 0;
            while m < new_ids.len()
                invariant
                    m <= new_ids.len(),
                    ids == new_ids@.map_values(|s: String| s@),
                    added == ids.map_values(|id: Seq<char>| Some(id)),
                    glyph_layers(layers@) == base + added.take(m as int),
                decreases new_ids.len() - m,
            {
                let id = new_ids[m].clone();
                let ghost before = layers@;
            assert(glyph_layers(before).len() == before.len());
                layers.push(Some(id));
                assert(layers@ == before.push(Some(id)));
                assert(added[m as int] == Some(new_ids@[m as int]@));
                assert forall|j: int| 0 <= j < layers@.len() implies #[trigger] glyph_layers(layers@)[j] == (base + added.take(m as int + 1))[j] by {
                    if j < before.len() {
                        assert(layers@[j] == before[j]);
                        assert(glyph_layers(layers@)[j] == glyph_layers(before)[j]);
                    }
                }
                assert(glyph_layers(layers@) =~= base + added.take(m as int + 1));
                m = m + 1;
            }
            assert(added.take(m as int) =~= added);
        }
        out.push(layers);
        proof {
            assert forall|j: int| 0 <= j < i + 1 implies #[trigger] glyph_layers(out@[j]@) == (if glyph_layers(glyphs@[j]@).len() > 0 {
                glyph_layers(glyphs@[j]@) + added
            } else {
                glyph_layers(glyphs@[j]@)
            }) by {
                if j == i {
                    assert(glyphs@[j] == *g);
                }
            }
        }
        i = i + 1;
    }
    assert(font_layers(out@) =~= filled_layers(font_layers(glyphs@), ids));
    out
}

/// The layers of a glyph made the default layers of one master: as many as
/// before, each now belonging to that master.
pub fn layers_for_master(layers: &Vec<Option<String>>, id: &String) -> (r: Vec<Option<String>>)
    ensures
        glyph_layers(r@) == Seq::new(layers.len() as nat, |i: int| Some(id@)),
{
    let mut out: Vec<Option<String>> = Vec::new();
    let mut k: usize = 0;
    while k < layers.len()
        invariant
            k <= layers.len(),
            glyph_layers(out@) == Seq::new(k as nat, |i: int| Some(id@)),
        decreases layers.len() - k,
    {
        let c = id.clone();
        assert(c@ == id@);
        let ghost before = out@;
        assert(glyph_layers(before).len() == before.len());
        out.push(Some(c));
        assert(out@ == before.push(Some(c)));
        assert forall|j: int| 0 <= j < out@.len() implies #[trigger] glyph_layers(out@)[j] == Some(id@) by {
            if j < before.len() {
                assert(out@[j] == before[j]);
                assert(glyph_layers(out@)[j] == glyph_layers(before)[j]);
                assert(glyph_layers(before) == Seq::new(k as nat, |i: int| Some(id@)));
                assert(glyph_layers(before)[j] == Seq::new(k as nat, |i: int| Some(id@))[j]);
            } else {
                assert(out@[j] == Some(c));
                assert(glyph_layers(out@)[j] == layer_view(Some(c)));
            }
        }
        assert(glyph_layers(out@) =~= Seq::new(k as nat + 1, |i: int| Some(id@)));
        k = k + 1;
    }
    out
}

/// After new masters are added, every glyph keeps its own layers, first and
/// unchanged; a glyph that has a layer gains exactly one more per new master,
/// the default layer of that master, in the order of the masters; a glyph
/// without layers gains none.
pub proof fn law_fill_gives_each_new_master_a_layer(gs: Seq<Seq<Option<Seq<char>>>>, ids: Seq<Seq<char>>)
    ensures
        filled_layers(gs, ids).len() == gs.len(),
        forall|i: int| 0 <= i < gs.len() && gs[i].len() == 0 ==> #[trigger] filled_layers(gs, ids)[i] == gs[i],
        forall|i: int| 0 <= i < gs.len() && gs[i].len() > 0
            ==> (#[trigger] filled_layers(gs, ids)[i]).len() == gs[i].len() + ids.len(),
        forall|i: int, j: int| 0 <= i < gs.len() && 0 <= j < gs[i].len()
            ==> #[trigger] filled_layers(gs, ids)[i][j] == gs[i][j],
        forall|i: int, k: int| #![trigger filled_layers(gs, ids)[i], ids[k]]
            0 <= i < gs.len() && gs[i].len() > 0 && 0 <= k < ids.len()
            ==> filled_layers(gs, ids)[i][gs[i].len() + k] == Some(ids[k]),
{
    let added = ids.map_values(|id: Seq<char>| Some(id));
    assert forall|i: int, k: int| #![trigger filled_layers(gs, ids)[i], ids[k]]
        0 <= i < gs.len() && gs[i].len() > 0 && 0 <= k < ids.len()
        implies filled_layers(gs, ids)[i][gs[i].len() + k] == Some(ids[k]) by {
        assert(filled_layers(gs, ids)[i] == gs[i] + added);
        assert(added[k] == Some(ids[k]));
    }
    assert forall|i: int, j: int| 0 <= i < gs.len() && 0 <= j < gs[i].len()
        implies #[trigger] filled_layers(gs, ids)[i][j] == gs[i][j] by {
        if gs[i].len() > 0 {
            assert(filled_layers(gs, ids)[i] == gs[i] + added);
        }
    }
}

/// Filling out the masters a second time adds neither a master nor a layer:
/// no corner is left without a master, so no master id is new, and with no
/// new master every glyph keeps exactly its layers.
pub proof fn law_second_fill_adds_nothing(
    axes: Seq<AxisModel>,
    masters: Seq<Seq<(u32, u64)>>,
    layers: Seq<Seq<Option<Seq<char>>>>,
)
    requires
        masters.len() >= 1,
    ensures
        new_masters(filled_out(axes, masters).update(0, default_location(axes)), corners(axes)).len() == 0,
        filled_layers(layers, Seq::empty()) == layers,
{
    crate::designspace::law_fill_out_idempotent(axes, masters);
    let once = filled_out(axes, masters);
    let cs = corners(axes);
    let ext = once.update(0, default_location(axes));
    assert(filled_out(axes, once) == ext + new_masters(ext, cs));
    assert((ext + new_masters(ext, cs)).len() == once.len());
    assert(ext.len() == once.len());
    let e = Seq::<Seq<char>>::empty().map_values(|id: Seq<char>| Some(id));
    assert(e =~= Seq::empty());
    assert forall|i: int| 0 <= i < layers.len() implies #[trigger] filled_layers(layers, Seq::empty())[i] == layers[i] by {
        assert(layers[i] + e =~= layers[i]);
    }
    assert(filled_layers(layers, Seq::empty()) =~= layers);
}

} // verus!
