use vstd::prelude::*;

verus! {

/// The table directory of a font file, as (tag text, byte length) records in
/// directory order, or the error text of a file that cannot be read as a font.
pub uninterp spec fn sfnt_table_records(font: Seq<u8>) -> Result<Seq<(Seq<char>, u32)>, Seq<char>>;

/// Calls skrifa's `FontRef::new` on the bytes and lists the table directory's
/// records, each as its tag (as the tag displays) and its length; the read
/// error is turned into its text. Claimed: the result is `sfnt_table_records`
/// of the bytes, which depends on the bytes alone.
#[verifier::external_body]
fn table_records(font: &[u8]) -> (r: Result<Vec<(String, u32)>, String>)
    ensures
        records_view(r) == sfnt_table_records(font@),
{
    match skrifa::FontRef::new(font) {
        Ok(f) => Ok(f.table_directory().table_records().iter().map(|t| (t.tag().to_string(), t.length())).collect()),
        Err(e) => Err(e.to_string()),
    }
}

/// The records of a table directory as plain values.
pub open spec fn records_view(r: Result<Vec<(String, u32)>, String>) -> Result<Seq<(Seq<char>, u32)>, Seq<char>> {
    match r {
        Ok(v) => Ok(v@.map_values(|e: (String, u32)| (e.0@, e.1))),
        Err(e) => Err(e@),
    }
}

/// The statistics as plain values.
pub open spec fn stats_view(r: Result<Vec<(String, usize)>, String>) -> Result<Seq<(Seq<char>, usize)>, Seq<char>> {
    match r {
        Ok(v) => Ok(v@.map_values(|e: (String, usize)| (e.0@, e.1))),
        Err(e) => Err(e@),
    }
}

/// The index of the entry with this tag, -1 if there is none.
pub open spec fn index_of_tag(s: Seq<(Seq<char>, usize)>, t: Seq<char>) -> int
    decreases s.len(),
{
    if s.len() == 0 {
        -1
    } else if s.last().0 == t {
        s.len() - 1
    } else {
        index_of_tag(s.drop_last(), t)
    }
}

/// The length of each table by its tag: one entry per tag, in the order the
/// tags first appear, with the length of the last record of that tag.
pub open spec fn tag_lengths(recs: Seq<(Seq<char>, u32)>) -> Seq<(Seq<char>, usize)>
    decreases recs.len(),
{
    if recs.len() == 0 {
        Seq::empty()
    } else {
        let r = tag_lengths(recs.drop_last());
        let (t, l) = recs.last();
        let j = index_of_tag(r, t);
        if j >= 0 {
            r.update(j, (t, l as usize))
        } else {
            r.push((t, l as usize))
        }
    }
}

proof fn lemma_index_of_tag(s: Seq<(Seq<char>, usize)>, t: Seq<char>)
    ensures
        -1 <= index_of_tag(s, t) < s.len(),
        index_of_tag(s, t) >= 0 ==> s[index_of_tag(s, t)].0 == t,
        index_of_tag(s, t) < 0 ==> forall|j: int| 0 <= j < s.len() ==> #[trigger] s[j].0 != t,
    decreases s.len(),
{
    if s.len() > 0 {
        lemma_index_of_tag(s.drop_last(), t);
        if index_of_tag(s, t) < 0 {
            assert forall|j: int| 0 <= j < s.len() implies #[trigger] s[j].0 != t by {
                if j < s.len() - 1 {
                    assert(s.drop_last()[j] == s[j]);
                }
            }
        }
    }
}

/// Whether no two entries share a tag.
pub open spec fn tags_distinct(s: Seq<(Seq<char>, usize)>) -> bool {
    forall|i: int, j: int| 0 <= i < s.len() && 0 <= j < s.len() && i != j ==> s[i].0 != s[j].0
}

/// The statistics never list a tag twice.
pub proof fn law_table_stats_one_entry_per_tag(recs: Seq<(Seq<char>, u32)>)
    ensures
        tags_distinct(tag_lengths(recs)),
    decreases recs.len(),
{
    if recs.len() > 0 {
        law_table_stats_one_entry_per_tag(recs.drop_last());
        let r = tag_lengths(recs.drop_last());
        let (t, l) = recs.last();
        lemma_index_of_tag(r, t);
        let n = tag_lengths(recs);
        let j = index_of_tag(r, t);
        assert forall|a: int, b: int| 0 <= a < n.len() && 0 <= b < n.len() && a != b implies n[a].0 != n[b].0 by {
            if j >= 0 {
                if a != j && b != j {
                    assert(n[a] == r[a] && n[b] == r[b]);
                } else if a == j {
                    assert(n[b] == r[b]);
                } else {
                    assert(n[a] == r[a]);
                }
            } else {
                if a < r.len() && b < r.len() {
                    assert(n[a] == r[a] && n[b] == r[b]);
                } else if a == r.len() {
                    assert(n[b] == r[b]);
                } else {
                    assert(n[a] == r[a]);
                }
            }
        }
    }
}

/// Whether record `k` is the last record of its tag.
pub open spec fn last_of_its_tag(recs: Seq<(Seq<char>, u32)>, k: int) -> bool {
    forall|m: int| k < m < recs.len() ==> #[trigger] recs[m].0 != recs[k].0
}

/// Whether an entry is the last record of its tag in the directory, with the
/// record's length whole.
pub open spec fn from_last_record(recs: Seq<(Seq<char>, u32)>, e: (Seq<char>, usize)) -> bool {
    exists|k: int| 0 <= k < recs.len() && #[trigger] recs[k].0 == e.0 && e.1 as int == recs[k].1 as int
        && last_of_its_tag(recs, k)
}

/// Whether some entry has this tag.
pub open spec fn has_entry(s: Seq<(Seq<char>, usize)>, t: Seq<char>) -> bool {
    exists|q: int| 0 <= q < s.len() && #[trigger] s[q].0 == t
}

proof fn lemma_entries_from_last_records(recs: Seq<(Seq<char>, u32)>)
    ensures
        forall|q: int| 0 <= q < tag_lengths(recs).len() ==> from_last_record(recs, #[trigger] tag_lengths(recs)[q]),
    decreases recs.len(),
{
    if recs.len() > 0 {
        let p = recs.drop_last();
        lemma_entries_from_last_records(p);
        law_table_stats_one_entry_per_tag(p);
        let r = tag_lengths(p);
        let (t, l) = recs.last();
        lemma_index_of_tag(r, t);
        let j = index_of_tag(r, t);
        let n = tag_lengths(recs);
        let last = recs.len() - 1;
        let at: int = if j >= 0 { j } else { r.len() as int };
        assert(n[at] == (t, l as usize));
        assert forall|q: int| 0 <= q < n.len() implies from_last_record(recs, #[trigger] n[q]) by {
            if q == at {
                assert(recs[last] == (t, l));
                assert(last_of_its_tag(recs, last));
            } else {
                assert(n[q] == r[q]);
                if j >= 0 {
                    assert(r[q].0 != r[j].0);
                }
                assert(r[q].0 != t);
                assert(from_last_record(p, r[q]));
                let k = choose|k: int| 0 <= k < p.len() && #[trigger] p[k].0 == r[q].0
                    && r[q].1 as int == p[k].1 as int && last_of_its_tag(p, k);
                assert(recs[k] == p[k]);
                assert forall|m: int| k < m < recs.len() implies #[trigger] recs[m].0 != recs[k].0 by {
                    if m < last {
                        assert(recs[m] == p[m]);
                        assert(p[m].0 != p[k].0);
                    }
                }
                assert(last_of_its_tag(recs, k));
            }
        }
    }
}

proof fn lemma_every_record_has_entry(recs: Seq<(Seq<char>, u32)>)
    ensures
        forall|k: int| 0 <= k < recs.len() ==> has_entry(tag_lengths(recs), (#[trigger] recs[k]).0),
    decreases recs.len(),
{
    if recs.len() > 0 {
        let p = recs.drop_last();
        lemma_every_record_has_entry(p);
        let r = tag_lengths(p);
        let (t, l) = recs.last();
        lemma_index_of_tag(r, t);
        let j = index_of_tag(r, t);
        let n = tag_lengths(recs);
        let last = recs.len() - 1;
        let at: int = if j >= 0 { j } else { r.len() as int };
        assert(n[at] == (t, l as usize));
        assert forall|k: int| 0 <= k < recs.len() implies has_entry(n, (#[trigger] recs[k]).0) by {
            if k == last {
                assert(n[at].0 == recs[k].0);
            } else {
                assert(recs[k] == p[k]);
                assert(has_entry(r, p[k].0));
                let q = choose|q: int| 0 <= q < r.len() && #[trigger] r[q].0 == p[k].0;
                if q == at {
                    assert(n[q].0 == t);
                } else {
                    assert(n[q] == r[q]);
                }
            }
        }
    }
}

/// Whether a record before record `k` has this tag.
pub open spec fn tag_before(recs: Seq<(Seq<char>, u32)>, t: Seq<char>, k: int) -> bool {
    exists|m: int| 0 <= m < k && #[trigger] recs[m].0 == t
}

/// The entries come in the order in which their tags first appear: the tag of
/// an earlier entry has a record before every record of a later entry's tag.
pub proof fn law_table_stats_in_order_of_first_appearance(recs: Seq<(Seq<char>, u32)>)
    ensures
        forall|a: int, b: int, k: int| #![trigger tag_lengths(recs)[a], tag_lengths(recs)[b], recs[k]]
            0 <= a < b < tag_lengths(recs).len() && 0 <= k < recs.len() && recs[k].0 == tag_lengths(recs)[b].0
            ==> tag_before(recs, tag_lengths(recs)[a].0, k),
    decreases recs.len(),
{
    if recs.len() > 0 {
        let p = recs.drop_last();
        law_table_stats_in_order_of_first_appearance(p);
        lemma_entries_from_last_records(p);
        lemma_every_record_has_entry(p);
        let r = tag_lengths(p);
        let (t, l) = recs.last();
        lemma_index_of_tag(r, t);
        let j = index_of_tag(r, t);
        let n = tag_lengths(recs);
        let last = recs.len() - 1;
        let at: int = if j >= 0 { j } else { r.len() as int };
        assert(n[at] == (t, l as usize));
        assert(recs[last] == (t, l));
        assert forall|a: int, b: int, k: int| #![trigger n[a], n[b], recs[k]]
            0 <= a < b < n.len() && 0 <= k < recs.len() && recs[k].0 == n[b].0
            implies tag_before(recs, n[a].0, k) by {
            assert(a < r.len());
            assert(from_last_record(p, r[a]));
            let ka = choose|ka: int| 0 <= ka < p.len() && #[trigger] p[ka].0 == r[a].0
                && r[a].1 as int == p[ka].1 as int && last_of_its_tag(p, ka);
            assert(recs[ka] == p[ka]);
            if a == at {
                assert(n[a].0 == r[a].0);
            } else {
                assert(n[a] == r[a]);
            }
            if k == last {
                assert(recs[ka].0 == n[a].0);
            } else {
                assert(recs[k] == p[k]);
                if b < r.len() {
                    let nb = n[b];
                    if b == at {
                        assert(nb.0 == r[b].0);
                    } else {
                        assert(nb == r[b]);
                    }
                    assert(p[k].0 == r[b].0);
                    assert(tag_before(p, r[a].0, k));
                    let m = choose|m: int| 0 <= m < k && #[trigger] p[m].0 == r[a].0;
                    assert(recs[m] == p[m]);
                } else {
                    assert(j < 0);
                    assert(has_entry(r, p[k].0));
                    let q = choose|q: int| 0 <= q < r.len() && #[trigger] r[q].0 == p[k].0;
                    assert(r[q].0 != t);
                }
            }
        }
    }
}

/// Each entry of the statistics is a table of the directory with its length
/// carried over whole, not cut to fewer bits: its tag is that of a record
/// that no later record repeats, and its length is that record's length. And
/// every table of the directory has an entry.
pub proof fn law_table_lengths_are_the_records(recs: Seq<(Seq<char>, u32)>)
    ensures
        forall|q: int| 0 <= q < tag_lengths(recs).len() ==> from_last_record(recs, #[trigger] tag_lengths(recs)[q]),
        forall|k: int| 0 <= k < recs.len() ==> has_entry(tag_lengths(recs), (#[trigger] recs[k]).0),
{
    lemma_entries_from_last_records(recs);
    lemma_every_record_has_entry(recs);
}

/// The index of the last entry with this tag.
fn find_tag(out: &Vec<(String, usize)>, t: &String) -> (r: Option<usize>)
    ensures
        match r {
            Some(j) => index_of_tag(out@.map_values(|e: (String, usize)| (e.0@, e.1)), t@) == j as int,
            None => index_of_tag(out@.map_values(|e: (String, usize)| (e.0@, e.1)), t@) == -1,
        },
{
    let ghost v = out@.map_values(|e: (String, usize)| (e.0@, e.1));
    let mut k: usize = out.len();
    assert(v.take(k as int) =~= v);
    while k > 0
        invariant
            k <= out.len(),
            v == out@.map_values(|e: (String, usize)| (e.0@, e.1)),
            index_of_tag(v, t@) == index_of_tag(v.take(k as int), t@),
        decreases k,
    {
        let ghost p = v.take(k as int);
        assert(p.last() == v[k - 1]);
        assert(v[k - 1].0 == out@[k - 1].0@);
        if out[k - 1].0 == *t {
            return Some(k - 1);
        }
        assert(p.drop_last() =~= v.take(k - 1));
        k = k - 1;
    }
    None
}

/// The length of each table of a font file by its tag, as
/// `table_stats_from_records` tallies them from the file's table directory;
/// the error text of a file that cannot be read as a font.
pub fn table_stats(font: &[u8]) -> (r: Result<Vec<(String, usize)>, String>)
    ensures
        stats_view(r) == (match sfnt_table_records(font@) {
            Ok(recs) => Ok(tag_lengths(recs)),
            Err(e) => Err::<Seq<(Seq<char>, usize)>, Seq<char>>(e),
        }),
{
    table_stats_from_records(table_records(font))
}

/// Tallies table records into the length of each table by tag: one entry per
/// tag, in the order the tags first appear, a later record of a tag replacing
/// the length of an earlier one. An error passes through unchanged.
pub fn table_stats_from_records(records: Result<Vec<(String, u32)>, String>) -> (r: Result<Vec<(String, usize)>, String>)
    ensures
        stats_view(r) == (match records_view(records) {
            Ok(recs) => Ok(tag_lengths(recs)),
            Err(e) => Err::<Seq<(Seq<char>, usize)>, Seq<char>>(e),
        }),
{
    match records {
        Err(e) => Err(e),
        Ok(recs) => {
            let ghost rv = recs@.map_values(|e: (String, u32)| (e.0@, e.1));
            let mut out: Vec<(String, usize)> = Vec::new();
            let mut i: usize = 0;
            while i < recs.len()
                invariant
                    i <= recs.len(),
                    rv == recs@.map_values(|e: (String, u32)| (e.0@, e.1)),
                    out@.map_values(|e: (String, usize)| (e.0@, e.1)) == tag_lengths(rv.take(i as int)),
                decreases recs.len() - i,
            {
                let ghost ov = out@.map_values(|e: (String, usize)| (e.0@, e.1));
                let t = recs[i].0.clone();
                let l = recs[i].1;
                proof {
                    let p = rv.take(i as int + 1);
                    assert(p.drop_last() =~= rv.take(i as int));
                    assert(p.last() == (t@, l));
                    assert(rv[i as int] == (recs@[i as int].0@, recs@[i as int].1));
                    lemma_index_of_tag(ov, t@);
                }
                match find_tag(&out, &t) {
                    Some(j) => {
                        out.set(j, (t, l as usize));
                        assert(out@.map_values(|e: (String, usize)| (e.0@, e.1)) =~= ov.update(j as int, (recs@[i as int].0@, l as usize)));
                    },
                    None => {
                        out.push((t, l as usize));
                        assert(out@.map_values(|e: (String, usize)| (e.0@, e.1)) =~= ov.push((recs@[i as int].0@, l as usize)));
                    },
                }
                i = i + 1;
            }
            assert(rv.take(i as int) =~= rv);
            Ok(out)
        },
    }
}

} // verus!
