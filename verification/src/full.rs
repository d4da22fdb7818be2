//! Full-license-listing mode: a header row, then one row per
//! (record, license text) pair.

use crate::record::{
    na_text, resolved_license, resolved_license_spec, views_of, DependencyRecord, RecordModel,
};
use vstd::prelude::*;

verus! {

/// One row of the full listing.
pub struct FullRow {
    pub library: String,
    pub license: String,
    pub license_text: String,
}

/// Mathematical model of a [`FullRow`].
#[verifier::ext_equal]
pub ghost struct RowModel {
    pub library: Seq<char>,
    pub license: Seq<char>,
    pub license_text: Seq<char>,
}

impl View for FullRow {
    type V = RowModel;

    open spec fn view(&self) -> RowModel {
        RowModel { library: self.library@, license: self.license@, license_text: self.license_text@ }
    }
}

/// The models of a sequence of rows.
pub open spec fn row_views(rows: Seq<FullRow>) -> Seq<RowModel> {
    rows.map_values(|r: FullRow| r@)
}

/// The single placeholder row a record without any license text renders to.
pub open spec fn placeholder_row(m: RecordModel) -> RowModel {
    RowModel { library: m.name, license: resolved_license_spec(m), license_text: na_text() }
}

/// The rows one record contributes: one per bundled license text, or the
/// single placeholder row when it has none (whether the text list is absent
/// or present but empty).
pub open spec fn rows_of(m: RecordModel) -> Seq<RowModel> {
    match m.license_texts {
        Some(ts) => if ts.len() == 0 {
            seq![placeholder_row(m)]
        } else {
            ts.map_values(
                |t: Seq<char>|
                    RowModel {
                        library: m.name,
                        license: resolved_license_spec(m),
                        license_text: t,
                    },
            )
        },
        None => seq![placeholder_row(m)],
    }
}

/// The whole listing below the header, in input order.
pub open spec fn full_rows_spec(ms: Seq<RecordModel>) -> Seq<RowModel> {
    ms.map_values(|m: RecordModel| rows_of(m)).flatten()
}

/// A record without license texts contributes exactly one row, carrying the
/// placeholder in its license-text field.
pub proof fn lemma_absent_texts_single_row(m: RecordModel)
    requires
        m.license_texts is None,
    ensures
        rows_of(m).len() == 1,
        rows_of(m)[0].library == m.name,
        rows_of(m)[0].license == resolved_license_spec(m),
        rows_of(m)[0].license_text == na_text(),
{
}

/// A record with a present-but-empty text list contributes the same single
/// placeholder row as one with no text list at all.
pub proof fn lemma_empty_texts_single_row(m: RecordModel)
    requires
        m.license_texts is Some,
        m.license_texts->0.len() == 0,
    ensures
        rows_of(m) == seq![placeholder_row(m)],
{
}

/// Every row a record contributes carries that record's resolved license;
/// in particular a record with no license identifier shows the placeholder.
pub proof fn lemma_rows_carry_resolved_license(m: RecordModel)
    ensures
        forall|j: int| 0 <= j < rows_of(m).len() ==> rows_of(m)[j].license
            == resolved_license_spec(m),
{
}

/// A record with no license identifier contributes the same rows as one
/// whose license reads `N/A`: the placeholder stands in each row's license
/// field.
pub proof fn lemma_absent_license_rows(m: RecordModel)
    requires
        m.license is None,
    ensures
        rows_of(m) == rows_of(RecordModel { license: Some(na_text()), ..m }),
{
    assert(rows_of(m) =~= rows_of(RecordModel { license: Some(na_text()), ..m }));
}

/// One slot per bundled license text, and a single slot for a record
/// without any: `max(1, number of license texts)`.
pub open spec fn slot_count(m: RecordModel) -> nat {
    match m.license_texts {
        Some(ts) => if ts.len() == 0 {
            1
        } else {
            ts.len()
        },
        None => 1,
    }
}

/// The sum of `slot_count` over a record sequence.
pub open spec fn row_slots(ms: Seq<RecordModel>) -> nat
    decreases ms.len(),
{
    if ms.len() == 0 {
        0
    } else {
        row_slots(ms.drop_last()) + slot_count(ms.last())
    }
}

/// The full listing has exactly `max(1, number of license texts)` rows per
/// record.
pub proof fn lemma_full_row_count(ms: Seq<RecordModel>)
    ensures
        full_rows_spec(ms).len() == row_slots(ms),
    decreases ms.len(),
{
    if ms.len() == 0 {
        assert(ms.map_values(|m: RecordModel| rows_of(m)) =~= Seq::<Seq<RowModel>>::empty());
        assert(Seq::<Seq<RowModel>>::empty().flatten() =~= Seq::<RowModel>::empty());
    } else {
        let prefix = ms.drop_last();
        let m = ms.last();
        lemma_full_row_count(prefix);
        assert(ms =~= prefix.push(m));
        let f = |m: RecordModel| rows_of(m);
        assert(ms.map_values(f) =~= prefix.map_values(f).push(rows_of(m)));
        prefix.map_values(f).lemma_flatten_push(rows_of(m));
        assert(rows_of(m).len() == slot_count(m));
    }
}

/// The header row of the full listing.
pub fn full_header() -> (h: Vec<String>)
    ensures
        h.deep_view() == seq!["library"@, "license"@, "license-text"@],
{
    let mut h: Vec<String> = Vec::new();
    h.push(String::from_str("library"));
    h.push(String::from_str("license"));
    h.push(String::from_str("license-text"));
    proof {
        assert(h.deep_view() =~= seq!["library"@, "license"@, "license-text"@]);
    }
    h
}

/// Builds the full listing for the record sequence.
pub fn full_rows(records: &Vec<DependencyRecord>) -> (rows: Vec<FullRow>)
    ensures
        row_views(rows@) == full_rows_spec(views_of(records@)),
{
    let mut rows: Vec<FullRow> = Vec::new();
    let mut i: usize = 0;
    proof {
        assert(views_of(records@).take(0).map_values(|m: RecordModel| rows_of(m))
            =~= Seq::<Seq<RowModel>>::empty());
        assert(Seq::<Seq<RowModel>>::empty().flatten() =~= Seq::<RowModel>::empty());
        assert(row_views(rows@) =~= Seq::<RowModel>::empty());
    }
    while i < records.len()
        invariant
            i <= records.len(),
            row_views(rows@) == full_rows_spec(views_of(records@).take(i as int)),
        decreases records.len() - i,
    {
        let ghost ms = views_of(records@);
        let ghost m = ms[i as int];
        let ghost before = rows@;
        let rec = &records[i];
        let lic = resolved_license(rec);
        match &rec.license_texts {
            Some(ts) => {
                if ts.len() == 0 {
                    rows.push(
                        FullRow {
                            library: rec.name.clone(),
                            license: lic,
                            license_text: String::from_str("N/A"),
                        },
                    );
                    proof {
                        assert(row_views(rows@) =~= row_views(before) + rows_of(m));
                    }
                } else {
                    let mut k: usize = 0;
                    while k < ts.len()
                        invariant
                            k <= ts.len(),
                            ts@.len() > 0,
                            m == rec@,
                            lic@ == resolved_license_spec(m),
                            m.license_texts is Some,
                            ts.deep_view() == m.license_texts->0,
                            row_views(rows@) =~= row_views(before) + rows_of(m).take(k as int),
                        decreases ts.len() - k,
                    {
                        let ghost oldrows = rows@;
                        rows.push(
                            FullRow {
                                library: rec.name.clone(),
                                license: lic.clone(),
                                license_text: ts[k].clone(),
                            },
                        );
                        proof {
                            let x = rows@.last();
                            assert(rows_of(m).len() == ts.deep_view().len());
                            assert(x@ =~= rows_of(m)[k as int]);
                            assert(rows@ == oldrows.push(x));
                            assert(row_views(rows@) =~= row_views(oldrows).push(x@));
                            assert(rows_of(m).take(k + 1) =~= rows_of(m).take(k as int).push(
                                rows_of(m)[k as int],
                            ));
                            assert((row_views(before) + rows_of(m).take(k as int)).push(
                                rows_of(m)[k as int],
                            ) =~= row_views(before) + rows_of(m).take(k + 1));
                            assert(row_views(rows@) =~= row_views(before) + rows_of(m).take(
                                k + 1,
                            ));
                        }
                        k += 1;
                    }
                    proof {
                        assert(rows_of(m).take(ts.len() as int) =~= rows_of(m));
                    }
                }
            },
            None => {
                rows.push(
                    FullRow {
                        library: rec.name.clone(),
                        license: lic,
                        license_text: String::from_str("N/A"),
                    },
                );
                proof {
                    assert(row_views(rows@) =~= row_views(before) + rows_of(m));
                }
            },
        }
        proof {
            let f = |m: RecordModel| rows_of(m);
            assert(ms.take(i + 1) =~= ms.take(i as int).push(m));
            assert(ms.take(i + 1).map_values(f) =~= ms.take(i as int).map_values(f).push(
                rows_of(m),
            ));
            ms.take(i as int).map_values(f).lemma_flatten_push(rows_of(m));
            assert(row_views(rows@) =~= full_rows_spec(ms.take(i + 1)));
        }
        i += 1;
    }
    proof {
        assert(views_of(records@).take(records@.len() as int) =~= views_of(records@));
    }
    rows
}

} // verus!
