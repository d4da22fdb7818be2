//! One-license-per-line mode: one line per record, in input order.

use crate::record::{
    authors_or_empty, na_text, resolved_license, resolved_license_spec, DependencyRecord,
    RecordModel,
};
use crate::text::join_with;
use crate::text::join_strings;
use vstd::prelude::*;

verus! {

/// The line a record renders to:
/// `name: version, "license", source`, and, when authors are displayed,
/// `, by ` followed by the comma-joined author list.
pub open spec fn line_spec(m: RecordModel, display_authors: bool) -> Seq<char> {
    let base = m.name + ": "@ + m.version + ", \""@ + resolved_license_spec(m) + "\", "@
        + m.source;
    if display_authors {
        base + ", by "@ + join_with(authors_or_empty(m), ", "@)
    } else {
        base
    }
}

/// With author display off, the rendered line is the same whatever the
/// record's author list holds.
pub proof fn lemma_line_ignores_authors(m1: RecordModel, m2: RecordModel)
    requires
        m1.name == m2.name,
        m1.version == m2.version,
        m1.source == m2.source,
        m1.license == m2.license,
        m1.license_texts == m2.license_texts,
    ensures
        line_spec(m1, false) == line_spec(m2, false),
{
}

/// A record with no license identifier renders exactly as one whose license
/// reads `N/A`: the placeholder stands in the line's license field.
pub proof fn lemma_absent_license_line(m: RecordModel, display_authors: bool)
    requires
        m.license is None,
    ensures
        line_spec(m, display_authors) == line_spec(
            RecordModel { license: Some(na_text()), ..m },
            display_authors,
        ),
{
}

/// Renders one record to its line.
pub fn render_line(rec: &DependencyRecord, display_authors: bool) -> (r: String)
    ensures
        r@ == line_spec(rec@, display_authors),
{
    let mut r = rec.name.clone();
    r.append(": ");
    r.append(rec.version.as_str());
    r.append(", \"");
    let lic = resolved_license(rec);
    r.append(lic.as_str());
    r.append("\", ");
    r.append(rec.source.as_str());
    if display_authors {
        r.append(", by ");
        let joined = match &rec.authors {
            Some(authors) => join_strings(authors, ", "),
            None => String::new(),
        };
        r.append(joined.as_str());
    }
    proof {
        assert(r@ =~= line_spec(rec@, display_authors));
    }
    r
}

/// Renders the whole record sequence, one line per record, in input order.
pub fn render_lines(records: &Vec<DependencyRecord>, display_authors: bool) -> (lines: Vec<
    String,
>)
    ensures
        lines@.len() == records@.len(),
        forall|i: int|
            0 <= i < records@.len() ==> lines@[i]@ == line_spec(records@[i]@, display_authors),
{
    let mut lines: Vec<String> = Vec::new();
    let mut i: usize = 0;
    while i < records.len()
        invariant
            i <= records.len(),
            lines@.len() == i,
            forall|k: int| 0 <= k < i ==> lines@[k]@ == line_spec(records@[k]@, display_authors),
        decreases records.len() - i,
    {
        lines.push(render_line(&records[i], display_authors));
        i += 1;
    }
    lines
}

} // verus!
