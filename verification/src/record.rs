//! The dependency record: one resolved package as the metadata resolver
//! reports it, together with its mathematical model.

use vstd::prelude::*;

verus! {

/// One resolved package. The resolver produces these; the formatting layer
/// only reads them.
pub struct DependencyRecord {
    /// Package name; non-empty by convention, but nothing here relies on it.
    pub name: String,
    /// Version, treated as opaque text.
    pub version: String,
    /// Provenance description; may be empty.
    pub source: String,
    /// License identifier, when the resolver could determine one.
    pub license: Option<String>,
    /// Bundled license texts; absent is distinct from present-but-empty.
    pub license_texts: Option<Vec<String>>,
    /// Author list; absent is treated as empty at formatting time.
    pub authors: Option<Vec<String>>,
}

/// Mathematical model of a [`DependencyRecord`].
#[verifier::ext_equal]
pub ghost struct RecordModel {
    pub name: Seq<char>,
    pub version: Seq<char>,
    pub source: Seq<char>,
    pub license: Option<Seq<char>>,
    pub license_texts: Option<Seq<Seq<char>>>,
    pub authors: Option<Seq<Seq<char>>>,
}

impl View for DependencyRecord {
    type V = RecordModel;

    open spec fn view(&self) -> RecordModel {
        RecordModel {
            name: self.name@,
            version: self.version@,
            source: self.source@,
            license: match self.license {
                Some(l) => Some(l@),
                None => None,
            },
            license_texts: match self.license_texts {
                Some(ts) => Some(ts.deep_view()),
                None => None,
            },
            authors: match self.authors {
                Some(a) => Some(a.deep_view()),
                None => None,
            },
        }
    }
}

/// The models of a sequence of records.
pub open spec fn views_of(rs: Seq<DependencyRecord>) -> Seq<RecordModel> {
    rs.map_values(|r: DependencyRecord| r@)
}

/// The placeholder shown wherever a license or a license text is absent.
pub open spec fn na_text() -> Seq<char> {
    "N/A"@
}

/// The license string a record renders with: its identifier when present,
/// else the placeholder.
pub open spec fn resolved_license_spec(m: RecordModel) -> Seq<char> {
    match m.license {
        Some(l) => l,
        None => na_text(),
    }
}

/// The author list a record renders with: absent is read as empty.
pub open spec fn authors_or_empty(m: RecordModel) -> Seq<Seq<char>> {
    match m.authors {
        Some(a) => a,
        None => Seq::empty(),
    }
}

/// A record with no license identifier renders its license field as the
/// literal placeholder, in every mode; the modes all resolve the field
/// through [`resolved_license_spec`].
pub proof fn lemma_absent_license_is_na(m: RecordModel)
    requires
        m.license is None,
    ensures
        resolved_license_spec(m) == na_text(),
{
}

/// The license field the record renders with.
pub fn resolved_license(rec: &DependencyRecord) -> (r: String)
    ensures
        r@ == resolved_license_spec(rec@),
{
    match &rec.license {
        Some(l) => l.clone(),
        None => String::from_str("N/A"),
    }
}

/// A fresh copy of a list of strings, equal to the original view for view.
fn copy_strings(v: &Vec<String>) -> (r: Vec<String>)
    ensures
        r.deep_view() == v.deep_view(),
{
    let mut r: Vec<String> = Vec::new();
    let mut i: usize = 0;
    while i < v.len()
        invariant
            i <= v.len(),
            r@.len() == i,
            forall|k: int| 0 <= k < i ==> r@[k]@ == v@[k]@,
        decreases v.len() - i,
    {
        r.push(v[i].clone());
        i += 1;
    }
    proof {
        assert(r.deep_view() =~= v.deep_view());
    }
    r
}

/// A fresh record with the same model.
pub fn duplicate_record(rec: &DependencyRecord) -> (r: DependencyRecord)
    ensures
        r@ == rec@,
{
    let r = DependencyRecord {
        name: rec.name.clone(),
        version: rec.version.clone(),
        source: rec.source.clone(),
        license: match &rec.license {
            Some(l) => Some(l.clone()),
            None => None,
        },
        license_texts: match &rec.license_texts {
            Some(ts) => Some(copy_strings(ts)),
            None => None,
        },
        authors: match &rec.authors {
            Some(a) => Some(copy_strings(a)),
            None => None,
        },
    };
    proof {
        assert(r@ =~= rec@);
    }
    r
}

} // verus!
