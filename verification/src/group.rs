//! Grouped-by-license mode (the default): records are gathered into groups
//! sharing one resolved license string, groups ordered lexicographically by
//! that string, records kept in first-seen input order within each group.

use crate::record::{
    authors_or_empty, duplicate_record, na_text, resolved_license, resolved_license_spec,
    views_of, DependencyRecord, RecordModel,
};
use crate::text::{
    dec_spec, join_strings, join_with, lemma_lex_lt_connex, lemma_lex_lt_irrefl, lemma_lex_lt_neq,
    lemma_lex_lt_trans, lex_lt, str_eq, str_lt, u64_to_dec,
};
use vstd::multiset::Multiset;
use vstd::prelude::*;
use vstd::seq_lib::lemma_flatten_concat;
use vstd::seq_lib::lemma_multiset_commutative;
use vstd::seq_lib::to_multiset_build;

verus! {

broadcast use vstd::multiset::group_multiset_axioms;

/// One license group: the shared license string and the member records in
/// first-seen input order.
pub struct LicenseGroup {
    pub license: String,
    pub members: Vec<DependencyRecord>,
}

/// Mathematical model of a [`LicenseGroup`].
#[verifier::ext_equal]
pub ghost struct GroupModel {
    pub license: Seq<char>,
    pub members: Seq<RecordModel>,
}

impl View for LicenseGroup {
    type V = GroupModel;

    open spec fn view(&self) -> GroupModel {
        GroupModel { license: self.license@, members: views_of(self.members@) }
    }
}

/// The models of a sequence of groups.
pub open spec fn group_views(gs: Seq<LicenseGroup>) -> Seq<GroupModel> {
    gs.map_values(|g: LicenseGroup| g@)
}

/// Groups stand in strictly ascending lexicographic order of license string.
pub open spec fn groups_sorted(gs: Seq<GroupModel>) -> bool {
    forall|i: int, j: int| 0 <= i < j < gs.len() ==> lex_lt(gs[i].license, gs[j].license)
}

/// The record renders with exactly this license string.
pub open spec fn has_license(m: RecordModel, lic: Seq<char>) -> bool {
    resolved_license_spec(m) == lic
}

/// The group holds exactly the records of `ms` carrying its license, in the
/// order `ms` gives them.
pub open spec fn group_is_filter(g: GroupModel, ms: Seq<RecordModel>) -> bool {
    g.members == ms.filter(|m: RecordModel| has_license(m, g.license))
}

/// Some group carries this license string.
pub open spec fn group_with(gs: Seq<GroupModel>, lic: Seq<char>) -> bool {
    exists|i: int| 0 <= i < gs.len() && (#[trigger] gs[i]).license == lic
}

/// Every record of `ms` has a group for its license.
pub open spec fn covers(gs: Seq<GroupModel>, ms: Seq<RecordModel>) -> bool {
    forall|k: int| 0 <= k < ms.len() ==> group_with(gs, resolved_license_spec(#[trigger] ms[k]))
}

/// All group members, group by group.
pub open spec fn all_members(gs: Seq<GroupModel>) -> Seq<RecordModel> {
    gs.map_values(|g: GroupModel| g.members).flatten()
}

proof fn lemma_singleton_flatten(x: Seq<RecordModel>)
    ensures
        seq![x].flatten() == x,
{
    assert(seq![x].drop_first() =~= Seq::<Seq<RecordModel>>::empty());
    assert(Seq::<Seq<RecordModel>>::empty().flatten() =~= Seq::<RecordModel>::empty());
    assert(seq![x].flatten() =~= x);
}

/// Inserting one more member list into the flattened whole adds exactly its
/// members, as multisets.
proof fn lemma_flatten_multiset_insert(ss: Seq<Seq<RecordModel>>, j: int, x: Seq<RecordModel>)
    requires
        0 <= j <= ss.len(),
    ensures
        ss.insert(j, x).flatten().to_multiset() == ss.flatten().to_multiset().add(x.to_multiset()),
{
    let a = ss.take(j);
    let b = ss.skip(j);
    assert(ss.insert(j, x) =~= a + (seq![x] + b));
    lemma_flatten_concat(a, seq![x] + b);
    lemma_flatten_concat(seq![x], b);
    lemma_singleton_flatten(x);
    assert(ss =~= a + b);
    lemma_flatten_concat(a, b);
    lemma_multiset_commutative(a.flatten(), (seq![x] + b).flatten());
    lemma_multiset_commutative(x, b.flatten());
    lemma_multiset_commutative(a.flatten(), b.flatten());
    assert(ss.insert(j, x).flatten().to_multiset() =~= ss.flatten().to_multiset().add(
        x.to_multiset(),
    ));
}

/// Appending one record to one member list adds exactly that record to the
/// flattened whole, as multisets.
proof fn lemma_flatten_multiset_update_push(ss: Seq<Seq<RecordModel>>, j: int, e: RecordModel)
    requires
        0 <= j < ss.len(),
    ensures
        ss.update(j, ss[j].push(e)).flatten().to_multiset() == ss.flatten().to_multiset().insert(
            e,
        ),
{
    let a = ss.take(j);
    let mid = ss[j];
    let b = ss.skip(j + 1);
    assert(ss =~= a + (seq![mid] + b));
    assert(ss.update(j, mid.push(e)) =~= a + (seq![mid.push(e)] + b));
    lemma_flatten_concat(a, seq![mid] + b);
    lemma_flatten_concat(seq![mid], b);
    lemma_singleton_flatten(mid);
    lemma_flatten_concat(a, seq![mid.push(e)] + b);
    lemma_flatten_concat(seq![mid.push(e)], b);
    lemma_singleton_flatten(mid.push(e));
    lemma_multiset_commutative(a.flatten(), (seq![mid] + b).flatten());
    lemma_multiset_commutative(mid, b.flatten());
    lemma_multiset_commutative(a.flatten(), (seq![mid.push(e)] + b).flatten());
    lemma_multiset_commutative(mid.push(e), b.flatten());
    to_multiset_build(mid, e);
    assert(ss.update(j, mid.push(e)).flatten().to_multiset() =~= ss.flatten().to_multiset().insert(
        e,
    ));
}

/// A record with no license identifier belongs to exactly the `N/A` group.
pub proof fn lemma_absent_license_group(m: RecordModel, lic: Seq<char>)
    requires
        m.license is None,
    ensures
        has_license(m, lic) <==> lic == na_text(),
{
}

/// Gathers the records into license groups: one group per distinct resolved
/// license string, groups in strictly ascending lexicographic order, each
/// group holding exactly the records carrying its license in first-seen
/// input order; taken together the groups hold every input record exactly
/// once (no record is lost or duplicated).
pub fn group_by_license(records: &Vec<DependencyRecord>) -> (groups: Vec<LicenseGroup>)
    ensures
        groups_sorted(group_views(groups@)),
        forall|i: int|
            0 <= i < groups@.len() ==> group_is_filter(
                #[trigger] group_views(groups@)[i],
                views_of(records@),
            ),
        covers(group_views(groups@), views_of(records@)),
        forall|i: int|
            0 <= i < groups@.len() ==> (#[trigger] group_views(groups@)[i]).members.len() > 0,
        all_members(group_views(groups@)).to_multiset() == views_of(records@).to_multiset(),
{
    let ghost rs = views_of(records@);
    let mut groups: Vec<LicenseGroup> = Vec::new();
    proof {
        assert(group_views(groups@) =~= Seq::<GroupModel>::empty());
        assert(group_views(groups@).map_values(|g: GroupModel| g.members)
            =~= Seq::<Seq<RecordModel>>::empty());
        assert(all_members(group_views(groups@)) =~= Seq::<RecordModel>::empty());
        assert(rs.take(0) =~= Seq::<RecordModel>::empty());
    }
    let mut idx: usize = 0;
    while idx < records.len()
        invariant
            idx <= records.len(),
            rs == views_of(records@),
            groups_sorted(group_views(groups@)),
            forall|i: int|
                0 <= i < groups@.len() ==> group_is_filter(
                    #[trigger] group_views(groups@)[i],
                    rs.take(idx as int),
                ),
            covers(group_views(groups@), rs.take(idx as int)),
            forall|i: int|
                0 <= i < groups@.len() ==> (#[trigger] group_views(groups@)[i]).members.len() > 0,
            all_members(group_views(groups@)).to_multiset() == rs.take(idx as int).to_multiset(),
        decreases records.len() - idx,
    {
        let rec = &records[idx];
        let lic = resolved_license(rec);
        let ghost m = rs[idx as int];
        proof {
            assert(m == rec@);
            assert(resolved_license_spec(m) == lic@);
        }
        let mut j: usize = 0;
        while j < groups.len() && str_lt(groups[j].license.as_str(), lic.as_str())
            invariant
                j <= groups@.len(),
                forall|t: int|
                    0 <= t < j ==> lex_lt(
                        (#[trigger] group_views(groups@)[t]).license,
                        lic@,
                    ),
            decreases groups@.len() - j,
        {
            j += 1;
        }
        let ghost oldgroups = groups@;
        let ghost gv = group_views(oldgroups);
        let ghost processed = rs.take(idx as int);
        let ghost pushed = rs.take(idx as int + 1);
        proof {
            assert(pushed =~= processed.push(m));
        }
        let found = j < groups.len() && str_eq(groups[j].license.as_str(), lic.as_str());
        let dup = duplicate_record(rec);
        if found {
            let mut g = groups.remove(j);
            g.members.push(dup);
            groups.insert(j, g);
            proof {
                let newgv = group_views(groups@);
                assert(groups@.len() == oldgroups.len());
                assert forall|i: int| 0 <= i < groups@.len() && i != j implies groups@[i]
                    == oldgroups[i] by {}
                assert(newgv.len() == gv.len());
                assert forall|i: int| 0 <= i < newgv.len() && i != j implies newgv[i]
                    == gv[i] by {}
                assert(newgv[j as int].license == gv[j as int].license);
                assert(newgv[j as int].members =~= gv[j as int].members.push(m));
                assert(gv[j as int].license == lic@);
                // order is untouched: the licenses are the same as before
                assert forall|p: int, q: int| 0 <= p < q < newgv.len() implies lex_lt(
                    newgv[p].license,
                    newgv[q].license,
                ) by {
                    assert(newgv[p].license == gv[p].license);
                    assert(newgv[q].license == gv[q].license);
                }
                // each group still filters the processed records
                assert forall|i: int| 0 <= i < newgv.len() implies group_is_filter(
                    #[trigger] newgv[i],
                    pushed,
                ) by {
                    let pred = |mm: RecordModel| has_license(mm, newgv[i].license);
                    processed.lemma_filter_push(m, pred);
                    assert(newgv[i].license == gv[i].license);
                    assert(group_is_filter(gv[i], processed));
                    if i == j {
                        assert(pred(m));
                        assert(pushed.filter(pred) == processed.filter(pred).push(m));
                    } else {
                        if i < j {
                            lemma_lex_lt_neq(gv[i].license, lic@);
                        } else {
                            assert(lex_lt(gv[j as int].license, gv[i].license));
                            lemma_lex_lt_neq(lic@, gv[i].license);
                        }
                        assert(!pred(m));
                    }
                }
                // every processed record still has a group
                assert forall|k: int| 0 <= k < pushed.len() implies group_with(
                    newgv,
                    resolved_license_spec(#[trigger] pushed[k]),
                ) by {
                    if k < idx {
                        assert(pushed[k] == processed[k]);
                        assert(group_with(gv, resolved_license_spec(processed[k])));
                        let w = choose|i: int|
                            0 <= i < gv.len() && (#[trigger] gv[i]).license
                                == resolved_license_spec(processed[k]);
                        assert(0 <= w < newgv.len() && newgv[w].license == resolved_license_spec(
                            pushed[k],
                        ));
                    } else {
                        assert(pushed[k] == m);
                        assert(newgv[j as int].license == resolved_license_spec(m));
                    }
                }
                // the record landed in exactly one group
                let mseqs_old = gv.map_values(|g: GroupModel| g.members);
                let mseqs_new = newgv.map_values(|g: GroupModel| g.members);
                assert(mseqs_new =~= mseqs_old.update(j as int, mseqs_old[j as int].push(m)));
                lemma_flatten_multiset_update_push(mseqs_old, j as int, m);
                to_multiset_build(processed, m);
                assert(all_members(newgv).to_multiset() == pushed.to_multiset());
            }
        } else {
            let mut members: Vec<DependencyRecord> = Vec::new();
            members.push(dup);
            groups.insert(j, LicenseGroup { license: lic, members });
            proof {
                let newgv = group_views(groups@);
                let gnew = GroupModel { license: lic@, members: seq![m] };
                assert(views_of(groups@[j as int].members@) =~= seq![m]);
                assert(newgv[j as int] =~= gnew);
                assert(newgv.len() == gv.len() + 1);
                assert forall|i: int| 0 <= i < newgv.len() && i != j implies newgv[i] == gv[
                    if i < j {
                        i
                    } else {
                        i - 1
                    }
                ] by {
                    assert(groups@[i] == oldgroups[if i < j { i } else { i - 1 }]);
                }
                // no earlier group carries this license, and the insertion
                // point respects the order
                if (j as int) < gv.len() {
                    assert(gv[j as int].license != lic@);
                    assert(!lex_lt(gv[j as int].license, lic@));
                    lemma_lex_lt_connex(gv[j as int].license, lic@);
                    assert(lex_lt(lic@, gv[j as int].license));
                }
                assert forall|i: int| 0 <= i < gv.len() implies gv[i].license != lic@ by {
                    if i < j {
                        lemma_lex_lt_neq(gv[i].license, lic@);
                    } else if i > j {
                        assert(lex_lt(gv[j as int].license, gv[i].license));
                        lemma_lex_lt_trans(lic@, gv[j as int].license, gv[i].license);
                        lemma_lex_lt_neq(lic@, gv[i].license);
                    }
                }
                // order: scan facts left of the insertion point, the connex
                // fact at it, transitivity beyond it
                assert forall|p: int, q: int| 0 <= p < q < newgv.len() implies lex_lt(
                    newgv[p].license,
                    newgv[q].license,
                ) by {
                    if q < j {
                        assert(newgv[p] == gv[p] && newgv[q] == gv[q]);
                    } else if p < j && q == j {
                        assert(newgv[p] == gv[p]);
                    } else if p < j && q > j {
                        assert(newgv[p] == gv[p] && newgv[q] == gv[q - 1]);
                        if q - 1 == p {
                            assert(false);
                        }
                    } else if p == j {
                        assert(newgv[q] == gv[q - 1]);
                        if q - 1 > j {
                            lemma_lex_lt_trans(
                                lic@,
                                gv[j as int].license,
                                gv[q - 1].license,
                            );
                        }
                    } else {
                        assert(newgv[p] == gv[p - 1] && newgv[q] == gv[q - 1]);
                    }
                }
                // filters: old groups are untouched by a record of a new
                // license; the new group picks up exactly that record
                assert forall|i: int| 0 <= i < newgv.len() implies group_is_filter(
                    #[trigger] newgv[i],
                    pushed,
                ) by {
                    let pred = |mm: RecordModel| has_license(mm, newgv[i].license);
                    processed.lemma_filter_push(m, pred);
                    if i == j {
                        assert(newgv[i].license == lic@);
                        assert forall|k: int| 0 <= k < processed.len() implies !(#[trigger] pred(
                            processed[k],
                        )) by {
                            if pred(processed[k]) {
                                assert(group_with(gv, resolved_license_spec(processed[k])));
                                let w = choose|t: int|
                                    0 <= t < gv.len() && (#[trigger] gv[t]).license
                                        == resolved_license_spec(processed[k]);
                                assert(gv[w].license == lic@);
                            }
                        }
                        assert(processed.all(|x: RecordModel| !pred(x)));
                        processed.lemma_all_neg_filter_empty(pred);
                        assert(processed.filter(pred) =~= Seq::<RecordModel>::empty());
                        assert(pred(m));
                        assert(pushed.filter(pred) =~= seq![m]);
                        assert(newgv[i].members == seq![m]);
                    } else {
                        let oi = if i < j {
                            i
                        } else {
                            i - 1
                        };
                        assert(newgv[i] == gv[oi]);
                        assert(group_is_filter(gv[oi], processed));
                        assert(gv[oi].license != lic@);
                        assert(!pred(m));
                    }
                }
                // coverage: old witnesses shift across the insertion point
                assert forall|k: int| 0 <= k < pushed.len() implies group_with(
                    newgv,
                    resolved_license_spec(#[trigger] pushed[k]),
                ) by {
                    if k < idx {
                        assert(pushed[k] == processed[k]);
                        assert(group_with(gv, resolved_license_spec(processed[k])));
                        let w = choose|i: int|
                            0 <= i < gv.len() && (#[trigger] gv[i]).license
                                == resolved_license_spec(processed[k]);
                        let w2 = if w < j {
                            w
                        } else {
                            w + 1
                        };
                        assert(0 <= w2 < newgv.len() && newgv[w2].license
                            == resolved_license_spec(pushed[k]));
                    } else {
                        assert(pushed[k] == m);
                        assert(newgv[j as int].license == resolved_license_spec(m));
                    }
                }
                // multisets: the new singleton group adds exactly the record
                let mseqs_old = gv.map_values(|g: GroupModel| g.members);
                let mseqs_new = newgv.map_values(|g: GroupModel| g.members);
                assert(mseqs_new =~= mseqs_old.insert(j as int, seq![m]));
                lemma_flatten_multiset_insert(mseqs_old, j as int, seq![m]);
                to_multiset_build(processed, m);
                assert(seq![m] =~= Seq::<RecordModel>::empty().push(m));
                to_multiset_build(Seq::<RecordModel>::empty(), m);
                assert(Seq::<RecordModel>::empty().to_multiset().len() == 0) by {
                    Seq::<RecordModel>::empty().to_multiset_ensures();
                }
                vstd::multiset::lemma_multiset_empty_len(
                    Seq::<RecordModel>::empty().to_multiset(),
                );
                assert(Seq::<RecordModel>::empty().to_multiset() =~= Multiset::<
                    RecordModel,
                >::empty());
                assert(all_members(newgv).to_multiset() =~= pushed.to_multiset());
            }
        }
        idx += 1;
    }
    proof {
        assert(rs.take(records@.len() as int) =~= rs);
    }
    groups
}

/// In strictly ascending lexicographic order, without duplicates.
pub open spec fn strs_sorted(s: Seq<Seq<char>>) -> bool {
    forall|p: int, q: int| 0 <= p < q < s.len() ==> lex_lt(s[p], s[q])
}

/// Inserts `x` into a sorted, duplicate-free sequence, keeping it so; an
/// entry already present is left alone.
pub open spec fn sorted_insert(s: Seq<Seq<char>>, x: Seq<char>) -> Seq<Seq<char>>
    decreases s.len(),
{
    if s.len() == 0 {
        seq![x]
    } else if lex_lt(x, s[0]) {
        seq![x] + s
    } else if x == s[0] {
        s
    } else {
        seq![s[0]] + sorted_insert(s.drop_first(), x)
    }
}

/// The distinct entries of `parts`, in ascending lexicographic order.
pub open spec fn sort_unique(parts: Seq<Seq<char>>) -> Seq<Seq<char>>
    decreases parts.len(),
{
    if parts.len() == 0 {
        Seq::empty()
    } else {
        sorted_insert(sort_unique(parts.drop_last()), parts.last())
    }
}

/// All the members' authors, member by member, in member order.
pub open spec fn authors_concat(ms: Seq<RecordModel>) -> Seq<Seq<char>> {
    ms.map_values(|m: RecordModel| authors_or_empty(m)).flatten()
}

/// `sorted_insert` lands at the scan position: before the first entry not
/// below `x`, or nowhere when that entry is `x` itself.
proof fn lemma_sorted_insert_at(s: Seq<Seq<char>>, x: Seq<char>, j: int)
    requires
        strs_sorted(s),
        0 <= j <= s.len(),
        forall|t: int| 0 <= t < j ==> lex_lt(s[t], x),
        j < s.len() ==> !lex_lt(s[j], x),
    ensures
        sorted_insert(s, x) == if j < s.len() && s[j] == x {
            s
        } else {
            s.take(j) + seq![x] + s.skip(j)
        },
    decreases j,
{
    if j == 0 {
        if s.len() == 0 {
            assert(s.take(0) + seq![x] + s.skip(0) =~= seq![x]);
        } else if s[0] == x {
            lemma_lex_lt_irrefl(x);
        } else {
            lemma_lex_lt_connex(x, s[0]);
            assert(s.take(0) + seq![x] + s.skip(0) =~= seq![x] + s);
        }
    } else {
        assert(lex_lt(s[0], x));
        lemma_lex_lt_neq(s[0], x);
        if lex_lt(x, s[0]) {
            lemma_lex_lt_trans(x, s[0], x);
            lemma_lex_lt_irrefl(x);
        }
        let d = s.drop_first();
        assert forall|p: int, q: int| 0 <= p < q < d.len() implies lex_lt(d[p], d[q]) by {
            assert(d[p] == s[p + 1] && d[q] == s[q + 1]);
        }
        assert forall|t: int| 0 <= t < j - 1 implies lex_lt(d[t], x) by {
            assert(d[t] == s[t + 1]);
        }
        assert(j - 1 < d.len() ==> !lex_lt(d[j - 1], x)) by {
            if j - 1 < d.len() {
                assert(d[j - 1] == s[j]);
            }
        }
        lemma_sorted_insert_at(d, x, j - 1);
        if j < s.len() && s[j] == x {
            assert(d[j - 1] == x);
            assert(seq![s[0]] + d =~= s);
        } else {
            assert(seq![s[0]] + (d.take(j - 1) + seq![x] + d.skip(j - 1)) =~= s.take(j) + seq![x]
                + s.skip(j));
        }
    }
}

/// Inserts the author into a sorted duplicate-free list, keeping it so.
fn insert_author(list: Vec<String>, author: &String) -> (r: Vec<String>)
    requires
        strs_sorted(list.deep_view()),
    ensures
        r.deep_view() == sorted_insert(list.deep_view(), author@),
        strs_sorted(r.deep_view()),
{
    let ghost s = list.deep_view();
    let mut j: usize = 0;
    while j < list.len() && str_lt(list[j].as_str(), author.as_str())
        invariant
            j <= list@.len(),
            s == list.deep_view(),
            forall|t: int| 0 <= t < j ==> lex_lt(s[t], author@),
        decreases list@.len() - j,
    {
        proof {
            assert(s[j as int] == list@[j as int]@);
        }
        j += 1;
    }
    let present = j < list.len() && str_eq(list[j].as_str(), author.as_str());
    proof {
        assert(s.len() == list@.len());
        if (j as int) < s.len() {
            assert(s[j as int] == list@[j as int]@);
        }
        lemma_sorted_insert_at(s, author@, j as int);
    }
    let mut r = list;
    if !present {
        proof {
            if (j as int) < s.len() {
                lemma_lex_lt_connex(author@, s[j as int]);
            }
        }
        r.insert(j, author.clone());
        proof {
            assert(r.deep_view() =~= s.take(j as int) + seq![author@] + s.skip(j as int));
            let nv = r.deep_view();
            assert forall|p: int, q: int| 0 <= p < q < nv.len() implies lex_lt(nv[p], nv[q]) by {
                if q < j {
                    assert(nv[p] == s[p] && nv[q] == s[q]);
                } else if p < j && q == j {
                    assert(nv[p] == s[p]);
                } else if p < j && q > j {
                    assert(nv[p] == s[p] && nv[q] == s[q - 1]);
                    if q - 1 == p {
                        assert(false);
                    }
                } else if p == j {
                    assert(nv[q] == s[q - 1]);
                    if q - 1 > j {
                        lemma_lex_lt_trans(author@, s[j as int], s[q - 1]);
                    }
                } else {
                    assert(nv[p] == s[p - 1] && nv[q] == s[q - 1]);
                }
            }
        }
    } else {
        proof {
            assert(r.deep_view() == s);
        }
    }
    r
}

/// The deduplicated authors across the group's members, in ascending
/// lexicographic order.
pub fn group_authors(g: &LicenseGroup) -> (authors: Vec<String>)
    ensures
        authors.deep_view() == sort_unique(authors_concat(g@.members)),
        strs_sorted(authors.deep_view()),
{
    let mut authors: Vec<String> = Vec::new();
    let ghost ms = g@.members;
    proof {
        assert(ms.take(0).map_values(|m: RecordModel| authors_or_empty(m))
            =~= Seq::<Seq<Seq<char>>>::empty());
        assert(Seq::<Seq<Seq<char>>>::empty().flatten() =~= Seq::<Seq<char>>::empty());
        assert(authors.deep_view() =~= Seq::<Seq<char>>::empty());
    }
    let mut i: usize = 0;
    while i < g.members.len()
        invariant
            i <= g.members@.len(),
            ms == g@.members,
            authors.deep_view() == sort_unique(authors_concat(ms.take(i as int))),
            strs_sorted(authors.deep_view()),
        decreases g.members@.len() - i,
    {
        let mem = &g.members[i];
        let ghost mv = ms[i as int];
        let ghost base = authors_concat(ms.take(i as int));
        proof {
            assert(mv == mem@);
        }
        match &mem.authors {
            Some(list) => {
                let mut k: usize = 0;
                while k < list.len()
                    invariant
                        k <= list@.len(),
                        mv == mem@,
                        base == authors_concat(ms.take(i as int)),
                        authors_or_empty(mv) == list.deep_view(),
                        authors.deep_view() == sort_unique(
                            base + authors_or_empty(mv).take(k as int),
                        ),
                        strs_sorted(authors.deep_view()),
                    decreases list@.len() - k,
                {
                    proof {
                        let a = authors_or_empty(mv)[k as int];
                        let cur = base + authors_or_empty(mv).take(k as int);
                        let nxt = base + authors_or_empty(mv).take(k as int + 1);
                        assert(nxt =~= cur.push(a));
                        assert(cur.push(a).drop_last() =~= cur);
                        assert(sort_unique(nxt) == sorted_insert(sort_unique(cur), a));
                        assert(list@[k as int]@ == a);
                    }
                    authors = insert_author(authors, &list[k]);
                    k += 1;
                }
                proof {
                    assert(authors_or_empty(mv).take(list@.len() as int) =~= authors_or_empty(mv));
                }
            },
            None => {
                proof {
                    assert(authors_or_empty(mv) =~= Seq::<Seq<char>>::empty());
                    assert(base + authors_or_empty(mv) =~= base);
                }
            },
        }
        proof {
            let f = |m: RecordModel| authors_or_empty(m);
            assert(ms.take(i as int + 1) =~= ms.take(i as int).push(mv));
            assert(ms.take(i as int + 1).map_values(f) =~= ms.take(i as int).map_values(f).push(
                authors_or_empty(mv),
            ));
            ms.take(i as int).map_values(f).lemma_flatten_push(authors_or_empty(mv));
            assert(authors_concat(ms.take(i as int + 1)) =~= base + authors_or_empty(mv));
        }
        i += 1;
    }
    proof {
        assert(ms.take(g.members@.len() as int) =~= ms);
    }
    authors
}

/// The text block for one group: `license (count): names` without authors;
/// `license (count)`, the names, and `by ` with the deduplicated sorted
/// author list on lines of their own with them.
pub open spec fn block_spec(g: GroupModel, display_authors: bool) -> Seq<char> {
    let head = g.license + " ("@ + dec_spec(g.members.len()) + ")"@;
    let names = join_with(g.members.map_values(|m: RecordModel| m.name), ", "@);
    if display_authors {
        head + "\n"@ + names + "\nby "@ + join_with(
            sort_unique(authors_concat(g.members)),
            ", "@,
        )
    } else {
        head + ": "@ + names
    }
}

/// With author display off, the rendered block is the same whatever the
/// members' author lists hold.
pub proof fn lemma_block_ignores_authors(g1: GroupModel, g2: GroupModel)
    requires
        g1.license == g2.license,
        g1.members.len() == g2.members.len(),
        forall|i: int| 0 <= i < g1.members.len() ==> g1.members[i].name == g2.members[i].name,
    ensures
        block_spec(g1, false) == block_spec(g2, false),
{
    assert(g1.members.map_values(|m: RecordModel| m.name) =~= g2.members.map_values(
        |m: RecordModel| m.name,
    ));
}

/// The member names, in group order.
pub fn group_names(g: &LicenseGroup) -> (names: Vec<String>)
    ensures
        names.deep_view() == g@.members.map_values(|m: RecordModel| m.name),
{
    let mut names: Vec<String> = Vec::new();
    let mut i: usize = 0;
    while i < g.members.len()
        invariant
            i <= g.members@.len(),
            names@.len() == i,
            forall|t: int| 0 <= t < i ==> names@[t]@ == g@.members[t].name,
        decreases g.members@.len() - i,
    {
        names.push(g.members[i].name.clone());
        i += 1;
    }
    proof {
        assert(names.deep_view() =~= g@.members.map_values(|m: RecordModel| m.name));
    }
    names
}

/// Renders one group to its text block.
pub fn render_group(g: &LicenseGroup, display_authors: bool) -> (r: String)
    ensures
        r@ == block_spec(g@, display_authors),
{
    let mut r = g.license.clone();
    r.append(" (");
    let count = u64_to_dec(g.members.len() as u64);
    r.append(count.as_str());
    r.append(")");
    let names = group_names(g);
    let names_joined = join_strings(&names, ", ");
    if display_authors {
        r.append("\n");
        r.append(names_joined.as_str());
        r.append("\nby ");
        let authors = group_authors(g);
        let authors_joined = join_strings(&authors, ", ");
        r.append(authors_joined.as_str());
    } else {
        r.append(": ");
        r.append(names_joined.as_str());
    }
    proof {
        assert(r@ =~= block_spec(g@, display_authors));
    }
    r
}

} // verus!
