use vstd::prelude::*;
use vstd::multiset::Multiset;
use crate::passes::{collect_seq, margins_v, with_paths_seq, with_paths_v};
use crate::records::{
    component_of, components_of, field_of, first_dot, insert_sorted, path_lt, sort_components,
    spec_build, split_dots, str_lt, ComponentV, RecordV,
};
use crate::render::{block_width, spaces, srender_entry, srender_seq};
use crate::table::{table_fields, table_lines, trim_end_v, trim_lines_v};
use crate::tree::{
    depth_seq, depth_v, uniformize_entry, uniformize_seq, wrap_v, EntryV, FieldV,
};
use crate::value::{Align, DisplayKind, ValueV};

verus! {

broadcast use vstd::seq_lib::group_to_multiset_ensures;

pub proof fn lemma_str_lt_irrefl(a: Seq<char>)
    ensures
        !str_lt(a, a),
    decreases a.len(),
{
    if a.len() > 0 {
        lemma_str_lt_irrefl(a.drop_first());
    }
}

pub proof fn lemma_str_lt_connex(a: Seq<char>, b: Seq<char>)
    ensures
        str_lt(a, b) || str_lt(b, a) || a == b,
    decreases a.len(),
{
    if a.len() == 0 && b.len() == 0 {
        assert(a =~= b);
    } else if a.len() > 0 && b.len() > 0 {
        if a[0] == b[0] {
            lemma_str_lt_connex(a.drop_first(), b.drop_first());
            if a.drop_first() == b.drop_first() {
                assert(a =~= b) by {
                    assert(a.len() == b.len());
                    assert forall|i: int| 0 <= i < a.len() implies a[i] == b[i] by {
                        if i > 0 {
                            assert(a.drop_first()[i - 1] == a[i]);
                            assert(b.drop_first()[i - 1] == b[i]);
                        }
                    }
                }
            }
        } else {
            assert((a[0] as int) != (b[0] as int));
        }
    }
}

pub proof fn lemma_str_lt_trans(a: Seq<char>, b: Seq<char>, c: Seq<char>)
    requires
        str_lt(a, b),
        str_lt(b, c),
    ensures
        str_lt(a, c),
    decreases a.len(),
{
    if a.len() > 0 && b.len() > 0 && c.len() > 0 {
        if a[0] == b[0] && b[0] == c[0] {
            lemma_str_lt_trans(a.drop_first(), b.drop_first(), c.drop_first());
        }
    }
}

pub proof fn lemma_path_lt_irrefl(a: Seq<Seq<char>>)
    ensures
        !path_lt(a, a),
    decreases a.len(),
{
    if a.len() > 0 {
        lemma_path_lt_irrefl(a.drop_first());
    }
}

pub proof fn lemma_path_lt_connex(a: Seq<Seq<char>>, b: Seq<Seq<char>>)
    ensures
        path_lt(a, b) || path_lt(b, a) || a == b,
    decreases a.len(),
{
    if a.len() == 0 && b.len() == 0 {
        assert(a =~= b);
    } else if a.len() > 0 && b.len() > 0 {
        if a[0] == b[0] {
            lemma_path_lt_connex(a.drop_first(), b.drop_first());
            if a.drop_first() == b.drop_first() {
                assert(a =~= b) by {
                    assert(a.len() == b.len());
                    assert forall|i: int| 0 <= i < a.len() implies a[i] == b[i] by {
                        if i > 0 {
                            assert(a.drop_first()[i - 1] == a[i]);
                            assert(b.drop_first()[i - 1] == b[i]);
                        }
                    }
                }
            }
        } else {
            lemma_str_lt_connex(a[0], b[0]);
        }
    }
}

pub proof fn lemma_path_lt_trans(a: Seq<Seq<char>>, b: Seq<Seq<char>>, c: Seq<Seq<char>>)
    requires
        path_lt(a, b),
        path_lt(b, c),
    ensures
        path_lt(a, c),
    decreases a.len(),
{
    if a.len() > 0 && b.len() > 0 && c.len() > 0 {
        if a[0] == b[0] && b[0] == c[0] {
            lemma_path_lt_trans(a.drop_first(), b.drop_first(), c.drop_first());
        } else if a[0] == b[0] {
            assert(str_lt(b[0], c[0]));
        } else if b[0] == c[0] {
            assert(str_lt(a[0], b[0]));
        } else {
            lemma_str_lt_trans(a[0], b[0], c[0]);
            if a[0] == c[0] {
                lemma_str_lt_irrefl(a[0]);
            }
        }
    }
}

/// The components stand in non-decreasing path order.
pub open spec fn sorted_comps(s: Seq<ComponentV>) -> bool {
    forall|i: int, j: int| 0 <= i < j < s.len() ==> !path_lt(#[trigger] s[j].path, #[trigger] s[i].path)
}

/// No two components share a full path.
pub open spec fn distinct_paths(s: Seq<ComponentV>) -> bool {
    forall|i: int, j: int|
        0 <= i < j < s.len() ==> (#[trigger] s[i].path) != (#[trigger] s[j].path)
}

pub proof fn lemma_cons_multiset(x: ComponentV, s: Seq<ComponentV>)
    ensures
        (seq![x] + s).to_multiset() == s.to_multiset().insert(x),
{
    let w = seq![x] + s;
    assert(w.remove(0) =~= s);
    assert(w.remove(0).to_multiset() =~= w.to_multiset().remove(w[0]));
    assert(w.contains(x)) by {
        assert(w[0] == x);
    }
    assert(w.to_multiset().count(x) > 0);
    assert(w.to_multiset().remove(x).insert(x) =~= w.to_multiset());
    assert(s.to_multiset().insert(x) =~= w.to_multiset());
}

pub proof fn lemma_insert_sorted_multiset(c: ComponentV, s: Seq<ComponentV>)
    ensures
        insert_sorted(c, s).to_multiset() == s.to_multiset().insert(c),
    decreases s.len(),
{
    if s.len() == 0 {
        assert(insert_sorted(c, s) =~= seq![c] + Seq::<ComponentV>::empty());
        lemma_cons_multiset(c, Seq::<ComponentV>::empty());
        assert(Seq::<ComponentV>::empty().to_multiset() =~= Multiset::<ComponentV>::empty());
        assert(s.to_multiset() =~= Multiset::<ComponentV>::empty());
    } else if path_lt(c.path, s[0].path) {
        lemma_cons_multiset(c, s);
    } else {
        lemma_insert_sorted_multiset(c, s.drop_first());
        lemma_cons_multiset(s[0], insert_sorted(c, s.drop_first()));
        lemma_cons_multiset(s[0], s.drop_first());
        assert(seq![s[0]] + s.drop_first() =~= s);
        assert(insert_sorted(c, s).to_multiset() =~= s.to_multiset().insert(c)) by {
            assert(insert_sorted(c, s).to_multiset() == s.drop_first().to_multiset().insert(
                c,
            ).insert(s[0]));
            assert(s.to_multiset() == s.drop_first().to_multiset().insert(s[0]));
        }
    }
}

pub proof fn lemma_sort_multiset(s: Seq<ComponentV>)
    ensures
        sort_components(s).to_multiset() == s.to_multiset(),
    decreases s.len(),
{
    if s.len() > 0 {
        lemma_sort_multiset(s.drop_last());
        lemma_insert_sorted_multiset(s.last(), sort_components(s.drop_last()));
        assert(s.drop_last().push(s.last()) =~= s);
        assert(s.drop_last().push(s.last()).to_multiset() == s.drop_last().to_multiset().insert(
            s.last(),
        ));
    }
}

pub proof fn lemma_insert_sorted_sorted(c: ComponentV, s: Seq<ComponentV>)
    requires
        sorted_comps(s),
    ensures
        sorted_comps(insert_sorted(c, s)),
    decreases s.len(),
{
    let r = insert_sorted(c, s);
    if s.len() == 0 {
        assert forall|i: int, j: int| 0 <= i < j < r.len() implies !path_lt(
            #[trigger] r[j].path,
            #[trigger] r[i].path,
        ) by {}
    } else if path_lt(c.path, s[0].path) {
        assert(r =~= seq![c] + s);
        assert forall|i: int, j: int| 0 <= i < j < r.len() implies !path_lt(
            #[trigger] r[j].path,
            #[trigger] r[i].path,
        ) by {
            if i == 0 {
                assert(r[j] == s[j - 1]);
                if path_lt(s[j - 1].path, c.path) {
                    lemma_path_lt_trans(s[j - 1].path, c.path, s[0].path);
                    if j - 1 == 0 {
                        lemma_path_lt_irrefl(s[0].path);
                    } else {
                        assert(!path_lt(s[j - 1].path, s[0].path));
                    }
                }
            } else {
                assert(r[i] == s[i - 1] && r[j] == s[j - 1]);
            }
        }
    } else {
        assert(sorted_comps(s.drop_first())) by {
            assert forall|i: int, j: int| 0 <= i < j < s.drop_first().len() implies !path_lt(
                #[trigger] s.drop_first()[j].path,
                #[trigger] s.drop_first()[i].path,
            ) by {
                assert(s.drop_first()[i] == s[i + 1]);
                assert(s.drop_first()[j] == s[j + 1]);
            }
        }
        lemma_insert_sorted_sorted(c, s.drop_first());
        let rr = insert_sorted(c, s.drop_first());
        assert(r =~= seq![s[0]] + rr);
        lemma_path_lt_connex(c.path, s[0].path);
        assert forall|i: int, j: int| 0 <= i < j < r.len() implies !path_lt(
            #[trigger] r[j].path,
            #[trigger] r[i].path,
        ) by {
            if i == 0 {
                assert(r[j] == rr[j - 1]);
                crate::laws::lemma_insert_elements_path(c, s.drop_first(), j - 1);
                if rr[j - 1] == c {
                    if path_lt(c.path, s[0].path) {
                    } else {
                        lemma_path_lt_irrefl(s[0].path);
                        if path_lt(rr[j - 1].path, s[0].path) {
                            if c.path == s[0].path {
                            } else {
                                lemma_path_lt_trans(c.path, s[0].path, c.path);
                                lemma_path_lt_irrefl(c.path);
                            }
                        }
                    }
                } else {
                    let k = choose|k: int|
                        0 <= k < s.drop_first().len() && rr[j - 1] == s.drop_first()[k];
                    assert(s.drop_first()[k] == s[k + 1]);
                    assert(!path_lt(s[k + 1].path, s[0].path));
                }
            } else {
                assert(r[i] == rr[i - 1] && r[j] == rr[j - 1]);
            }
        }
    }
}

/// `insert_sorted` only rearranges: every element is the inserted one or
/// one of the run.
pub proof fn lemma_insert_elements_path(c: ComponentV, s: Seq<ComponentV>, i: int)
    requires
        0 <= i < insert_sorted(c, s).len(),
    ensures
        insert_sorted(c, s)[i] == c || exists|j: int|
            0 <= j < s.len() && insert_sorted(c, s)[i] == s[j],
    decreases s.len(),
{
    crate::records::lemma_insert_elements(c, s, i);
}

pub proof fn lemma_sort_sorted(s: Seq<ComponentV>)
    ensures
        sorted_comps(sort_components(s)),
    decreases s.len(),
{
    if s.len() > 0 {
        lemma_sort_sorted(s.drop_last());
        lemma_insert_sorted_sorted(s.last(), sort_components(s.drop_last()));
    }
}

/// Two sorted runs with the same measurements and no repeated path are
/// one and the same.
pub proof fn lemma_sorted_unique(s1: Seq<ComponentV>, s2: Seq<ComponentV>)
    requires
        sorted_comps(s1),
        sorted_comps(s2),
        distinct_paths(s1),
        distinct_paths(s2),
        s1.to_multiset() == s2.to_multiset(),
    ensures
        s1 == s2,
    decreases s1.len(),
{
    assert(s1.len() == s2.len()) by {
        assert(s1.to_multiset().len() == s1.len());
        assert(s2.to_multiset().len() == s2.len());
    }
    if s1.len() == 0 {
        assert(s1 =~= s2);
    } else {
        assert(s2.contains(s1[0])) by {
            assert(s1.contains(s1[0]));
            assert(s1.to_multiset().count(s1[0]) > 0);
        }
        assert(s1.contains(s2[0])) by {
            assert(s2.contains(s2[0]));
            assert(s2.to_multiset().count(s2[0]) > 0);
        }
        let j = choose|j: int| 0 <= j < s2.len() && s2[j] == s1[0];
        let k = choose|k: int| 0 <= k < s1.len() && s1[k] == s2[0];
        assert(!path_lt(s1[0].path, s2[0].path)) by {
            if j > 0 {
                assert(!path_lt(s2[j].path, s2[0].path));
            } else {
                lemma_path_lt_irrefl(s1[0].path);
            }
        }
        assert(!path_lt(s2[0].path, s1[0].path)) by {
            if k > 0 {
                assert(!path_lt(s1[k].path, s1[0].path));
            } else {
                lemma_path_lt_irrefl(s2[0].path);
            }
        }
        lemma_path_lt_connex(s1[0].path, s2[0].path);
        assert(s1[0].path == s2[0].path);
        assert(j == 0) by {
            if j > 0 {
                assert(s2[0].path != s2[j].path);
            }
        }
        assert(s1[0] == s2[0]);
        let t1 = s1.drop_first();
        let t2 = s2.drop_first();
        assert(s1.remove(0) =~= t1);
        assert(s2.remove(0) =~= t2);
        assert(t1.to_multiset() == t2.to_multiset()) by {
            assert(s1.remove(0).to_multiset() =~= s1.to_multiset().remove(s1[0]));
            assert(s2.remove(0).to_multiset() =~= s2.to_multiset().remove(s2[0]));
        }
        assert(sorted_comps(t1) && distinct_paths(t1)) by {
            assert forall|i: int, l: int| 0 <= i < l < t1.len() implies !path_lt(
                #[trigger] t1[l].path,
                #[trigger] t1[i].path,
            ) && t1[i].path != t1[l].path by {
                assert(t1[i] == s1[i + 1]);
                assert(t1[l] == s1[l + 1]);
            }
        }
        assert(sorted_comps(t2) && distinct_paths(t2)) by {
            assert forall|i: int, l: int| 0 <= i < l < t2.len() implies !path_lt(
                #[trigger] t2[l].path,
                #[trigger] t2[i].path,
            ) && t2[i].path != t2[l].path by {
                assert(t2[i] == s2[i + 1]);
                assert(t2[l] == s2[l + 1]);
            }
        }
        lemma_sorted_unique(t1, t2);
        assert(s1 =~= s2) by {
            assert forall|i: int| 0 <= i < s1.len() implies s1[i] == s2[i] by {
                if i > 0 {
                    assert(t1[i - 1] == s1[i]);
                    assert(t2[i - 1] == s2[i]);
                }
            }
        }
    }
}

/// The parsed measurements of two snapshots with one measurement set.
pub proof fn lemma_components_multiset(rs1: Seq<RecordV>, rs2: Seq<RecordV>)
    requires
        rs1.to_multiset() == rs2.to_multiset(),
    ensures
        components_of(rs1).to_multiset() == components_of(rs2).to_multiset(),
    decreases rs1.len(),
{
    broadcast use vstd::seq_lib::group_to_multiset_ensures;

    assert(rs1.len() == rs2.len()) by {
        assert(rs1.to_multiset().len() == rs1.len());
        assert(rs2.to_multiset().len() == rs2.len());
    }
    if rs1.len() == 0 {
        assert(components_of(rs1) =~= components_of(rs2));
    } else {
        let x = rs1[0];
        assert(rs2.contains(x)) by {
            assert(rs1.contains(x));
            assert(rs1.to_multiset().count(x) > 0);
        }
        let j = choose|j: int| 0 <= j < rs2.len() && rs2[j] == x;
        let r1 = rs1.remove(0);
        let r2 = rs2.remove(j);
        assert(rs1.remove(0).to_multiset() =~= rs1.to_multiset().remove(x));
        assert(rs2.remove(j).to_multiset() =~= rs2.to_multiset().remove(x));
        lemma_components_multiset(r1, r2);
        assert(components_of(r1) =~= components_of(rs1).remove(0)) by {
            assert forall|i: int| 0 <= i < r1.len() implies components_of(r1)[i] == components_of(
                rs1,
            ).remove(0)[i] by {
                assert(r1[i] == rs1[i + 1]);
                assert(components_of(rs1).remove(0)[i] == components_of(rs1)[i + 1]);
            }
        }
        assert(components_of(r2) =~= components_of(rs2).remove(j)) by {
            assert forall|i: int| 0 <= i < r2.len() implies components_of(r2)[i] == components_of(
                rs2,
            ).remove(j)[i] by {
                if i < j {
                    assert(r2[i] == rs2[i]);
                    assert(components_of(rs2).remove(j)[i] == components_of(rs2)[i]);
                } else {
                    assert(r2[i] == rs2[i + 1]);
                    assert(components_of(rs2).remove(j)[i] == components_of(rs2)[i + 1]);
                }
            }
        }
        let cx = component_of(x);
        let m1 = components_of(rs1).to_multiset();
        let m2 = components_of(rs2).to_multiset();
        assert(components_of(rs1).remove(0).to_multiset() =~= m1.remove(components_of(rs1)[0]));
        assert(components_of(rs2).remove(j).to_multiset() =~= m2.remove(components_of(rs2)[j]));
        assert(components_of(rs1)[0] == cx);
        assert(components_of(rs2)[j] == cx);
        assert(m1.remove(cx) == m2.remove(cx));
        assert(m1.count(cx) > 0) by {
            assert(components_of(rs1).contains(cx));
        }
        assert(m2.count(cx) > 0) by {
            assert(components_of(rs2).contains(cx));
        }
        assert(m1 =~= m2) by {
            assert forall|y: ComponentV| true implies m1.count(y) == m2.count(y) by {
                if y == cx {
                    assert(m1.remove(cx).count(cx) == m1.count(cx) - 1);
                    assert(m2.remove(cx).count(cx) == m2.count(cx) - 1);
                } else {
                    assert(m1.remove(cx).count(y) == m1.count(y));
                    assert(m2.remove(cx).count(y) == m2.count(y));
                }
            }
        }
    }
}

/// Rebuilding the table from an unchanged measurement set produces
/// byte-identical header text and an identical field index: the layout
/// depends only on which measurements are present, not on the order the
/// snapshot lists them in.  Paths must be distinct within each snapshot,
/// as they are for any one measurement registry.
pub proof fn lemma_rebuild_identical(rs1: Seq<RecordV>, rs2: Seq<RecordV>)
    requires
        rs1.to_multiset() == rs2.to_multiset(),
        distinct_paths(components_of(rs1)),
        distinct_paths(components_of(rs2)),
    ensures
        crate::records::table_entries_of(rs1) == crate::records::table_entries_of(rs2),
        table_lines(crate::records::table_entries_of(rs1)) == table_lines(
            crate::records::table_entries_of(rs2),
        ),
        table_fields(crate::records::table_entries_of(rs1)) == table_fields(
            crate::records::table_entries_of(rs2),
        ),
{
    lemma_components_multiset(rs1, rs2);
    let c1 = components_of(rs1);
    let c2 = components_of(rs2);
    lemma_sort_sorted(c1);
    lemma_sort_sorted(c2);
    lemma_sort_multiset(c1);
    lemma_sort_multiset(c2);
    assert(distinct_paths(sort_components(c1))) by {
        lemma_sorted_distinct(c1);
    }
    assert(distinct_paths(sort_components(c2))) by {
        lemma_sorted_distinct(c2);
    }
    lemma_sorted_unique(sort_components(c1), sort_components(c2));
}

/// Sorting keeps paths distinct.
pub proof fn lemma_sorted_distinct(s: Seq<ComponentV>)
    requires
        distinct_paths(s),
    ensures
        distinct_paths(sort_components(s)),
{
    lemma_sort_multiset(s);
    let r = sort_components(s);
    assert forall|i: int, j: int| 0 <= i < j < r.len() implies (#[trigger] r[i].path) != (
    #[trigger] r[j].path) by {
        if r[i].path == r[j].path {
            if r[i] == r[j] {
                lemma_dup_count(r, i, j);
                assert(r.to_multiset().count(r[i]) >= 2);
                lemma_multiset_distinct(s, r[i]);
            } else {
                assert(r.contains(r[i]));
                assert(r.to_multiset().count(r[i]) > 0);
                assert(s.to_multiset().count(r[i]) > 0);
                assert(s.contains(r[i]));
                let a = choose|a: int| 0 <= a < s.len() && s[a] == r[i];
                let r1 = r.remove(i);
                assert(r.remove(i).to_multiset() =~= r.to_multiset().remove(r[i]));
                assert(r1[j - 1] == r[j]);
                assert(r1.contains(r[j]));
                assert(r1.to_multiset().count(r[j]) > 0);
                assert(r.to_multiset().count(r[j]) > 0);
                assert(s.to_multiset().count(r[j]) > 0);
                assert(s.contains(r[j]));
                let b = choose|b: int| 0 <= b < s.len() && s[b] == r[j];
                assert(a != b);
                if a < b {
                    assert(s[a].path != s[b].path);
                } else {
                    assert(s[b].path != s[a].path);
                }
            }
        }
    }
}

/// A sequence with a repeated element counts it at least twice.
pub proof fn lemma_dup_count(r: Seq<ComponentV>, i: int, j: int)
    requires
        0 <= i < j < r.len(),
        r[i] == r[j],
    ensures
        r.to_multiset().count(r[i]) >= 2,
{
    let r1 = r.remove(j);
    assert(r.remove(j).to_multiset() =~= r.to_multiset().remove(r[j]));
    assert(r1[i] == r[i]);
    assert(r1.contains(r[i]));
    assert(r1.to_multiset().count(r[i]) > 0);
}

/// In a path-distinct run, no element occurs twice.
pub proof fn lemma_multiset_distinct(s: Seq<ComponentV>, x: ComponentV)
    requires
        distinct_paths(s),
    ensures
        s.to_multiset().count(x) <= 1,
{
    if s.to_multiset().count(x) >= 2 {
        assert(s.contains(x));
        let i = choose|i: int| 0 <= i < s.len() && s[i] == x;
        let s1 = s.remove(i);
        assert(s.remove(i).to_multiset() =~= s.to_multiset().remove(s[i]));
        assert(s1.to_multiset().count(x) > 0);
        assert(s1.contains(x));
        let j = choose|j: int| 0 <= j < s1.len() && s1[j] == x;
        if j < i {
            assert(s1[j] == s[j]);
            assert(s[j].path == s[i].path);
        } else {
            assert(s1[j] == s[j + 1]);
            assert(s[j + 1].path == s[i].path);
        }
    }
}

/// The field names of a run of single-segment components.
pub open spec fn names_of(cs: Seq<ComponentV>) -> Seq<Seq<char>> {
    Seq::new(cs.len(), |i: int| cs[i].path[0])
}

/// Names joined by single spaces.
pub open spec fn join_sp(ns: Seq<Seq<char>>) -> Seq<char>
    decreases ns.len(),
{
    if ns.len() == 0 {
        Seq::empty()
    } else if ns.len() == 1 {
        ns[0]
    } else {
        ns[0] + seq![' '] + join_sp(ns.drop_first())
    }
}

/// A run in which every path is a single segment.
pub open spec fn all_flat(cs: Seq<ComponentV>) -> bool {
    forall|i: int| 0 <= i < cs.len() ==> (#[trigger] cs[i].path).len() == 1
}

pub proof fn lemma_build_flat(cs: Seq<ComponentV>)
    requires
        all_flat(cs),
    ensures
        spec_build(cs, 0) == Seq::new(cs.len(), |i: int| EntryV::Field(field_of(cs[i], 0))),
    decreases cs.len(),
{
    if cs.len() > 0 {
        assert(cs[0].path.len() == 1);
        assert forall|i: int| 0 <= i < cs.drop_first().len() implies (#[trigger] cs.drop_first()[
            i
        ].path).len() == 1 by {
            assert(cs.drop_first()[i] == cs[i + 1]);
        }
        lemma_build_flat(cs.drop_first());
        assert(spec_build(cs, 0) =~= Seq::new(
            cs.len(),
            |i: int| EntryV::Field(field_of(cs[i], 0)),
        )) by {
            assert(spec_build(cs, 0) == seq![EntryV::Field(field_of(cs[0], 0))] + spec_build(
                cs.drop_first(),
                0,
            ));
            assert(forall|i: int|
                0 <= i < cs.drop_first().len() ==> #[trigger] spec_build(cs.drop_first(), 0)[i]
                    == EntryV::Field(field_of(cs.drop_first()[i], 0)));
            assert(forall|i: int| 0 <= i < cs.drop_first().len() ==> cs.drop_first()[i] == cs[i
                + 1]);
        }
    } else {
        assert(spec_build(cs, 0) =~= Seq::new(
            cs.len(),
            |i: int| EntryV::Field(field_of(cs[i], 0)),
        ));
    }
}

/// A forest of fields is one level deep.
pub proof fn lemma_depth_flat(es: Seq<EntryV>)
    requires
        forall|i: int| 0 <= i < es.len() ==> (#[trigger] es[i]) is Field,
        es.len() > 0,
    ensures
        depth_seq(es) == 1,
    decreases es.len(),
{
    if es.len() > 1 {
        assert forall|i: int| 0 <= i < es.drop_last().len() implies (#[trigger] es.drop_last()[
            i
        ]) is Field by {
            assert(es.drop_last()[i] == es[i]);
        }
        lemma_depth_flat(es.drop_last());
    } else {
        assert(es.drop_last().len() == 0);
        assert(depth_seq(es.drop_last()) == 0);
    }
    assert(es.last() is Field);
    assert(depth_v(es.last()) == 1);
}

/// Rendering a one-line forest of name-wide fields yields the names joined
/// by single spaces, and leaves the fields unchanged.
pub proof fn lemma_render_flat(es: Seq<EntryV>)
    requires
        es.len() > 0,
        forall|i: int|
            0 <= i < es.len() ==> (#[trigger] es[i]) is Field && es[i]->Field_0.len
                == es[i]->Field_0.name.len(),
    ensures
        srender_seq(es, 1).0 == es,
        srender_seq(es, 1).1 == seq![
            join_sp(Seq::new(es.len(), |i: int| es[i]->Field_0.name)),
        ],
    decreases es.len(),
{
    let ns = Seq::new(es.len(), |i: int| es[i]->Field_0.name);
    let f0 = es[0]->Field_0;
    assert(srender_entry(es[0], 1).0 == es[0]);
    assert(srender_entry(es[0], 1).1 == seq![f0.name + spaces(0)]);
    assert(f0.name + spaces(0) =~= f0.name);
    if es.len() == 1 {
        assert(srender_seq(es, 1).0 =~= seq![es[0]]);
        assert(srender_seq(es, 1).0 =~= es);
        assert(srender_seq(es, 1).1 =~= seq![ns[0]]);
        assert(join_sp(ns) == ns[0]);
    } else {
        assert forall|i: int| 0 <= i < es.drop_first().len() implies (#[trigger] es.drop_first()[
            i
        ]) is Field && es.drop_first()[i]->Field_0.len == es.drop_first()[i]->Field_0.name.len()
            by {
            assert(es.drop_first()[i] == es[i + 1]);
        }
        lemma_render_flat(es.drop_first());
        let nsr = Seq::new(es.drop_first().len(), |i: int| es.drop_first()[i]->Field_0.name);
        assert(nsr =~= ns.drop_first());
        let b = srender_entry(es[0], 1).1;
        let brest = srender_seq(es.drop_first(), 1).1;
        assert(brest == seq![join_sp(ns.drop_first())]);
        let joined = crate::render::hjoin2(
            crate::render::hjoin2(b, crate::render::sep_block(1)),
            brest,
        );
        assert(srender_seq(es, 1).1 == joined);
        assert(joined.len() == 1);
        assert(crate::render::sep_block(1)[0] == crate::render::sep_col(1));
        assert(joined[0] == (b[0] + seq![' ']) + brest[0]);
        assert(joined[0] =~= ns[0] + seq![' '] + join_sp(ns.drop_first()));
        assert(joined =~= seq![join_sp(ns)]);
        assert(srender_seq(es, 1).0 =~= seq![es[0]] + srender_seq(es.drop_first(), 1).0);
        assert(srender_seq(es, 1).0 =~= es);
    }
}

/// The last character of a space-join is the last name's last character.
pub proof fn lemma_join_last(ns: Seq<Seq<char>>)
    requires
        ns.len() > 0,
        ns.last().len() > 0,
    ensures
        join_sp(ns).len() > 0,
        join_sp(ns).last() == ns.last().last(),
    decreases ns.len(),
{
    if ns.len() > 1 {
        assert(ns.drop_first().last() == ns.last());
        lemma_join_last(ns.drop_first());
    }
}

/// Collecting a forest of fields yields exactly those fields.
pub proof fn lemma_collect_flat(es: Seq<EntryV>)
    requires
        forall|i: int| 0 <= i < es.len() ==> (#[trigger] es[i]) is Field,
    ensures
        collect_seq(es) == Seq::new(es.len(), |i: int| es[i]->Field_0),
    decreases es.len(),
{
    if es.len() > 0 {
        assert forall|i: int| 0 <= i < es.drop_last().len() implies (#[trigger] es.drop_last()[
            i
        ]) is Field by {
            assert(es.drop_last()[i] == es[i]);
        }
        lemma_collect_flat(es.drop_last());
        assert(crate::passes::collect_v(es.last()) == seq![es.last()->Field_0]);
        assert(collect_seq(es) =~= Seq::new(es.len(), |i: int| es[i]->Field_0)) by {
            assert(collect_seq(es) == collect_seq(es.drop_last()) + crate::passes::collect_v(
                es.last(),
            ));
            assert(forall|i: int| 0 <= i < es.len() - 1 ==> es.drop_last()[i] == es[i]);
        }
    } else {
        assert(collect_seq(es) =~= Seq::new(es.len(), |i: int| es[i]->Field_0));
    }
}

/// With flat names (no dots in any name, no name empty or ending in a
/// space), the header is a single line: the names joined by single spaces
/// in sorted order.  Every field starts exactly as wide as its name, with
/// no margin, and its full path is its own name alone, so a matching row
/// lays each value into a column of its name's width.
pub proof fn lemma_flat_header(rs: Seq<RecordV>)
    requires
        rs.len() > 0,
        forall|i: int| 0 <= i < rs.len() ==> (#[trigger] rs[i].name).len() > 0,
        forall|i: int, k: int|
            0 <= i < rs.len() && 0 <= k < rs[i].name.len() ==> (#[trigger] rs[i].name[k]) != '.',
        forall|i: int| 0 <= i < rs.len() ==> (#[trigger] rs[i].name).last() != ' ',
    ensures
        ({
            let sorted = sort_components(components_of(rs));
            let ns = names_of(sorted);
            &&& table_lines(crate::records::table_entries_of(rs)) == seq![join_sp(ns)]
            &&& sorted_comps(sorted)
            &&& sorted.to_multiset() == components_of(rs).to_multiset()
            &&& table_fields(crate::records::table_entries_of(rs)) == Seq::new(
                rs.len(),
                |i: int|
                    FieldV {
                        name: ns[i],
                        full_path: seq![ns[i]],
                        len: ns[i].len(),
                        margin_left: 0,
                        align: if sorted[i].display_kind is Histogram {
                            Align::Left
                        } else {
                            Align::Right
                        },
                        display_kind: sorted[i].display_kind,
                        last_value: ValueV::Int(0),
                    },
            )
        }),
{
    broadcast use vstd::seq_lib::group_to_multiset_ensures;

    let cs = components_of(rs);
    assert forall|i: int| 0 <= i < cs.len() implies (#[trigger] cs[i].path).len() == 1 && cs[
        i
    ].path[0] == rs[i].name by {
        lemma_first_dot_none(rs[i].name);
        assert(split_dots(rs[i].name) == seq![rs[i].name]);
        assert(cs[i] == component_of(rs[i]));
    }
    let sorted = sort_components(cs);
    lemma_sort_sorted(cs);
    lemma_sort_multiset(cs);
    assert(sorted.len() == cs.len()) by {
        assert(sorted.to_multiset().len() == sorted.len());
        assert(cs.to_multiset().len() == cs.len());
    }
    assert forall|i: int| 0 <= i < sorted.len() implies (#[trigger] sorted[i].path).len() == 1 && (
    exists|j: int| 0 <= j < rs.len() && sorted[i].path[0] == rs[j].name) by {
        assert(sorted.contains(sorted[i]));
        assert(sorted.to_multiset().count(sorted[i]) > 0);
        assert(cs.to_multiset().count(sorted[i]) > 0);
        assert(cs.contains(sorted[i]));
        let j = choose|j: int| 0 <= j < cs.len() && cs[j] == sorted[i];
        assert(cs[j].path.len() == 1 && cs[j].path[0] == rs[j].name);
    }
    let ns = names_of(sorted);
    lemma_build_flat(sorted);
    let es = spec_build(sorted, 0);
    assert(es.len() == sorted.len());
    assert forall|i: int| 0 <= i < es.len() implies (#[trigger] es[i]) is Field && es[
        i
    ]->Field_0 == field_of(sorted[i], 0) by {
        assert(es[i] == EntryV::Field(field_of(sorted[i], 0)));
    }
    lemma_depth_flat(es);
    assert(depth_seq(es) == 1);
    let u = uniformize_seq(es, 1);
    crate::tree::lemma_uniformize_seq(es, 1);
    assert forall|i: int| 0 <= i < es.len() implies #[trigger] u[i] == es[i] by {
        assert(u[i] == uniformize_entry(es[i], 1));
        assert(depth_v(es[i]) == 1);
        assert(crate::tree::uniformize_core(es[i]) == es[i]);
        assert(uniformize_entry(es[i], 1) == wrap_v(es[i], 0));
    }
    assert(u =~= es);
    let p = with_paths_seq(es, Seq::empty());
    crate::passes::lemma_with_paths_seq(es, Seq::empty());
    assert forall|i: int| 0 <= i < es.len() implies (#[trigger] p[i]) is Field && p[i]->Field_0
        == FieldV { full_path: seq![ns[i]], ..field_of(sorted[i], 0) } by {
        assert(p[i] == with_paths_v(es[i], Seq::empty()));
        assert(p[i]->Field_0 =~= FieldV { full_path: seq![ns[i]], ..field_of(sorted[i], 0) }) by {
            assert(Seq::<Seq<char>>::empty().push(field_of(sorted[i], 0).name) =~= seq![ns[i]]);
        }
    }
    assert forall|i: int| 0 <= i < p.len() implies (#[trigger] p[i]) is Field && p[
        i
    ]->Field_0.len == p[i]->Field_0.name.len() by {}
    lemma_render_flat(p);
    let lines = srender_seq(p, 1).1;
    let pn = Seq::new(p.len(), |i: int| p[i]->Field_0.name);
    assert(pn =~= ns);
    assert(lines == seq![join_sp(ns)]);
    assert forall|i: int| 0 <= i < ns.len() implies (#[trigger] ns[i]).len() > 0 && ns[i].last()
        != ' ' by {
        let j = choose|j: int| 0 <= j < rs.len() && sorted[i].path[0] == rs[j].name;
        assert(ns[i] == rs[j].name);
    }
    lemma_join_last(ns);
    assert(trim_end_v(join_sp(ns)) == join_sp(ns));
    assert(table_lines(crate::records::table_entries_of(rs)) =~= seq![join_sp(ns)]) by {
        assert(table_lines(crate::records::table_entries_of(rs)) == trim_lines_v(lines));
        assert(trim_lines_v(lines).len() == 1);
        assert(trim_lines_v(lines)[0] == trim_end_v(join_sp(ns)));
    }
    let tr = srender_seq(p, 1).0;
    assert(tr == p);
    lemma_collect_flat(p);
    let fs = collect_seq(p);
    assert(fs.len() == rs.len());
    assert forall|i: int| 0 <= i < fs.len() implies #[trigger] margins_v(fs)[i] == fs[i] by {
        if i > 0 {
            assert(fs[i - 1] == p[i - 1]->Field_0);
            assert(fs[i] == p[i]->Field_0);
            assert(fs[i - 1].full_path.len() == 1);
            assert(fs[i].full_path.len() == 1);
        }
    }
    assert(table_fields(crate::records::table_entries_of(rs)) =~= Seq::new(
        rs.len(),
        |i: int|
            FieldV {
                name: ns[i],
                full_path: seq![ns[i]],
                len: ns[i].len(),
                margin_left: 0,
                align: if sorted[i].display_kind is Histogram {
                    Align::Left
                } else {
                    Align::Right
                },
                display_kind: sorted[i].display_kind,
                last_value: ValueV::Int(0),
            },
    )) by {
        assert forall|i: int| 0 <= i < rs.len() implies margins_v(fs)[i] == FieldV {
            name: ns[i],
            full_path: seq![ns[i]],
            len: ns[i].len(),
            margin_left: 0,
            align: if sorted[i].display_kind is Histogram {
                Align::Left
            } else {
                Align::Right
            },
            display_kind: sorted[i].display_kind,
            last_value: ValueV::Int(0),
        } by {
            assert(fs[i] == p[i]->Field_0);
            assert(margins_v(fs)[i] == fs[i]);
        }
    }
}

/// Column growth is monotonic and permanent: after showing any value, a
/// field's column is at least as wide as before and at least as wide as
/// the text it showed, so a column that once widened never shrinks back.
pub proof fn lemma_growth_monotonic(f: FieldV, v: ValueV)
    requires
        f.len <= usize::MAX,
        crate::table::cell_text(f, v).len() <= usize::MAX,
    ensures
        crate::table::field_after(f, v).len >= f.len,
        crate::table::field_after(f, v).len >= crate::table::cell_text(f, v).len(),
{
}

/// A name with no dot is one whole segment.
pub proof fn lemma_first_dot_none(s: Seq<char>)
    requires
        forall|k: int| 0 <= k < s.len() ==> s[k] != '.',
    ensures
        split_dots(s) == seq![s],
{
    crate::records::lemma_first_dot(s);
}

} // verus!
