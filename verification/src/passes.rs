use vstd::prelude::*;
use crate::tree::{
    depth_seq, depth_v, entries_v, entry_v, fields_v, lemma_depth_in, lemma_entries_v,
    lemma_take_step, strs_v, DisplayInfo, Entry, EntryV, Field, FieldV,
};
use crate::value::Value;

verus! {

/// Every field's `full_path` filled in: the names of the enclosing groups,
/// outermost first, followed by the field's own name.
pub open spec fn with_paths_v(e: EntryV, prefix: Seq<Seq<char>>) -> EntryV
    decreases e, 0nat,
{
    match e {
        EntryV::Group(name, entries) => EntryV::Group(
            name,
            with_paths_seq(entries, prefix.push(name)),
        ),
        EntryV::Field(f) => EntryV::Field(FieldV { full_path: prefix.push(f.name), ..f }),
    }
}

pub open spec fn with_paths_seq(es: Seq<EntryV>, prefix: Seq<Seq<char>>) -> Seq<EntryV>
    decreases es, 1nat,
{
    if es.len() == 0 {
        Seq::empty()
    } else {
        with_paths_seq(es.drop_last(), prefix).push(with_paths_v(es.last(), prefix))
    }
}

pub proof fn lemma_with_paths_seq(es: Seq<EntryV>, prefix: Seq<Seq<char>>)
    ensures
        with_paths_seq(es, prefix).len() == es.len(),
        forall|i: int|
            0 <= i < es.len() ==> with_paths_seq(es, prefix)[i] == with_paths_v(es[i], prefix),
    decreases es,
{
    if es.len() > 0 {
        lemma_with_paths_seq(es.drop_last(), prefix);
    }
}

/// All fields of the tree, in rendered left-to-right order.
pub open spec fn collect_v(e: EntryV) -> Seq<FieldV>
    decreases e, 0nat,
{
    match e {
        EntryV::Group(_, entries) => collect_seq(entries),
        EntryV::Field(f) => seq![f],
    }
}

pub open spec fn collect_seq(es: Seq<EntryV>) -> Seq<FieldV>
    decreases es, 1nat,
{
    if es.len() == 0 {
        Seq::empty()
    } else {
        collect_seq(es.drop_last()) + collect_v(es.last())
    }
}

/// The enclosing-group part of a path: everything before the last segment.
pub open spec fn group_of(p: Seq<Seq<char>>) -> Seq<Seq<char>> {
    if p.len() == 0 {
        p
    } else {
        p.drop_last()
    }
}

/// The left margin of a field whose predecessor is `prev`: two spaces when
/// a group boundary lies between them.
pub open spec fn margin_rule(prev: FieldV, cur: FieldV) -> nat {
    if (prev.full_path.len() >= 2 || cur.full_path.len() >= 2) && group_of(prev.full_path)
        != group_of(cur.full_path) {
        2
    } else {
        cur.margin_left
    }
}

/// The fields with group-separation margins applied.
pub open spec fn margins_v(fs: Seq<FieldV>) -> Seq<FieldV> {
    Seq::new(
        fs.len(),
        |i: int|
            if i == 0 {
                fs[i]
            } else {
                FieldV { margin_left: margin_rule(fs[i - 1], fs[i]), ..fs[i] }
            },
    )
}

/// Clone of a path with one more segment appended.
#[verifier::loop_isolation(false)]
pub fn push_cloned(prefix: &Vec<String>, s: &String) -> (r: Vec<String>)
    ensures
        strs_v(r@) == strs_v(prefix@).push(s@),
{
    let mut r: Vec<String> = Vec::new();
    let mut i: usize = 0;
    while i < prefix.len()
        invariant
            i <= prefix@.len(),
            r@.len() == i,
            forall|j: int| 0 <= j < i ==> r@[j] == prefix@[j],
        decreases prefix@.len() - i,
    {
        let e: &String = &prefix[i];
        r.push(e.clone());
        i += 1;
    }
    r.push(s.clone());
    proof {
        assert(strs_v(r@) =~= strs_v(prefix@).push(s@));
    }
    r
}

/// Clone of a path.
#[verifier::loop_isolation(false)]
pub fn clone_path(p: &Vec<String>) -> (r: Vec<String>)
    ensures
        strs_v(r@) == strs_v(p@),
{
    let mut r: Vec<String> = Vec::new();
    let mut i: usize = 0;
    while i < p.len()
        invariant
            i <= p@.len(),
            r@.len() == i,
            forall|j: int| 0 <= j < i ==> r@[j] == p@[j],
        decreases p@.len() - i,
    {
        let e: &String = &p[i];
        r.push(e.clone());
        i += 1;
    }
    proof {
        assert(strs_v(r@) =~= strs_v(p@));
    }
    r
}

/// Copy of a value.
pub fn clone_value(v: &Value) -> (r: Value)
    ensures
        r == *v,
{
    match v {
        Value::Int(x) => Value::Int(*x),
        Value::Text(s) => Value::Text(s.clone()),
    }
}

/// Copy of a field.
pub fn clone_field(f: &Field) -> (r: Field)
    ensures
        r@ == f@,
{
    let r = Field {
        name: f.name.clone(),
        full_path: clone_path(&f.full_path),
        display: DisplayInfo {
            len: f.display.len,
            margin_left: f.display.margin_left,
            align: f.display.align,
            display_kind: f.display.display_kind,
        },
        last_value: clone_value(&f.last_value),
    };
    proof {
        assert(r@ =~= f@);
    }
    r
}

/// Fill every field's `full_path` from the group names above it.
#[verifier::loop_isolation(false)]
pub fn set_paths(entries: Vec<Entry>, prefix: &Vec<String>, d: usize) -> (r: Vec<Entry>)
    requires
        depth_seq(entries_v(entries@)) <= d as nat,
    ensures
        entries_v(r@) == with_paths_seq(entries_v(entries@), strs_v(prefix@)),
    decreases d,
{
    let ghost es0 = entries_v(entries@);
    let ghost p = strs_v(prefix@);
    proof {
        lemma_entries_v(entries@);
        lemma_with_paths_seq(es0, p);
    }
    let mut rest = entries;
    let mut out: Vec<Entry> = Vec::new();
    while rest.len() > 0
        invariant
            rest@.len() + out@.len() == es0.len(),
            forall|j: int| 0 <= j < rest@.len() ==> entry_v(rest@[j]) == es0[out@.len() + j],
            forall|j: int| 0 <= j < out@.len() ==> entry_v(out@[j]) == with_paths_v(es0[j], p),
        decreases rest@.len(),
    {
        let ghost i = out@.len() as int;
        let ghost prev = rest@;
        let e = rest.remove(0);
        let ghost ev = entry_v(e);
        proof {
            assert(rest@ =~= prev.drop_first());
            assert(ev == es0[i]);
            lemma_depth_in(es0, i);
        }
        let e2: Entry = match e {
            Entry::Field(f) => {
                let mut f2 = f;
                f2.full_path = push_cloned(prefix, &f2.name);
                Entry::Field(f2)
            },
            Entry::Group(name, children) => {
                let ghost chv = entries_v(children@);
                proof {
                    assert(depth_v(ev) == 1 + depth_seq(chv));
                }
                let child_prefix = push_cloned(prefix, &name);
                let newc = set_paths(children, &child_prefix, d - 1);
                Entry::Group(name, newc)
            },
        };
        proof {
            assert(entry_v(e2) =~= with_paths_v(ev, p));
        }
        out.push(e2);
    }
    proof {
        lemma_entries_v(out@);
        assert(entries_v(out@) =~= with_paths_seq(es0, p));
    }
    out
}

/// Flatten the tree into its fields, left to right.
#[verifier::loop_isolation(false)]
pub fn collect_fields(entries: Vec<Entry>, d: usize) -> (r: Vec<Field>)
    requires
        depth_seq(entries_v(entries@)) <= d as nat,
    ensures
        fields_v(r@) == collect_seq(entries_v(entries@)),
    decreases d,
{
    let ghost es0 = entries_v(entries@);
    proof {
        lemma_entries_v(entries@);
    }
    let mut rest = entries;
    let mut out: Vec<Field> = Vec::new();
    while rest.len() > 0
        invariant
            rest@.len() <= es0.len(),
            rest@.len() + (es0.len() - rest@.len()) == es0.len(),
            forall|j: int|
                0 <= j < rest@.len() ==> entry_v(rest@[j]) == es0[es0.len() - rest@.len() + j],
            fields_v(out@) == collect_seq(es0.take(es0.len() - rest@.len())),
        decreases rest@.len(),
    {
        let ghost i = es0.len() - rest@.len();
        let ghost prev = rest@;
        let e = rest.remove(0);
        let ghost ev = entry_v(e);
        proof {
            assert(rest@ =~= prev.drop_first());
            assert(ev == es0[i]);
            lemma_depth_in(es0, i);
            lemma_take_step(es0, i);
        }
        match e {
            Entry::Field(f) => {
                let ghost fv = f@;
                out.push(f);
                proof {
                    assert(collect_v(ev) =~= seq![fv]);
                    assert(fields_v(out@) =~= collect_seq(es0.take(i + 1)));
                }
            },
            Entry::Group(_, children) => {
                let ghost chv = entries_v(children@);
                proof {
                    assert(depth_v(ev) == 1 + depth_seq(chv));
                }
                let mut sub = collect_fields(children, d - 1);
                out.append(&mut sub);
                proof {
                    assert(collect_v(ev) == collect_seq(chv));
                    assert(fields_v(out@) =~= collect_seq(es0.take(i + 1)));
                }
            },
        }
    }
    proof {
        assert(es0.take(es0.len() as int) =~= es0);
    }
    out
}

/// True when the two paths name different enclosing groups.
#[verifier::loop_isolation(false)]
pub fn differs_in_group(a: &Vec<String>, b: &Vec<String>) -> (r: bool)
    ensures
        r == (group_of(strs_v(a@)) != group_of(strs_v(b@))),
{
    let ga: usize = if a.len() == 0 {
        0
    } else {
        a.len() - 1
    };
    let gb: usize = if b.len() == 0 {
        0
    } else {
        b.len() - 1
    };
    if ga != gb {
        return true;
    }
    let mut j: usize = 0;
    while j < ga
        invariant
            j <= ga,
            ga == gb,
            ga as int == group_of(strs_v(a@)).len(),
            gb as int == group_of(strs_v(b@)).len(),
            forall|k: int| 0 <= k < j ==> group_of(strs_v(a@))[k] == group_of(strs_v(b@))[k],
        decreases ga - j,
    {
        if !(a[j] == b[j]) {
            proof {
                assert(group_of(strs_v(a@))[j as int] != group_of(strs_v(b@))[j as int]);
            }
            return true;
        }
        j += 1;
    }
    proof {
        assert(group_of(strs_v(a@)) =~~= group_of(strs_v(b@)));
    }
    false
}

/// Bake a two-space margin into every field that starts a new group.
#[verifier::loop_isolation(false)]
pub fn add_padding(fields: Vec<Field>) -> (r: Vec<Field>)
    ensures
        fields_v(r@) == margins_v(fields_v(fields@)),
{
    let ghost fs = fields_v(fields@);
    let mut out: Vec<Field> = Vec::new();
    let mut i: usize = 0;
    while i < fields.len()
        invariant
            i <= fields@.len(),
            out@.len() == i,
            forall|j: int| 0 <= j < i ==> fields_v(out@)[j] == margins_v(fs)[j],
        decreases fields@.len() - i,
    {
        let mut f2 = clone_field(&fields[i]);
        if i > 0 {
            let cond = fields[i - 1].full_path.len() >= 2 || fields[i].full_path.len() >= 2;
            if cond && differs_in_group(&fields[i - 1].full_path, &fields[i].full_path) {
                f2.display.margin_left = 2;
            }
        }
        proof {
            assert(fields_v(out@.push(f2))[i as int] == f2@);
            assert(f2@ =~= margins_v(fs)[i as int]);
        }
        out.push(f2);
        i += 1;
    }
    proof {
        assert(fields_v(out@) =~= margins_v(fs));
    }
    out
}

} // verus!
