use vstd::prelude::*;
use vstd::string::StringExecFns;
use crate::value::Align;
use crate::value::DisplayKind;
use crate::value::Value;
use crate::value::ValueV;

verus! {

/// Display state of one rendered column.
pub struct DisplayInfo {
    /// Width in characters that the column currently occupies.
    pub len: usize,
    /// Spaces inserted before the column in data rows, reproducing the
    /// visual rhythm of the header's group separators.
    pub margin_left: usize,
    pub align: Align,
    pub display_kind: DisplayKind,
}

/// A leaf of the layout tree: one rendered data column.
pub struct Field {
    pub name: String,
    /// The field's own name preceded by every enclosing group name,
    /// synthetic empty groups included.
    pub full_path: Vec<String>,
    pub display: DisplayInfo,
    /// The value shown by the previous render, used by `Difference`.
    pub last_value: Value,
}

/// A node of the layout tree: a labelled group of nodes, or a field.
pub enum Entry {
    Group(String, Vec<Entry>),
    Field(Field),
}

/// Mathematical model of a `Field`.
#[verifier::ext_equal]
pub struct FieldV {
    pub name: Seq<char>,
    pub full_path: Seq<Seq<char>>,
    pub len: nat,
    pub margin_left: nat,
    pub align: Align,
    pub display_kind: DisplayKind,
    pub last_value: ValueV,
}

/// Mathematical model of an `Entry`.
#[verifier::ext_equal]
pub enum EntryV {
    Group(Seq<char>, Seq<EntryV>),
    Field(FieldV),
}

/// Views of a sequence of strings.
pub open spec fn strs_v(ss: Seq<String>) -> Seq<Seq<char>> {
    Seq::new(ss.len(), |i: int| ss[i]@)
}

/// Views of a sequence of fields.
pub open spec fn fields_v(fs: Seq<Field>) -> Seq<FieldV> {
    Seq::new(fs.len(), |i: int| fs[i]@)
}

impl View for Field {
    type V = FieldV;

    open spec fn view(&self) -> FieldV {
        FieldV {
            name: self.name@,
            full_path: strs_v(self.full_path@),
            len: self.display.len as nat,
            margin_left: self.display.margin_left as nat,
            align: self.display.align,
            display_kind: self.display.display_kind,
            last_value: self.last_value@,
        }
    }
}

/// Model of an entry.
pub open spec fn entry_v(e: Entry) -> EntryV
    decreases e,
{
    match e {
        Entry::Group(name, entries) => EntryV::Group(name@, entries_v(entries@)),
        Entry::Field(f) => EntryV::Field(f@),
    }
}

/// Models of a sequence of entries.
pub open spec fn entries_v(es: Seq<Entry>) -> Seq<EntryV>
    decreases es,
{
    if es.len() == 0 {
        Seq::empty()
    } else {
        entries_v(es.drop_last()).push(entry_v(es.last()))
    }
}

pub proof fn lemma_entries_v(es: Seq<Entry>)
    ensures
        entries_v(es).len() == es.len(),
        forall|i: int| 0 <= i < es.len() ==> entries_v(es)[i] == entry_v(es[i]),
    decreases es,
{
    if es.len() > 0 {
        lemma_entries_v(es.drop_last());
    }
}

/// Number of header lines a node occupies: one for each nesting level.
pub open spec fn depth_v(e: EntryV) -> nat
    decreases e,
{
    match e {
        EntryV::Group(_, entries) => 1 + depth_seq(entries),
        EntryV::Field(_) => 1,
    }
}

/// The maximum depth over a forest; the number of header lines.
pub open spec fn depth_seq(es: Seq<EntryV>) -> nat
    decreases es,
{
    if es.len() == 0 {
        0
    } else {
        let dr = depth_seq(es.drop_last());
        let dl = depth_v(es.last());
        if dl >= dr {
            dl
        } else {
            dr
        }
    }
}

pub proof fn lemma_depth_in(es: Seq<EntryV>, i: int)
    requires
        0 <= i < es.len(),
    ensures
        depth_v(es[i]) <= depth_seq(es),
    decreases es,
{
    if i < es.len() - 1 {
        lemma_depth_in(es.drop_last(), i);
    }
}

pub open spec fn uniform_entry(e: EntryV, d: int) -> bool
    decreases e, 0nat,
{
    match e {
        EntryV::Field(_) => d == 1,
        EntryV::Group(_, entries) => d >= 1 && uniform_depth(entries, d - 1),
    }
}

/// A forest in which every leaf lies at the same distance `d` from the root.
pub open spec fn uniform_depth(es: Seq<EntryV>, d: int) -> bool
    decreases es, 1nat,
{
    forall|i: int| #![trigger es[i]] 0 <= i < es.len() ==> uniform_entry(es[i], d)
}

/// A group over a uniform forest is itself uniform, one level deeper.
pub proof fn lemma_group_uniform(name: Seq<char>, es: Seq<EntryV>, d: int)
    requires
        d >= 0,
        uniform_depth(es, d),
    ensures
        uniform_entry(EntryV::Group(name, es), d + 1),
{
    let g = EntryV::Group(name, es);
    assert(g->Group_1 == es);
}

/// `e` wrapped in `k` synthetic anonymous groups.
pub open spec fn wrap_v(e: EntryV, k: nat) -> EntryV
    decreases k,
{
    if k == 0 {
        e
    } else {
        EntryV::Group(Seq::empty(), seq![wrap_v(e, (k - 1) as nat)])
    }
}

pub proof fn lemma_wrap_uniform(e: EntryV, k: nat, d: int)
    requires
        uniform_entry(e, d),
    ensures
        uniform_entry(wrap_v(e, k), d + k),
    decreases k,
{
    if k > 0 {
        lemma_wrap_uniform(e, (k - 1) as nat, d);
        let inner = wrap_v(e, (k - 1) as nat);
        assert(seq![inner][0] == inner);
        assert(uniform_depth(seq![inner], d + k - 1));
        lemma_group_uniform(Seq::empty(), seq![inner], d + k - 1);
    }
}

/// `e` with its own children made uniform, before outer synthetic wrapping.
pub open spec fn uniformize_core(e: EntryV) -> EntryV
    decreases e, 0nat,
{
    match e {
        EntryV::Field(_) => e,
        EntryV::Group(name, entries) => EntryV::Group(
            name,
            uniformize_seq(entries, depth_seq(entries)),
        ),
    }
}

/// `e` with every subtree padded by synthetic anonymous groups so that all
/// leaves lie at depth exactly `d`.
pub open spec fn uniformize_entry(e: EntryV, d: nat) -> EntryV
    decreases e, 1nat,
{
    wrap_v(uniformize_core(e), (d - depth_v(e)) as nat)
}

pub open spec fn uniformize_seq(es: Seq<EntryV>, d: nat) -> Seq<EntryV>
    decreases es, 2nat,
{
    if es.len() == 0 {
        Seq::empty()
    } else {
        uniformize_seq(es.drop_last(), d).push(uniformize_entry(es.last(), d))
    }
}

pub proof fn lemma_uniformize_seq(es: Seq<EntryV>, d: nat)
    ensures
        uniformize_seq(es, d).len() == es.len(),
        forall|i: int|
            0 <= i < es.len() ==> uniformize_seq(es, d)[i] == uniformize_entry(es[i], d),
    decreases es,
{
    if es.len() > 0 {
        lemma_uniformize_seq(es.drop_last(), d);
    }
}

/// Uniformizing a subtree of depth at most `d` yields a tree of exact depth `d`.
pub proof fn lemma_uniformize_uniform(e: EntryV, d: nat)
    requires
        depth_v(e) <= d,
    ensures
        uniform_entry(uniformize_entry(e, d), d as int),
    decreases e,
{
    match e {
        EntryV::Field(f) => {
            assert(uniform_entry(EntryV::Field(f), 1));
            lemma_wrap_uniform(e, (d - 1) as nat, 1);
        },
        EntryV::Group(name, entries) => {
            let dc = depth_seq(entries);
            let core = EntryV::Group(name, uniformize_seq(entries, dc));
            lemma_uniformize_seq(entries, dc);
            assert forall|i: int| #![trigger uniformize_seq(entries, dc)[i]]
                0 <= i < uniformize_seq(entries, dc).len() implies uniform_entry(
                uniformize_seq(entries, dc)[i],
                dc as int,
            ) by {
                lemma_depth_in(entries, i);
                lemma_uniformize_uniform(entries[i], dc);
                assert(uniformize_seq(entries, dc)[i] == uniformize_entry(entries[i], dc));
            }
            assert(uniform_depth(uniformize_seq(entries, dc), dc as int));
            lemma_group_uniform(name, uniformize_seq(entries, dc), dc as int);
            assert(uniform_entry(core, dc as int + 1));
            lemma_wrap_uniform(core, (d - (1 + dc)) as nat, dc as int + 1);
            assert(1 + dc <= d);
        },
    }
}

pub proof fn lemma_depth_prefix(es: Seq<EntryV>, i: int)
    requires
        0 <= i <= es.len(),
    ensures
        depth_seq(es.take(i)) <= depth_seq(es),
    decreases es.len(),
{
    if i == es.len() {
        assert(es.take(i) =~= es);
    } else {
        assert(es.take(i) =~= es.drop_last().take(i));
        lemma_depth_prefix(es.drop_last(), i);
    }
}

pub proof fn lemma_take_step<T>(s: Seq<T>, i: int)
    requires
        0 <= i < s.len(),
    ensures
        s.take(i + 1).drop_last() =~= s.take(i),
        s.take(i + 1).last() == s[i],
{
}

pub proof fn lemma_entries_v_push(es: Seq<Entry>, e: Entry)
    ensures
        entries_v(es.push(e)) == entries_v(es).push(entry_v(e)),
{
    assert(es.push(e).drop_last() =~= es);
    assert(es.push(e).last() == e);
}

/// Number of header lines this node occupies.
#[verifier::loop_isolation(false)]
pub fn depth_of_entry(e: &Entry) -> (d: usize)
    requires
        depth_v(entry_v(*e)) <= usize::MAX,
    ensures
        d as nat == depth_v(entry_v(*e)),
    decreases *e,
{
    match e {
        Entry::Field(_) => 1,
        Entry::Group(_, entries) => {
            proof {
                assert(*entries == (*e)->Group_1);
                assert(decreases_to!(*e => (*e)->Group_1));
                assert(decreases_to!(*entries => entries@));
            }
            let dc = depth_of_entries(entries);
            dc + 1
        },
    }
}

/// Number of header lines a forest occupies: the deepest entry's depth.
#[verifier::loop_isolation(false)]
pub fn depth_of_entries(entries: &Vec<Entry>) -> (d: usize)
    requires
        depth_seq(entries_v(entries@)) <= usize::MAX,
    ensures
        d as nat == depth_seq(entries_v(entries@)),
    decreases entries@,
{
    let ghost evs = entries_v(entries@);
    proof {
        lemma_entries_v(entries@);
    }
    let mut best: usize = 0;
    let mut i: usize = 0;
    while i < entries.len()
        invariant
            0 <= i <= entries@.len(),
            best as nat == depth_seq(evs.take(i as int)),
        decreases entries@.len() - i,
    {
        proof {
            assert(decreases_to!(entries@ => entries@[i as int]));
            lemma_depth_in(evs, i as int);
            lemma_depth_prefix(evs, i as int);
        }
        let de = depth_of_entry(&entries[i]);
        proof {
            lemma_take_step(evs, i as int);
        }
        if de > best {
            best = de;
        }
        i += 1;
    }
    proof {
        assert(evs.take(entries@.len() as int) =~= evs);
    }
    best
}

/// Pad every subtree with synthetic anonymous groups so that each leaf lies
/// at depth exactly `d`.
#[verifier::loop_isolation(false)]
pub fn force_uniform_depth(entries: Vec<Entry>, d: usize) -> (r: Vec<Entry>)
    requires
        depth_seq(entries_v(entries@)) <= d,
    ensures
        entries_v(r@) == uniformize_seq(entries_v(entries@), d as nat),
    decreases d,
{
    let ghost es0 = entries_v(entries@);
    proof {
        lemma_entries_v(entries@);
        lemma_uniformize_seq(es0, d as nat);
    }
    let mut rest = entries;
    let mut out: Vec<Entry> = Vec::new();
    while rest.len() > 0
        invariant
            rest@.len() + out@.len() == es0.len(),
            forall|j: int| 0 <= j < rest@.len() ==> entry_v(rest@[j]) == es0[out@.len() + j],
            forall|j: int|
                0 <= j < out@.len() ==> entry_v(out@[j]) == uniformize_entry(es0[j], d as nat),
        decreases rest@.len(),
    {
        let ghost i = out@.len() as int;
        let ghost prev = rest@;
        let e = rest.remove(0);
        let ghost ev = entry_v(e);
        proof {
            assert(rest@ =~= prev.drop_first());
            assert(ev == es0[i]);
            lemma_depth_in(es0, i);
        }
        let de = depth_of_entry(&e);
        let k = d - de;
        let ghost core = uniformize_core(ev);
        let cur0: Entry = match e {
            Entry::Field(f) => Entry::Field(f),
            Entry::Group(name, children) => {
                let ghost chv = entries_v(children@);
                proof {
                    assert(depth_seq(chv) == de - 1);
                }
                let dc = de - 1;
                let newc = force_uniform_depth(children, dc);
                proof {
                    assert(core == EntryV::Group(name@, uniformize_seq(chv, dc as nat)));
                }
                Entry::Group(name, newc)
            },
        };
        let mut cur = cur0;
        proof {
            assert(entry_v(cur) == core);
            assert(wrap_v(core, 0) == core);
            assert(uniformize_entry(ev, d as nat) == wrap_v(core, k as nat));
        }
        let mut j: usize = 0;
        while j < k
            invariant
                j <= k,
                entry_v(cur) == wrap_v(core, j as nat),
            decreases k - j,
        {
            let ghost curv = entry_v(cur);
            let mut v: Vec<Entry> = Vec::new();
            v.push(cur);
            proof {
                assert(v@.len() == 1);
                assert(v@.drop_last() =~= Seq::<Entry>::empty());
                assert(entry_v(v@.last()) == curv);
                assert(entries_v(v@) == entries_v(v@.drop_last()).push(entry_v(v@.last())));
                assert(entries_v(v@) =~= seq![curv]);
            }
            cur = Entry::Group(String::new(), v);
            proof {
                assert(entry_v(cur) == EntryV::Group(Seq::<char>::empty(), seq![curv]));
                assert(entry_v(cur) == wrap_v(core, (j + 1) as nat));
            }
            j += 1;
        }
        out.push(cur);
        proof {
            assert(out@.last() == cur);
            assert(entry_v(cur) == uniformize_entry(es0[i], d as nat));
        }
    }
    proof {
        lemma_entries_v(out@);
        lemma_uniformize_seq(es0, d as nat);
        assert(entries_v(out@) =~= uniformize_seq(es0, d as nat));
    }
    out
}

} // verus!
