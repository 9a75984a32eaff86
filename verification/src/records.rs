use vstd::prelude::*;
use vstd::string::StrSliceExecFns;
use vstd::string::StringExecFns;
use crate::tree::{depth_v, strs_v, EntryV, FieldV};
use crate::value::{Align, DisplayKind, Value, ValueV};

verus! {

/// How a measurement's unit classifies for display: a rate-like unit (a
/// count or bit rate per second) shows the change between ticks.
#[derive(Clone, Copy, Debug, PartialEq, Eq, Structural)]
pub enum UnitClass {
    Plain,
    PerSecond,
}

/// One measurement of a snapshot: its dotted name, its unit class and its
/// labels as key/value pairs.
pub struct Record {
    pub name: String,
    pub unit: UnitClass,
    pub labels: Vec<(String, String)>,
}

/// Mathematical model of a `Record`.
pub struct RecordV {
    pub name: Seq<char>,
    pub unit: UnitClass,
    pub labels: Seq<(Seq<char>, Seq<char>)>,
}

impl View for Record {
    type V = RecordV;

    open spec fn view(&self) -> RecordV {
        RecordV {
            name: self.name@,
            unit: self.unit,
            labels: Seq::new(self.labels@.len(), |i: int| (self.labels@[i].0@, self.labels@[i].1@)),
        }
    }
}

/// Views of a sequence of records.
pub open spec fn recs_v(rs: Seq<Record>) -> Seq<RecordV> {
    Seq::new(rs.len(), |i: int| rs[i]@)
}

/// A measurement as the layout engine reads it: the name already split
/// into a path, and the display kind its unit and labels call for.
pub struct Component {
    pub path: Vec<String>,
    pub display_kind: DisplayKind,
}

/// Mathematical model of a `Component`.
#[verifier::ext_equal]
pub struct ComponentV {
    pub path: Seq<Seq<char>>,
    pub display_kind: DisplayKind,
}

impl View for Component {
    type V = ComponentV;

    open spec fn view(&self) -> ComponentV {
        ComponentV { path: strs_v(self.path@), display_kind: self.display_kind }
    }
}

/// Views of a sequence of components.
pub open spec fn comps_v(cs: Seq<Component>) -> Seq<ComponentV> {
    Seq::new(cs.len(), |i: int| cs[i]@)
}

/// Index of the first dot, `-1` when there is none.
pub open spec fn first_dot(s: Seq<char>) -> int
    decreases s.len(),
{
    if s.len() == 0 {
        -1
    } else if s[0] == '.' {
        0
    } else {
        let r = first_dot(s.drop_first());
        if r < 0 {
            -1
        } else {
            r + 1
        }
    }
}

pub proof fn lemma_first_dot(s: Seq<char>)
    ensures
        first_dot(s) == -1 <==> (forall|i: int| 0 <= i < s.len() ==> s[i] != '.'),
        first_dot(s) != -1 ==> 0 <= first_dot(s) < s.len() && s[first_dot(s)] == '.' && (forall|
            i: int,
        |
            0 <= i < first_dot(s) ==> s[i] != '.'),
    decreases s.len(),
{
    if s.len() > 0 && s[0] != '.' {
        lemma_first_dot(s.drop_first());
        assert(forall|i: int| 1 <= i < s.len() ==> s[i] == s.drop_first()[i - 1]);
    }
}

/// A name split on dots: the segments between dots, in order; a name with
/// no dot is one segment, and empty segments pass through unchanged.
pub open spec fn split_dots(s: Seq<char>) -> Seq<Seq<char>>
    decreases s.len(),
{
    let i = first_dot(s);
    if i < 0 || i >= s.len() {
        seq![s]
    } else {
        seq![s.take(i)] + split_dots(s.skip(i + 1))
    }
}

/// Split a dotted measurement name into its path segments.
#[verifier::loop_isolation(false)]
pub fn split_path(name: &str) -> (r: Vec<String>)
    ensures
        strs_v(r@) == split_dots(name@),
{
    let n = name.unicode_len();
    let mut out: Vec<String> = Vec::new();
    let mut start: usize = 0;
    let mut i: usize = 0;
    proof {
        assert(name@.skip(0) =~= name@);
    }
    while i < n
        invariant
            start <= i <= n,
            n as nat == name@.len(),
            split_dots(name@) == strs_v(out@) + split_dots(name@.skip(start as int)),
            forall|k: int| start <= k < i ==> name@[k] != '.',
        decreases n - i,
    {
        if name.get_char(i) == '.' {
            let seg = String::from_str(name.substring_char(start, i));
            let ghost prev = out@;
            out.push(seg);
            proof {
                let tail = name@.skip(start as int);
                assert forall|k: int| 0 <= k < i - start implies tail[k] != '.' by {
                    assert(tail[k] == name@[start + k]);
                }
                assert(tail[i - start] == '.');
                lemma_first_dot_at(tail, i - start as int);
                assert(first_dot(tail) == i - start);
                assert(tail.take(i - start as int) =~= name@.subrange(start as int, i as int));
                assert(tail.skip(i - start + 1) =~= name@.skip(i + 1));
                assert(split_dots(tail) == seq![name@.subrange(start as int, i as int)]
                    + split_dots(name@.skip(i + 1)));
                assert(strs_v(out@) =~= strs_v(prev) + seq![seg@]);
                assert(strs_v(out@) + split_dots(name@.skip(i + 1)) =~= strs_v(prev) + split_dots(
                    name@.skip(start as int),
                ));
            }
            start = i + 1;
        }
        i += 1;
    }
    let seg = String::from_str(name.substring_char(start, n));
    let ghost prev = out@;
    out.push(seg);
    proof {
        let tail = name@.skip(start as int);
        assert forall|k: int| 0 <= k < tail.len() implies tail[k] != '.' by {
            assert(tail[k] == name@[start + k]);
        }
        lemma_first_dot(tail);
        assert(first_dot(tail) == -1);
        assert(split_dots(tail) == seq![tail]);
        assert(tail =~= name@.subrange(start as int, n as int));
        assert(strs_v(out@) =~= strs_v(prev) + seq![seg@]);
        assert(strs_v(out@) =~= strs_v(prev) + split_dots(tail));
    }
    out
}

pub proof fn lemma_first_dot_at(s: Seq<char>, k: int)
    requires
        0 <= k < s.len(),
        s[k] == '.',
        forall|j: int| 0 <= j < k ==> s[j] != '.',
    ensures
        first_dot(s) == k,
    decreases s.len(),
{
    if k > 0 {
        assert(s[0] != '.');
        assert(forall|j: int| 1 <= j < s.len() ==> s[j] == s.drop_first()[j - 1]);
        assert(s.drop_first()[k - 1] == '.');
        assert forall|j: int| 0 <= j < k - 1 implies s.drop_first()[j] != '.' by {
            assert(s.drop_first()[j] == s[j + 1]);
        }
        lemma_first_dot_at(s.drop_first(), k - 1);
    }
}

/// Whether the labels carry the histogram-view convention `view=histogram`.
pub open spec fn has_histogram_label(labels: Seq<(Seq<char>, Seq<char>)>) -> bool {
    exists|i: int| 0 <= i < labels.len() && labels[i].0 == "view"@ && labels[i].1 == "histogram"@
}

/// The display kind a measurement's unit and labels call for: the label
/// convention `view=histogram` wins, then a rate-like unit shows
/// differences, and anything else shows the plain number.
pub open spec fn kind_of(unit: UnitClass, labels: Seq<(Seq<char>, Seq<char>)>) -> DisplayKind {
    if has_histogram_label(labels) {
        DisplayKind::Histogram
    } else if unit is PerSecond {
        DisplayKind::Difference
    } else {
        DisplayKind::Number
    }
}

/// Decide a record's display kind.
#[verifier::loop_isolation(false)]
pub fn kind_of_record(r: &Record) -> (k: DisplayKind)
    ensures
        k == kind_of(r@.unit, r@.labels),
{
    let key = String::from_str("view");
    let val = String::from_str("histogram");
    let mut i: usize = 0;
    let mut found = false;
    while i < r.labels.len()
        invariant
            i <= r.labels@.len(),
            key@ == "view"@,
            val@ == "histogram"@,
            found <==> exists|j: int|
                0 <= j < i && r@.labels[j].0 == "view"@ && r@.labels[j].1 == "histogram"@,
        decreases r.labels@.len() - i,
    {
        let l: &(String, String) = &r.labels[i];
        if l.0 == key && l.1 == val {
            proof {
                assert(r@.labels[i as int].0 == "view"@ && r@.labels[i as int].1 == "histogram"@);
            }
            found = true;
        }
        i += 1;
    }
    if found {
        DisplayKind::Histogram
    } else {
        proof {
            assert(!has_histogram_label(r@.labels));
        }
        match r.unit {
            UnitClass::PerSecond => DisplayKind::Difference,
            UnitClass::Plain => DisplayKind::Number,
        }
    }
}

/// Strict lexicographic order on text by character code; a proper prefix
/// comes first.
pub open spec fn str_lt(a: Seq<char>, b: Seq<char>) -> bool
    decreases a.len(),
{
    if b.len() == 0 {
        false
    } else if a.len() == 0 {
        true
    } else if a[0] != b[0] {
        (a[0] as int) < (b[0] as int)
    } else {
        str_lt(a.drop_first(), b.drop_first())
    }
}

/// Strict lexicographic order on paths, segment by segment.
pub open spec fn path_lt(a: Seq<Seq<char>>, b: Seq<Seq<char>>) -> bool
    decreases a.len(),
{
    if b.len() == 0 {
        false
    } else if a.len() == 0 {
        true
    } else if a[0] != b[0] {
        str_lt(a[0], b[0])
    } else {
        path_lt(a.drop_first(), b.drop_first())
    }
}

/// Compare two segments.
#[verifier::loop_isolation(false)]
pub fn str_lt_exec(a: &String, b: &String) -> (r: bool)
    ensures
        r == str_lt(a@, b@),
{
    let la = a.as_str().unicode_len();
    let lb = b.as_str().unicode_len();
    let mut i: usize = 0;
    proof {
        assert(a@.skip(0) =~= a@);
        assert(b@.skip(0) =~= b@);
    }
    while i < la && i < lb
        invariant
            i <= la,
            i <= lb,
            str_lt(a@, b@) == str_lt(a@.skip(i as int), b@.skip(i as int)),
            forall|k: int| 0 <= k < i ==> a@[k] == b@[k],
        decreases la - i,
    {
        let ca = a.as_str().get_char(i);
        let cb = b.as_str().get_char(i);
        proof {
            assert(a@.skip(i as int)[0] == a@[i as int]);
            assert(b@.skip(i as int)[0] == b@[i as int]);
        }
        if ca != cb {
            proof {
                assert(str_lt(a@.skip(i as int), b@.skip(i as int)) == ((a@[i as int] as int) < (
                b@[i as int] as int)));
            }
            return (ca as u32) < (cb as u32);
        }
        proof {
            assert(a@.skip(i as int).drop_first() =~= a@.skip(i + 1));
            assert(b@.skip(i as int).drop_first() =~= b@.skip(i + 1));
        }
        i += 1;
    }
    proof {
        if i >= lb {
            assert(b@.skip(i as int).len() == 0);
        } else {
            assert(a@.skip(i as int).len() == 0);
            assert(b@.skip(i as int).len() > 0);
        }
    }
    lb > i
}

/// Compare two paths.
#[verifier::loop_isolation(false)]
pub fn path_lt_exec(a: &Vec<String>, b: &Vec<String>) -> (r: bool)
    ensures
        r == path_lt(strs_v(a@), strs_v(b@)),
{
    let ghost pa = strs_v(a@);
    let ghost pb = strs_v(b@);
    let la = a.len();
    let lb = b.len();
    let mut i: usize = 0;
    proof {
        assert(pa.skip(0) =~= pa);
        assert(pb.skip(0) =~= pb);
    }
    while i < la && i < lb
        invariant
            i <= la,
            i <= lb,
            path_lt(pa, pb) == path_lt(pa.skip(i as int), pb.skip(i as int)),
        decreases la - i,
    {
        proof {
            assert(pa.skip(i as int)[0] == pa[i as int]);
            assert(pb.skip(i as int)[0] == pb[i as int]);
        }
        if !(a[i] == b[i]) {
            proof {
                assert(pa[i as int] != pb[i as int]);
            }
            let r = str_lt_exec(&a[i], &b[i]);
            return r;
        }
        proof {
            assert(pa[i as int] == pb[i as int]);
            assert(pa.skip(i as int).drop_first() =~= pa.skip(i + 1));
            assert(pb.skip(i as int).drop_first() =~= pb.skip(i + 1));
        }
        i += 1;
    }
    proof {
        if i >= lb {
            assert(pb.skip(i as int).len() == 0);
        } else {
            assert(pa.skip(i as int).len() == 0);
            assert(pb.skip(i as int).len() > 0);
        }
    }
    lb > i
}

/// `c` inserted before the first component whose path is strictly greater:
/// a stable insertion.
pub open spec fn insert_sorted(c: ComponentV, s: Seq<ComponentV>) -> Seq<ComponentV>
    decreases s.len(),
{
    if s.len() == 0 {
        seq![c]
    } else if path_lt(c.path, s[0].path) {
        seq![c] + s
    } else {
        seq![s[0]] + insert_sorted(c, s.drop_first())
    }
}

/// Stable sort of the components by path, leftmost first.
pub open spec fn sort_components(s: Seq<ComponentV>) -> Seq<ComponentV>
    decreases s.len(),
{
    if s.len() == 0 {
        Seq::empty()
    } else {
        insert_sorted(s.last(), sort_components(s.drop_last()))
    }
}

pub proof fn lemma_insert_at(c: ComponentV, s: Seq<ComponentV>, j: int)
    requires
        0 <= j <= s.len(),
        forall|k: int| 0 <= k < j ==> !path_lt(c.path, s[k].path),
        j < s.len() ==> path_lt(c.path, s[j].path),
    ensures
        insert_sorted(c, s) == s.take(j) + seq![c] + s.skip(j),
    decreases s.len(),
{
    if s.len() == 0 {
        assert(insert_sorted(c, s) =~= s.take(j) + seq![c] + s.skip(j));
    } else if j == 0 {
        assert(s.take(0) =~= Seq::<ComponentV>::empty());
        assert(s.skip(0) =~= s);
        assert(insert_sorted(c, s) =~= s.take(j) + seq![c] + s.skip(j));
    } else {
        assert(!path_lt(c.path, s[0].path));
        assert forall|k: int| 0 <= k < j - 1 implies !path_lt(c.path, s.drop_first()[k].path) by {
            assert(s.drop_first()[k] == s[k + 1]);
        }
        if j - 1 < s.drop_first().len() {
            assert(s.drop_first()[j - 1] == s[j]);
        }
        lemma_insert_at(c, s.drop_first(), j - 1);
        assert(s.drop_first().take(j - 1) =~= s.take(j).drop_first());
        assert(s.drop_first().skip(j - 1) =~= s.skip(j));
        assert(insert_sorted(c, s) =~= s.take(j) + seq![c] + s.skip(j));
    }
}

/// Sort the components by path with a stable insertion sort.
#[verifier::loop_isolation(false)]
pub fn sort_by_path(cs: Vec<Component>) -> (r: Vec<Component>)
    ensures
        comps_v(r@) == sort_components(comps_v(cs@)),
{
    let ghost cs0 = comps_v(cs@);
    let mut rest = cs;
    let mut out: Vec<Component> = Vec::new();
    while rest.len() > 0
        invariant
            rest@.len() + out@.len() >= out@.len(),
            rest@.len() <= cs0.len(),
            rest@.len() + (cs0.len() - rest@.len()) == cs0.len(),
            forall|j: int| 0 <= j < rest@.len() ==> rest@[j]@ == cs0[cs0.len() - rest@.len() + j],
            comps_v(out@) == sort_components(cs0.take(cs0.len() - rest@.len())),
        decreases rest@.len(),
    {
        let ghost i = cs0.len() - rest@.len();
        let ghost prev = rest@;
        let c = rest.remove(0);
        proof {
            assert(rest@ =~= prev.drop_first());
            assert(c@ == cs0[i]);
            lemma_take_step_c(cs0, i);
        }
        let ghost sorted_prev = comps_v(out@);
        let mut j: usize = 0;
        while j < out.len() && !path_lt_exec(&c.path, &out[j].path)
            invariant
                j <= out@.len(),
                forall|k: int| 0 <= k < j ==> !path_lt(c@.path, sorted_prev[k].path),
            decreases out@.len() - j,
        {
            proof {
                assert(out@[j as int]@ == sorted_prev[j as int]);
            }
            j += 1;
        }
        proof {
            if j < out@.len() {
                assert(out@[j as int]@ == sorted_prev[j as int]);
                assert(path_lt(c@.path, sorted_prev[j as int].path));
            }
            lemma_insert_at(c@, sorted_prev, j as int);
        }
        out.insert(j, c);
        proof {
            assert(comps_v(out@) =~= sorted_prev.take(j as int) + seq![cs0[i]] + sorted_prev.skip(
                j as int,
            ));
            assert(comps_v(out@) =~= sort_components(cs0.take(i + 1)));
        }
    }
    proof {
        assert(cs0.take(cs0.len() as int) =~= cs0);
    }
    out
}

pub proof fn lemma_take_step_c(s: Seq<ComponentV>, i: int)
    requires
        0 <= i < s.len(),
    ensures
        s.take(i + 1).drop_last() =~= s.take(i),
        s.take(i + 1).last() == s[i],
{
}

/// The first component's path length; `0` for an empty run.
pub open spec fn head_plen(cs: Seq<ComponentV>) -> int {
    if cs.len() == 0 {
        0
    } else {
        cs[0].path.len() as int
    }
}

/// Length of the leading run of components that carry segment `seg` at
/// `depth`.
pub open spec fn run_len_with(cs: Seq<ComponentV>, seg: Seq<char>, depth: int) -> nat
    decreases cs.len(),
{
    if cs.len() == 0 {
        0
    } else if cs[0].path.len() > depth && depth >= 0 && cs[0].path[depth] == seg {
        1 + run_len_with(cs.drop_first(), seg, depth)
    } else {
        0
    }
}

pub proof fn lemma_run_le(cs: Seq<ComponentV>, seg: Seq<char>, depth: int)
    ensures
        run_len_with(cs, seg, depth) <= cs.len(),
    decreases cs.len(),
{
    if cs.len() > 0 {
        lemma_run_le(cs.drop_first(), seg, depth);
    }
}

/// The field column a component contributes: named by its segment at
/// `depth`, as wide as that name, margin-free, with kind and alignment
/// from the component.
pub open spec fn field_of(c: ComponentV, depth: int) -> FieldV {
    FieldV {
        name: c.path[depth],
        full_path: Seq::empty(),
        len: c.path[depth].len(),
        margin_left: 0,
        align: if c.display_kind is Histogram {
            Align::Left
        } else {
            Align::Right
        },
        display_kind: c.display_kind,
        last_value: ValueV::Int(0),
    }
}

/// The layout nodes a run of components builds, reading paths from
/// `depth` on: a path that ends one segment later becomes a field, a
/// longer one opens a group over the leading run that shares its segment,
/// and a path with no segment at `depth` contributes nothing.
pub open spec fn spec_build(cs: Seq<ComponentV>, depth: nat) -> Seq<EntryV>
    decreases cs.len(), head_plen(cs) - depth,
    via spec_build_decreases
{
    if cs.len() == 0 {
        Seq::empty()
    } else if cs[0].path.len() <= depth {
        spec_build(cs.drop_first(), depth)
    } else if cs[0].path.len() == depth + 1 {
        seq![EntryV::Field(field_of(cs[0], depth as int))] + spec_build(cs.drop_first(), depth)
    } else {
        let seg = cs[0].path[depth as int];
        let n = run_len_with(cs, seg, depth as int);
        seq![EntryV::Group(seg, spec_build(cs.take(n as int), (depth + 1) as nat))] + spec_build(
            cs.skip(n as int),
            depth,
        )
    }
}

#[via_fn]
proof fn spec_build_decreases(cs: Seq<ComponentV>, depth: nat) {
    if cs.len() != 0 && cs[0].path.len() > depth + 1 {
        let seg = cs[0].path[depth as int];
        let n = run_len_with(cs, seg, depth as int);
        lemma_run_le(cs, seg, depth as int);
        assert(n >= 1);
        assert(cs.take(n as int).len() == n);
        if n as int == cs.len() {
            assert(cs.take(n as int)[0] == cs[0]);
        }
    }
}

/// The longest path length in a run.
pub open spec fn max_plen(cs: Seq<ComponentV>) -> nat
    decreases cs.len(),
{
    if cs.len() == 0 {
        0
    } else {
        let m = max_plen(cs.drop_first());
        if cs[0].path.len() >= m {
            cs[0].path.len()
        } else {
            m
        }
    }
}

pub proof fn lemma_max_plen_in(cs: Seq<ComponentV>, i: int)
    requires
        0 <= i < cs.len(),
    ensures
        cs[i].path.len() <= max_plen(cs),
    decreases cs.len(),
{
    if i > 0 {
        lemma_max_plen_in(cs.drop_first(), i - 1);
        assert(cs.drop_first()[i - 1] == cs[i]);
    }
}

pub proof fn lemma_max_plen_bound(cs: Seq<ComponentV>, m: nat)
    requires
        forall|i: int| 0 <= i < cs.len() ==> (#[trigger] cs[i].path.len()) <= m,
    ensures
        max_plen(cs) <= m,
    decreases cs.len(),
{
    if cs.len() > 0 {
        assert forall|i: int| 0 <= i < cs.drop_first().len() implies (#[trigger] cs.drop_first()[
            i
        ].path.len()) <= m by {
            assert(cs.drop_first()[i] == cs[i + 1]);
            assert(cs[i + 1].path.len() <= m);
        }
        lemma_max_plen_bound(cs.drop_first(), m);
    }
}

pub proof fn lemma_max_plen_sub(cs: Seq<ComponentV>, a: int, b: int)
    requires
        0 <= a <= b <= cs.len(),
    ensures
        max_plen(cs.subrange(a, b)) <= max_plen(cs),
{
    assert forall|i: int| 0 <= i < cs.subrange(a, b).len() implies (#[trigger] cs.subrange(
        a,
        b,
    )[i].path.len()) <= max_plen(cs) by {
        assert(cs.subrange(a, b)[i] == cs[a + i]);
        lemma_max_plen_in(cs, a + i);
    }
    lemma_max_plen_bound(cs.subrange(a, b), max_plen(cs));
}

pub proof fn lemma_depth_cons(e: EntryV, s: Seq<EntryV>)
    ensures
        crate::tree::depth_seq(seq![e] + s) == if depth_v(e) >= crate::tree::depth_seq(s) {
            depth_v(e)
        } else {
            crate::tree::depth_seq(s)
        },
    decreases s.len(),
{
    if s.len() == 0 {
        assert((seq![e] + s).drop_last() =~= Seq::<EntryV>::empty());
        assert((seq![e] + s).last() == e);
        assert(crate::tree::depth_seq(seq![e] + s) == depth_v(e)) by {
            reveal_with_fuel(crate::tree::depth_seq, 2);
            assert((seq![e] + s).drop_last() == Seq::<EntryV>::empty());
        }
    } else {
        assert((seq![e] + s).drop_last() =~= seq![e] + s.drop_last());
        assert((seq![e] + s).last() == s.last());
        lemma_depth_cons(e, s.drop_last());
        assert((seq![e] + s).drop_last() == seq![e] + s.drop_last());
    }
}

pub open spec fn max0(x: int) -> int {
    if x >= 0 {
        x
    } else {
        0
    }
}

/// The tree a run builds is no deeper than its longest path, less the
/// segments already consumed.
pub proof fn lemma_build_depth(cs: Seq<ComponentV>, depth: nat)
    ensures
        crate::tree::depth_seq(spec_build(cs, depth)) <= max0(max_plen(cs) - depth),
    decreases cs.len(), head_plen(cs) - depth,
{
    if cs.len() == 0 {
    } else if cs[0].path.len() <= depth {
        lemma_build_depth(cs.drop_first(), depth);
        assert(max_plen(cs.drop_first()) <= max_plen(cs));
    } else if cs[0].path.len() == depth + 1 {
        lemma_build_depth(cs.drop_first(), depth);
        assert(max_plen(cs.drop_first()) <= max_plen(cs));
        lemma_max_plen_in(cs, 0);
        lemma_depth_cons(
            EntryV::Field(field_of(cs[0], depth as int)),
            spec_build(cs.drop_first(), depth),
        );
    } else {
        let seg = cs[0].path[depth as int];
        let n = run_len_with(cs, seg, depth as int);
        lemma_run_le(cs, seg, depth as int);
        assert(n >= 1);
        assert(cs.take(n as int)[0] == cs[0]);
        lemma_build_depth(cs.take(n as int), (depth + 1) as nat);
        lemma_build_depth(cs.skip(n as int), depth);
        lemma_max_plen_sub(cs, 0, n as int);
        assert(cs.take(n as int) =~= cs.subrange(0, n as int));
        lemma_max_plen_sub(cs, n as int, cs.len() as int);
        assert(cs.skip(n as int) =~= cs.subrange(n as int, cs.len() as int));
        lemma_max_plen_in(cs, 0);
        let inner = spec_build(cs.take(n as int), (depth + 1) as nat);
        let node = EntryV::Group(seg, inner);
        assert(depth_v(node) == 1 + crate::tree::depth_seq(inner));
        lemma_depth_cons(node, spec_build(cs.skip(n as int), depth));
    }
}

/// The length of the leading run at `start` that shares the segment at
/// `depth` with the component at `start`.
#[verifier::loop_isolation(false)]
fn run_length(cs: &Vec<Component>, start: usize, end: usize, depth: usize) -> (n: usize)
    requires
        start < end <= cs@.len(),
        comps_v(cs@)[start as int].path.len() > depth,
    ensures
        n as nat == run_len_with(
            comps_v(cs@).subrange(start as int, end as int),
            comps_v(cs@)[start as int].path[depth as int],
            depth as int,
        ),
        1 <= n <= end - start,
{
    let ghost all = comps_v(cs@);
    let ghost seg = all[start as int].path[depth as int];
    let ghost whole = all.subrange(start as int, end as int);
    let mut j: usize = start;
    while j < end && cs[j].path.len() > depth && cs[j].path[depth] == cs[start].path[depth]
        invariant
            start <= j <= end,
            run_len_with(whole, seg, depth as int) == j - start + run_len_with(
                all.subrange(j as int, end as int),
                seg,
                depth as int,
            ),
        decreases end - j,
    {
        proof {
            let sub = all.subrange(j as int, end as int);
            assert(sub[0] == all[j as int]);
            assert(all[j as int].path == strs_v(cs@[j as int].path@));
            assert(all[j as int].path[depth as int] == cs@[j as int].path@[depth as int]@);
            assert(seg == cs@[start as int].path@[depth as int]@);
            assert(sub[0].path.len() > depth && sub[0].path[depth as int] == seg);
            assert(sub.drop_first() =~= all.subrange(j + 1, end as int));
        }
        j += 1;
    }
    proof {
        let sub = all.subrange(j as int, end as int);
        if j < end {
            assert(sub[0] == all[j as int]);
            assert(all[j as int].path == strs_v(cs@[j as int].path@));
            if cs@[j as int].path@.len() > depth {
                assert(all[j as int].path[depth as int] == cs@[j as int].path@[depth as int]@);
            }
            assert(run_len_with(sub, seg, depth as int) == 0);
        } else {
            assert(sub.len() == 0);
        }
        assert(run_len_with(whole, seg, depth as int) == j - start);
        assert(whole[0] == all[start as int]);
        assert(run_len_with(whole, seg, depth as int) >= 1);
        lemma_run_le(whole, seg, depth as int);
    }
    j - start
}

/// Build the layout nodes for the components in `[start, end)`, appending
/// them to `builder`.
#[verifier::loop_isolation(false)]
fn build_entries(
    builder: crate::table::TableBuilder,
    cs: &Vec<Component>,
    start: usize,
    end: usize,
    depth: usize,
) -> (r: crate::table::TableBuilder)
    requires
        start <= end <= cs@.len(),
    ensures
        r.entries() == builder.entries() + spec_build(
            comps_v(cs@).subrange(start as int, end as int),
            depth as nat,
        ),
    decreases end - start, head_plen(comps_v(cs@).subrange(start as int, end as int)) - depth,
{
    let ghost all = comps_v(cs@);
    let ghost whole = all.subrange(start as int, end as int);
    let mut b = builder;
    let mut i = start;
    while i < end
        invariant
            start <= i <= end,
            builder.entries() + spec_build(whole, depth as nat) == b.entries() + spec_build(
                all.subrange(i as int, end as int),
                depth as nat,
            ),
        decreases end - i,
    {
        let ghost sub = all.subrange(i as int, end as int);
        proof {
            assert(sub[0] == all[i as int]);
            assert(all[i as int].path == strs_v(cs@[i as int].path@));
        }
        let plen = cs[i].path.len();
        if plen <= depth {
            proof {
                assert(sub.drop_first() =~= all.subrange(i + 1, end as int));
            }
            i += 1;
        } else if plen == depth + 1 {
            let seg: &String = &cs[i].path[depth];
            proof {
                assert(all[i as int].path[depth as int] == cs@[i as int].path@[depth as int]@);
            }
            let ghost bprev = b.entries();
            b = b.field(seg.as_str(), cs[i].display_kind);
            proof {
                assert(seg@ == all[i as int].path[depth as int]);
                assert(b.entries().last() == EntryV::Field(field_of(all[i as int], depth as int)))
                    by {
                    assert(b.entries().last()->Field_0 =~= field_of(all[i as int], depth as int));
                }
                assert(sub.drop_first() =~= all.subrange(i + 1, end as int));
                assert(bprev + spec_build(sub, depth as nat) =~= b.entries() + spec_build(
                    all.subrange(i + 1, end as int),
                    depth as nat,
                ));
            }
            i += 1;
        } else {
            let n = run_length(cs, i, end, depth);
            proof {
                assert(sub.subrange(0, n as int) =~= all.subrange(i as int, i + n));
                assert(sub.take(n as int) =~= all.subrange(i as int, i + n));
                if n as int == end - i {
                    assert(i == start || all.subrange(start as int, end as int).len() > end - i);
                }
                assert(all.subrange(i as int, i + n)[0] == all[i as int]);
                assert(whole[0] == all[start as int]);
            }
            let inner = build_entries(crate::table::TableBuilder::new(), cs, i, i + n, depth + 1);
            let seg: &String = &cs[i].path[depth];
            proof {
                assert(all[i as int].path[depth as int] == cs@[i as int].path@[depth as int]@);
            }
            let ghost bprev = b.entries();
            b = b.group(seg.as_str(), inner);
            proof {
                assert(inner.entries() =~= spec_build(
                    all.subrange(i as int, i + n),
                    (depth + 1) as nat,
                ));
                assert(seg@ == all[i as int].path[depth as int]);
                assert(sub.skip(n as int) =~= all.subrange(i + n, end as int));
                assert(run_len_with(sub, sub[0].path[depth as int], depth as int) == n);
                assert(bprev + spec_build(sub, depth as nat) =~= b.entries() + spec_build(
                    all.subrange(i + n, end as int),
                    depth as nat,
                ));
            }
            i += n;
        }
    }
    proof {
        assert(all.subrange(end as int, end as int).len() == 0);
        assert(b.entries() + spec_build(all.subrange(end as int, end as int), depth as nat)
            =~= b.entries());
    }
    b
}

/// The component a record parses to.
pub open spec fn component_of(r: RecordV) -> ComponentV {
    ComponentV { path: split_dots(r.name), display_kind: kind_of(r.unit, r.labels) }
}

/// The components a snapshot of records parses to.
pub open spec fn components_of(rs: Seq<RecordV>) -> Seq<ComponentV> {
    Seq::new(rs.len(), |i: int| component_of(rs[i]))
}

/// The layout nodes a snapshot of records builds: every name split on
/// dots, the measurements sorted by path, and runs of shared leading
/// segments grouped.
pub open spec fn table_entries_of(rs: Seq<RecordV>) -> Seq<EntryV> {
    spec_build(sort_components(components_of(rs)), 0)
}

pub proof fn lemma_insert_max_plen(c: ComponentV, s: Seq<ComponentV>)
    ensures
        max_plen(insert_sorted(c, s)) <= if c.path.len() >= max_plen(s) {
            c.path.len()
        } else {
            max_plen(s)
        },
    decreases s.len(),
{
    let m: nat = if c.path.len() >= max_plen(s) {
        c.path.len()
    } else {
        max_plen(s)
    };
    assert forall|i: int| 0 <= i < insert_sorted(c, s).len() implies (#[trigger] insert_sorted(
        c,
        s,
    )[i].path.len()) <= m by {
        lemma_insert_elements(c, s, i);
        if insert_sorted(c, s)[i] == c {
        } else {
            let j = choose|j: int| 0 <= j < s.len() && insert_sorted(c, s)[i] == s[j];
            lemma_max_plen_in(s, j);
        }
    }
    lemma_max_plen_bound(insert_sorted(c, s), m);
}

pub proof fn lemma_insert_elements(c: ComponentV, s: Seq<ComponentV>, i: int)
    requires
        0 <= i < insert_sorted(c, s).len(),
    ensures
        insert_sorted(c, s)[i] == c || exists|j: int| 0 <= j < s.len() && insert_sorted(c, s)[i]
            == s[j],
    decreases s.len(),
{
    if s.len() == 0 {
    } else if path_lt(c.path, s[0].path) {
        if i > 0 {
            assert(insert_sorted(c, s)[i] == s[i - 1]);
        }
    } else {
        if i == 0 {
            assert(insert_sorted(c, s)[0] == s[0]);
        } else {
            lemma_insert_elements(c, s.drop_first(), i - 1);
            assert(insert_sorted(c, s)[i] == insert_sorted(c, s.drop_first())[i - 1]);
            if insert_sorted(c, s.drop_first())[i - 1] == c {
            } else {
                let j = choose|j: int|
                    0 <= j < s.drop_first().len() && insert_sorted(c, s.drop_first())[i - 1]
                        == s.drop_first()[j];
                assert(s.drop_first()[j] == s[j + 1]);
            }
        }
    }
}

pub proof fn lemma_sort_max_plen(s: Seq<ComponentV>)
    ensures
        max_plen(sort_components(s)) <= max_plen(s),
    decreases s.len(),
{
    if s.len() > 0 {
        lemma_sort_max_plen(s.drop_last());
        lemma_insert_max_plen(s.last(), sort_components(s.drop_last()));
        assert(s.last().path.len() <= max_plen(s)) by {
            lemma_max_plen_in(s, s.len() - 1);
        }
        assert(max_plen(s.drop_last()) <= max_plen(s)) by {
            assert forall|i: int| 0 <= i < s.drop_last().len() implies (#[trigger] s.drop_last()[
                i
            ].path.len()) <= max_plen(s) by {
                assert(s.drop_last()[i] == s[i]);
                lemma_max_plen_in(s, i);
            }
            lemma_max_plen_bound(s.drop_last(), max_plen(s));
        }
    }
}

/// Build the full table for a snapshot of measurements.
#[verifier::loop_isolation(false)]
pub fn table_from_records(records: Vec<Record>) -> (t: crate::table::Table)
    ensures
        t.lines() == crate::table::table_lines(table_entries_of(recs_v(records@))),
        t.fields() == crate::table::table_fields(table_entries_of(recs_v(records@))),
{
    let ghost rs = recs_v(records@);
    let ghost comps_spec = Seq::new(rs.len(), |i: int| component_of(rs[i]));
    let mut comps: Vec<Component> = Vec::new();
    let mut rest = records;
    while rest.len() > 0
        invariant
            rest@.len() <= rs.len(),
            comps@.len() + rest@.len() == rs.len(),
            forall|j: int| 0 <= j < rest@.len() ==> rest@[j]@ == rs[comps@.len() + j],
            forall|j: int| 0 <= j < comps@.len() ==> comps_v(comps@)[j] == comps_spec[j],
            forall|j: int|
                0 <= j < comps@.len() ==> (#[trigger] comps_v(comps@)[j].path.len())
                    <= usize::MAX,
        decreases rest@.len(),
    {
        let ghost i = comps@.len() as int;
        let ghost prev = rest@;
        let r = rest.remove(0);
        proof {
            assert(rest@ =~= prev.drop_first());
            assert(r@ == rs[i]);
        }
        let path = split_path(r.name.as_str());
        let pl = path.len();
        let k = kind_of_record(&r);
        let c = Component { path, display_kind: k };
        let ghost cv = c@;
        let ghost prevcomps = comps@;
        comps.push(c);
        proof {
            assert(forall|j: int|
                0 <= j < i ==> #[trigger] comps_v(comps@)[j] == comps_v(prevcomps)[j]);
            assert(cv =~= component_of(rs[i]));
            assert(comps_v(comps@)[i] == cv);
            assert(cv.path.len() == pl as nat);
        }
    }
    let ghost cv_all = comps_v(comps@);
    proof {
        assert(cv_all =~= comps_spec);
        lemma_max_plen_bound(cv_all, usize::MAX as nat);
    }
    let sorted = sort_by_path(comps);
    let ghost sortedv = sort_components(cv_all);
    let n = sorted.len();
    let builder = build_entries(crate::table::TableBuilder::new(), &sorted, 0, n, 0);
    proof {
        assert(comps_v(sorted@).subrange(0, n as int) =~= sortedv);
        assert(builder.entries() =~= spec_build(sortedv, 0));
        lemma_sort_max_plen(cv_all);
        lemma_build_depth(sortedv, 0);
        assert(crate::tree::depth_seq(builder.entries()) <= usize::MAX);
        assert(builder.entries() == table_entries_of(rs));
    }
    builder.build()
}

/// Order on optional positions: an unknown name sorts before every known
/// position, and known positions sort by index.
pub open spec fn opt_lt(a: Option<int>, b: Option<int>) -> bool {
    match (a, b) {
        (Option::None, Option::Some(_)) => true,
        (Option::Some(x), Option::Some(y)) => x < y,
        _ => false,
    }
}

pub open spec fn opt_v(o: Option<usize>) -> Option<int> {
    match o {
        Option::None => Option::None,
        Option::Some(u) => Option::Some(u as int),
    }
}

/// Stable insertion of a keyed value by position.
pub open spec fn insert_by_pos(p: (Option<int>, ValueV), s: Seq<(Option<int>, ValueV)>) -> Seq<
    (Option<int>, ValueV),
>
    decreases s.len(),
{
    if s.len() == 0 {
        seq![p]
    } else if opt_lt(p.0, s[0].0) {
        seq![p] + s
    } else {
        seq![s[0]] + insert_by_pos(p, s.drop_first())
    }
}

/// Stable sort of keyed values by position, leftmost first.
pub open spec fn sort_by_pos(s: Seq<(Option<int>, ValueV)>) -> Seq<(Option<int>, ValueV)>
    decreases s.len(),
{
    if s.len() == 0 {
        Seq::empty()
    } else {
        insert_by_pos(s.last(), sort_by_pos(s.drop_last()))
    }
}

/// Views of a sequence of named values.
pub open spec fn items_v(items: Seq<(String, Value)>) -> Seq<(Seq<char>, ValueV)> {
    Seq::new(items.len(), |i: int| (items[i].0@, items[i].1@))
}

/// Views of a sequence of keyed values.
pub open spec fn pairs_v(ps: Seq<(Option<usize>, Value)>) -> Seq<(Option<int>, ValueV)> {
    Seq::new(ps.len(), |i: int| (opt_v(ps[i].0), ps[i].1@))
}

/// Each named value keyed by the position its split name looks up to.
pub open spec fn keyed(fs: Seq<FieldV>, items: Seq<(Seq<char>, ValueV)>) -> Seq<
    (Option<int>, ValueV),
> {
    Seq::new(
        items.len(),
        |i: int| (crate::table::position_of_v(fs, split_dots(items[i].0)), items[i].1),
    )
}

/// The values of one snapshot arranged into field order: keyed by each
/// field's position and sorted stably, unknown names first.
pub open spec fn status_values(fs: Seq<FieldV>, items: Seq<(Seq<char>, ValueV)>) -> Seq<ValueV> {
    Seq::new(sort_by_pos(keyed(fs, items)).len(), |i: int| sort_by_pos(keyed(fs, items))[i].1)
}

pub proof fn lemma_insert_at_pos(p: (Option<int>, ValueV), s: Seq<(Option<int>, ValueV)>, j: int)
    requires
        0 <= j <= s.len(),
        forall|k: int| 0 <= k < j ==> !opt_lt(p.0, s[k].0),
        j < s.len() ==> opt_lt(p.0, s[j].0),
    ensures
        insert_by_pos(p, s) == s.take(j) + seq![p] + s.skip(j),
    decreases s.len(),
{
    if s.len() == 0 {
        assert(insert_by_pos(p, s) =~= s.take(j) + seq![p] + s.skip(j));
    } else if j == 0 {
        assert(s.take(0) =~= Seq::<(Option<int>, ValueV)>::empty());
        assert(s.skip(0) =~= s);
        assert(insert_by_pos(p, s) =~= s.take(j) + seq![p] + s.skip(j));
    } else {
        assert(!opt_lt(p.0, s[0].0));
        assert forall|k: int| 0 <= k < j - 1 implies !opt_lt(p.0, s.drop_first()[k].0) by {
            assert(s.drop_first()[k] == s[k + 1]);
        }
        if j - 1 < s.drop_first().len() {
            assert(s.drop_first()[j - 1] == s[j]);
        }
        lemma_insert_at_pos(p, s.drop_first(), j - 1);
        assert(s.drop_first().take(j - 1) =~= s.take(j).drop_first());
        assert(s.drop_first().skip(j - 1) =~= s.skip(j));
        assert(insert_by_pos(p, s) =~= s.take(j) + seq![p] + s.skip(j));
    }
}

fn opt_lt_exec(a: &Option<usize>, b: &Option<usize>) -> (r: bool)
    ensures
        r == opt_lt(opt_v(*a), opt_v(*b)),
{
    match (a, b) {
        (Option::None, Option::Some(_)) => true,
        (Option::Some(x), Option::Some(y)) => *x < *y,
        _ => false,
    }
}

/// Render one data row from a snapshot of named values: each value is
/// keyed by its field's position, values with unknown names come first,
/// and the row is rendered in that order.
#[verifier::loop_isolation(false)]
pub fn status_row(table: &mut crate::table::Table, items: Vec<(String, Value)>) -> (r: String)
    ensures
        final(table).lines() == old(table).lines(),
        r@ == crate::table::row_text(
            old(table).fields(),
            status_values(old(table).fields(), items_v(items@)),
        ),
        final(table).fields() == crate::table::fields_after(
            old(table).fields(),
            status_values(old(table).fields(), items_v(items@)),
        ),
{
    let ghost fs = old(table).fields();
    let ghost itv = items_v(items@);
    let ghost kv = keyed(fs, itv);
    let mut pairs: Vec<(Option<usize>, Value)> = Vec::new();
    let mut rest = items;
    while rest.len() > 0
        invariant
            *table == *old(table),
            pairs@.len() + rest@.len() == itv.len(),
            forall|j: int|
                0 <= j < rest@.len() ==> (rest@[j].0@, rest@[j].1@) == itv[pairs@.len() + j],
            forall|j: int| 0 <= j < pairs@.len() ==> pairs_v(pairs@)[j] == kv[j],
        decreases rest@.len(),
    {
        let ghost i = pairs@.len() as int;
        let ghost prev = rest@;
        let (name, value) = rest.remove(0);
        let ghost vv = value@;
        proof {
            assert(rest@ =~= prev.drop_first());
            assert((name@, vv) == itv[i]);
        }
        let path = split_path(name.as_str());
        let pos = table.position_of(path);
        proof {
            assert(opt_v(pos) == crate::table::position_of_v(fs, split_dots(name@)));
        }
        let ghost prevp = pairs@;
        pairs.push((pos, value));
        proof {
            assert(forall|j: int|
                0 <= j < i ==> #[trigger] pairs_v(pairs@)[j] == pairs_v(prevp)[j]);
            assert(pairs_v(pairs@)[i] == (opt_v(pos), vv));
            assert(pairs_v(pairs@)[i] == kv[i]);
        }
    }
    let ghost pv = pairs_v(pairs@);
    proof {
        assert(pv =~= kv);
    }
    let mut sorted: Vec<(Option<usize>, Value)> = Vec::new();
    let mut prest = pairs;
    while prest.len() > 0
        invariant
            *table == *old(table),
            prest@.len() <= kv.len(),
            prest@.len() + (kv.len() - prest@.len()) == kv.len(),
            forall|j: int|
                0 <= j < prest@.len() ==> (opt_v(prest@[j].0), prest@[j].1@) == kv[kv.len()
                    - prest@.len() + j],
            pairs_v(sorted@) == sort_by_pos(kv.take(kv.len() - prest@.len())),
        decreases prest@.len(),
    {
        let ghost i = kv.len() - prest@.len();
        let ghost prev = prest@;
        let p = prest.remove(0);
        let ghost pkv = (opt_v(p.0), p.1@);
        proof {
            assert(prest@ =~= prev.drop_first());
            assert(pkv == kv[i]);
            crate::tree::lemma_take_step(kv, i);
        }
        let ghost sorted_prev = pairs_v(sorted@);
        let mut j: usize = 0;
        while j < sorted.len() && !opt_lt_exec(&p.0, &sorted[j].0)
            invariant
                j <= sorted@.len(),
                forall|k: int| 0 <= k < j ==> !opt_lt(pkv.0, sorted_prev[k].0),
            decreases sorted@.len() - j,
        {
            proof {
                assert((opt_v(sorted@[j as int].0), sorted@[j as int].1@) == sorted_prev[j as int]);
            }
            j += 1;
        }
        proof {
            if j < sorted@.len() {
                assert((opt_v(sorted@[j as int].0), sorted@[j as int].1@) == sorted_prev[j as int]);
                assert(opt_lt(pkv.0, sorted_prev[j as int].0));
            }
            lemma_insert_at_pos(pkv, sorted_prev, j as int);
        }
        sorted.insert(j, p);
        proof {
            assert(pairs_v(sorted@) =~= sorted_prev.take(j as int) + seq![pkv] + sorted_prev.skip(
                j as int,
            ));
            assert(pairs_v(sorted@) =~= sort_by_pos(kv.take(i + 1)));
        }
    }
    proof {
        assert(kv.take(kv.len() as int) =~= kv);
    }
    let ghost sv = sort_by_pos(kv);
    let mut values: Vec<Value> = Vec::new();
    let mut srest = sorted;
    while srest.len() > 0
        invariant
            *table == *old(table),
            values@.len() + srest@.len() == sv.len(),
            forall|j: int|
                0 <= j < srest@.len() ==> (opt_v(srest@[j].0), srest@[j].1@) == sv[values@.len()
                    + j],
            forall|j: int|
                0 <= j < values@.len() ==> crate::table::vals_v(values@)[j] == sv[j].1,
        decreases srest@.len(),
    {
        let ghost i = values@.len() as int;
        let ghost prev = srest@;
        let q = srest.remove(0);
        let ghost qv = q.1@;
        proof {
            assert(srest@ =~= prev.drop_first());
            assert(qv == sv[i].1);
        }
        let ghost prevv = values@;
        values.push(q.1);
        proof {
            assert(forall|j: int|
                0 <= j < i ==> #[trigger] crate::table::vals_v(values@)[j] == crate::table::vals_v(
                    prevv,
                )[j]);
            assert(crate::table::vals_v(values@)[i] == qv);
        }
    }
    proof {
        assert(crate::table::vals_v(values@) =~= status_values(fs, itv));
    }
    table.display_row(values)
}

} // verus!
