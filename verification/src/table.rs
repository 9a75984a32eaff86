use vstd::prelude::*;
use vstd::string::StrSliceExecFns;
use vstd::string::StringExecFns;
use crate::passes::{
    add_padding, clone_field, clone_path, clone_value, collect_fields, collect_seq, margins_v,
    set_paths, with_paths_seq,
};
use crate::render::{
    fields_wf_entry, fields_wf_seq, lemma_srender_seq_uniform, lemma_uniform_depth_bound_seq,
    lemma_uniformize_wf_entry, lemma_with_paths_seq_shape, push_spaces, render_seq, spaces,
    srender_seq,
};
use crate::tree::uniform_depth;
use crate::tree::{
    depth_seq, entries_v, entry_v, fields_v, lemma_depth_in, lemma_entries_v,
    lemma_entries_v_push, lemma_take_step, lemma_uniformize_seq, lemma_uniformize_uniform,
    strs_v, uniformize_seq, DisplayInfo, Entry, EntryV, Field, FieldV,
};
use crate::tree::{depth_of_entries, force_uniform_depth};
use crate::value::{int_text, value_text, Align, DisplayKind, Value, ValueV};

verus! {

/// `s` without its trailing spaces.
pub open spec fn trim_end_v(s: Seq<char>) -> Seq<char>
    decreases s.len(),
{
    if s.len() == 0 {
        s
    } else if s.last() == ' ' {
        trim_end_v(s.drop_last())
    } else {
        s
    }
}

/// Every line without its trailing spaces.
pub open spec fn trim_lines_v(ls: Seq<Seq<char>>) -> Seq<Seq<char>> {
    Seq::new(ls.len(), |i: int| trim_end_v(ls[i]))
}

/// The lines joined by newlines.
pub open spec fn join_lines(ls: Seq<Seq<char>>) -> Seq<char>
    decreases ls.len(),
{
    if ls.len() == 0 {
        Seq::empty()
    } else if ls.len() == 1 {
        ls[0]
    } else {
        join_lines(ls.drop_last()) + seq!['\n'] + ls.last()
    }
}

/// The header lines a set of builder entries lays out to: the tree is
/// padded to uniform depth, paths are assigned, the header block is
/// rendered, and each line is trimmed of trailing spaces.
pub open spec fn table_lines(es: Seq<EntryV>) -> Seq<Seq<char>> {
    let d = depth_seq(es);
    let u = uniformize_seq(es, d);
    let p = with_paths_seq(u, Seq::empty());
    trim_lines_v(srender_seq(p, d).1)
}

/// The field index the same entries flatten to, margins included.
pub open spec fn table_fields(es: Seq<EntryV>) -> Seq<FieldV> {
    let d = depth_seq(es);
    let u = uniformize_seq(es, d);
    let p = with_paths_seq(u, Seq::empty());
    margins_v(collect_seq(srender_seq(p, d).0))
}

/// Accumulates the layout tree, node by node, left to right.
pub struct TableBuilder {
    header: Vec<Entry>,
}

impl TableBuilder {
    /// The model: the nodes added so far.
    pub closed spec fn entries(self) -> Seq<EntryV> {
        entries_v(self.header@)
    }

    #[verifier::type_invariant]
    spec fn wf(self) -> bool {
        fields_wf_seq(self.entries())
    }

    pub fn new() -> (r: TableBuilder)
        ensures
            r.entries() == Seq::<EntryV>::empty(),
    {
        let r = TableBuilder { header: Vec::new() };
        proof {
            assert(entries_v(r.header@) =~= Seq::<EntryV>::empty());
        }
        r
    }

    /// Append a labelled group whose children are the nodes of `inner`.
    pub fn group(self, name: &str, inner: TableBuilder) -> (r: TableBuilder)
        ensures
            r.entries() == self.entries().push(EntryV::Group(name@, inner.entries())),
    {
        proof {
            use_type_invariant(&self);
            use_type_invariant(&inner);
        }
        let ghost innerv = inner.entries();
        let mut header = self.header;
        let ghost h0 = header@;
        header.push(Entry::Group(String::from_str(name), inner.header));
        proof {
            lemma_entries_v_push(h0, header@.last());
            let newv = entries_v(h0).push(EntryV::Group(name@, innerv));
            assert(entries_v(header@) =~= newv);
            assert forall|i: int| #![trigger newv[i]] 0 <= i < newv.len() implies
                fields_wf_entry(newv[i]) by {
                if i < newv.len() - 1 {
                    assert(newv[i] == entries_v(h0)[i]);
                    assert(fields_wf_entry(entries_v(h0)[i]));
                } else {
                    assert(newv[i] == EntryV::Group(name@, innerv));
                }
            }
        }
        TableBuilder { header }
    }

    /// Append a field column that displays under `display_kind`; its column
    /// starts as wide as its name, and a histogram column is left-aligned.
    pub fn field(self, name: &str, display_kind: DisplayKind) -> (r: TableBuilder)
        ensures
            r.entries() == self.entries().push(
                EntryV::Field(
                    FieldV {
                        name: name@,
                        full_path: Seq::empty(),
                        len: name@.len(),
                        margin_left: 0,
                        align: if display_kind is Histogram {
                            Align::Left
                        } else {
                            Align::Right
                        },
                        display_kind: display_kind,
                        last_value: ValueV::Int(0),
                    },
                ),
            ),
    {
        proof {
            use_type_invariant(&self);
        }
        let nlen = name.unicode_len();
        let align = match display_kind {
            DisplayKind::Histogram => Align::Left,
            _ => Align::Right,
        };
        let f = Field {
            name: String::from_str(name),
            full_path: Vec::new(),
            display: DisplayInfo { len: nlen, margin_left: 0, align, display_kind },
            last_value: Value::Int(0),
        };
        proof {
            assert(strs_v(f.full_path@) =~= Seq::<Seq<char>>::empty());
        }
        let ghost fv = f@;
        let mut header = self.header;
        let ghost h0 = header@;
        header.push(Entry::Field(f));
        proof {
            lemma_entries_v_push(h0, header@.last());
            let newv = entries_v(h0).push(EntryV::Field(fv));
            assert(entries_v(header@) =~= newv);
            assert forall|i: int| #![trigger newv[i]] 0 <= i < newv.len() implies
                fields_wf_entry(newv[i]) by {
                if i < newv.len() - 1 {
                    assert(newv[i] == entries_v(h0)[i]);
                    assert(fields_wf_entry(entries_v(h0)[i]));
                } else {
                    assert(newv[i] == EntryV::Field(fv));
                }
            }
        }
        TableBuilder { header }
    }

    /// Lay the table out: compute the depth, pad every leaf to it, assign
    /// paths, render and trim the header lines, and flatten the field index.
    ///
    /// The depth bound is a machine limit: there is one header line per
    /// nesting level.
    #[verifier::loop_isolation(false)]
    pub fn build(self) -> (t: Table)
        requires
            depth_seq(self.entries()) <= usize::MAX,
        ensures
            t.lines() == table_lines(self.entries()),
            t.fields() == table_fields(self.entries()),
    {
        proof {
            use_type_invariant(&self);
        }
        let ghost es0 = self.entries();
        let header = self.header;
        let d = depth_of_entries(&header);
        let u = force_uniform_depth(header, d);
        let ghost dn = d as nat;
        let ghost uv = uniformize_seq(es0, dn);
        proof {
            lemma_uniformize_seq(es0, dn);
            assert forall|i: int| #![trigger uv[i]] 0 <= i < uv.len() implies
                crate::tree::uniform_entry(uv[i], d as int) && fields_wf_entry(uv[i]) by {
                lemma_depth_in(es0, i);
                lemma_uniformize_uniform(es0[i], dn);
                assert(fields_wf_entry(es0[i]));
                lemma_uniformize_wf_entry(es0[i], dn);
                assert(uv[i] == crate::tree::uniformize_entry(es0[i], dn));
            }
            assert(uniform_depth(uv, d as int));
            assert(fields_wf_seq(uv));
            lemma_uniform_depth_bound_seq(uv, d as int);
        }
        let ghost uvv = entries_v(u@);
        proof {
            assert(uvv == uv);
        }
        let empty_prefix: Vec<String> = Vec::new();
        let ghost pv = with_paths_seq(uv, Seq::empty());
        proof {
            assert(strs_v(empty_prefix@) =~= Seq::<Seq<char>>::empty());
            lemma_with_paths_seq_shape(uv, Seq::empty(), d as int);
        }
        let p = set_paths(u, &empty_prefix, d);
        let ghost pvv = entries_v(p@);
        proof {
            assert(pvv == with_paths_seq(uvv, strs_v(empty_prefix@)));
            assert(pvv == pv);
        }
        let (tr, lines) = render_seq(p, d);
        proof {
            assert(strs_v(lines@) == srender_seq(pv, dn).1);
            assert(entries_v(tr@) == srender_seq(pv, dn).0);
        }
        proof {
            lemma_srender_seq_uniform(pv, dn);
            lemma_uniform_depth_bound_seq(srender_seq(pv, dn).0, d as int);
        }
        let fs = collect_fields(tr, d);
        let fs2 = add_padding(fs);
        let mut tl: Vec<String> = Vec::new();
        let mut i: usize = 0;
        let ghost lv = srender_seq(pv, dn).1;
        while i < lines.len()
            invariant
                i <= lines@.len(),
                tl@.len() == i,
                forall|j: int| 0 <= j < i ==> tl@[j]@ == trim_end_v(lv[j]),
            decreases lines@.len() - i,
        {
            proof {
                assert(strs_v(lines@)[i as int] == lines@[i as int]@);
                assert(lines@[i as int]@ == lv[i as int]);
            }
            let t = trim_line(&lines[i]);
            tl.push(t);
            i += 1;
        }
        let t = Table { header_lines: tl, fields: fs2 };
        proof {
            assert(t.lines() =~= trim_lines_v(lv));
            assert(t.fields() == margins_v(collect_seq(srender_seq(pv, dn).0)));
        }
        t
    }
}

/// `s` without its trailing spaces.
#[verifier::loop_isolation(false)]
pub fn trim_line(s: &String) -> (r: String)
    ensures
        r@ == trim_end_v(s@),
{
    let mut end = s.as_str().unicode_len();
    proof {
        assert(s@.take(end as int) =~= s@);
    }
    while end > 0 && s.as_str().get_char(end - 1) == ' '
        invariant
            end <= s@.len(),
            trim_end_v(s@) == trim_end_v(s@.take(end as int)),
        decreases end,
    {
        proof {
            lemma_take_step(s@, end - 1);
            assert(s@.take(end as int).last() == ' ');
        }
        end -= 1;
    }
    let r = String::from_str(s.as_str().substring_char(0, end));
    proof {
        assert(r@ == s@.take(end as int));
        if end > 0 {
            assert(s@.take(end as int).last() == s@[end - 1]);
            assert(trim_end_v(s@.take(end as int)) == s@.take(end as int));
        }
    }
    r
}

/// The change a `Difference` column shows: the difference of two integer
/// values when it fits in the integer range, the raw new value otherwise
/// (also whenever either value is not an integer).
pub open spec fn diff_v(last: ValueV, v: ValueV) -> ValueV {
    match (last, v) {
        (ValueV::Int(x), ValueV::Int(y)) => if i64::MIN <= y - x <= i64::MAX {
            ValueV::Int(y - x)
        } else {
            v
        },
        _ => v,
    }
}

/// `n` hash marks.
pub open spec fn hashes(n: nat) -> Seq<char>
    decreases n,
{
    if n == 0 {
        Seq::empty()
    } else {
        hashes((n - 1) as nat).push('#')
    }
}

/// The bar a `Histogram` column shows: one `#` per unit, empty for zero or
/// negative values; a non-integer value falls back to its raw text.
pub open spec fn bar_v(v: ValueV) -> Seq<char> {
    match v {
        ValueV::Int(x) => if x <= 0 {
            Seq::empty()
        } else {
            hashes(x as nat)
        },
        ValueV::Text(s) => s,
    }
}

/// The text one field shows for one value, before padding.
pub open spec fn cell_text(f: FieldV, v: ValueV) -> Seq<char> {
    match f.display_kind {
        DisplayKind::Number => value_text(v),
        DisplayKind::Difference => value_text(diff_v(f.last_value, v)),
        DisplayKind::Histogram => bar_v(v),
    }
}

/// The column width after showing text of length `t`: one more than the
/// text when it outgrew the column (never shrinking, saturating at the
/// machine limit), unchanged otherwise.
pub open spec fn grow(len: nat, t: nat) -> nat {
    if t > len {
        if t < usize::MAX {
            (t + 1) as nat
        } else {
            usize::MAX as nat
        }
    } else {
        len
    }
}

/// Text aligned within a column of width `w`.
pub open spec fn aligned(t: Seq<char>, w: nat, a: Align) -> Seq<char> {
    match a {
        Align::Left => t + spaces((w - t.len()) as nat),
        Align::Right => spaces((w - t.len()) as nat) + t,
    }
}

/// The state of a field after showing one value: its column grown to fit,
/// and, for a `Difference` field, the value remembered.
pub open spec fn field_after(f: FieldV, v: ValueV) -> FieldV {
    FieldV {
        len: grow(f.len, cell_text(f, v).len()),
        last_value: if f.display_kind is Difference {
            v
        } else {
            f.last_value
        },
        ..f
    }
}

/// One rendered cell: the field's margin, then its aligned text.
pub open spec fn cell_out(f: FieldV, v: ValueV) -> Seq<char> {
    spaces(f.margin_left) + aligned(cell_text(f, v), grow(f.len, cell_text(f, v).len()), f.align)
}

pub open spec fn min_nat(a: nat, b: nat) -> nat {
    if a <= b {
        a
    } else {
        b
    }
}

/// The rendered cells of one row, one per field, extra values ignored.
pub open spec fn row_cells(fs: Seq<FieldV>, vs: Seq<ValueV>) -> Seq<Seq<char>> {
    Seq::new(min_nat(fs.len(), vs.len()), |i: int| cell_out(fs[i], vs[i]))
}

/// Cells joined by single spaces.
pub open spec fn join_cells(cs: Seq<Seq<char>>) -> Seq<char>
    decreases cs.len(),
{
    if cs.len() == 0 {
        Seq::empty()
    } else if cs.len() == 1 {
        cs[0]
    } else {
        join_cells(cs.drop_last()) + seq![' '] + cs.last()
    }
}

/// The text of one data row.
pub open spec fn row_text(fs: Seq<FieldV>, vs: Seq<ValueV>) -> Seq<char> {
    join_cells(row_cells(fs, vs))
}

/// The field index after one row: each field that received a value is
/// updated, the rest are unchanged.
pub open spec fn fields_after(fs: Seq<FieldV>, vs: Seq<ValueV>) -> Seq<FieldV> {
    Seq::new(
        fs.len(),
        |i: int|
            if i < vs.len() {
                field_after(fs[i], vs[i])
            } else {
                fs[i]
            },
    )
}

/// Views of a sequence of values.
pub open spec fn vals_v(vs: Seq<Value>) -> Seq<ValueV> {
    Seq::new(vs.len(), |i: int| vs[i]@)
}

/// First index at or after `i` whose field's path ends in `p` after
/// skipping `off` leading segments.
pub open spec fn pos_from(fs: Seq<FieldV>, p: Seq<Seq<char>>, off: int, i: int) -> Option<int>
    decreases fs.len() - i,
{
    if i < 0 || i >= fs.len() {
        None
    } else if path_match(fs[i], p, off) {
        Some(i)
    } else {
        pos_from(fs, p, off, i + 1)
    }
}

pub open spec fn path_match(f: FieldV, p: Seq<Seq<char>>, off: int) -> bool {
    0 <= off <= f.full_path.len() && f.full_path.skip(off) == p
}

/// The position a path names: the leading synthetic-group segments shared
/// by every field are not counted, so a lookup uses the path as the caller
/// wrote it.  `None` when no field matches or the path is too long.
pub open spec fn position_of_v(fs: Seq<FieldV>, p: Seq<Seq<char>>) -> Option<int> {
    if fs.len() == 0 {
        None
    } else if fs[0].full_path.len() < p.len() {
        None
    } else {
        pos_from(fs, p, fs[0].full_path.len() - p.len(), 0)
    }
}

/// A laid-out table: its header lines and its ordered field index.
pub struct Table {
    header_lines: Vec<String>,
    fields: Vec<Field>,
}

impl Table {
    /// The model: the header lines, top first.
    pub closed spec fn lines(self) -> Seq<Seq<char>> {
        strs_v(self.header_lines@)
    }

    /// The model: the fields in render order.
    pub closed spec fn fields(self) -> Seq<FieldV> {
        fields_v(self.fields@)
    }

    /// The header lines joined with newlines.
    pub fn header(&self) -> (r: String)
        ensures
            r@ == join_lines(self.lines()),
    {
        let mut out = String::new();
        let mut i: usize = 0;
        proof {
            assert(self.lines().take(0) =~= Seq::<Seq<char>>::empty());
        }
        while i < self.header_lines.len()
            invariant
                i <= self.header_lines@.len(),
                out@ == join_lines(self.lines().take(i as int)),
            decreases self.header_lines@.len() - i,
        {
            proof {
                lemma_take_step(self.lines(), i as int);
            }
            if i > 0 {
                out.append("\n");
                proof {
                    reveal_strlit("\n");
                    assert("\n"@ =~= seq!['\n']);
                }
            }
            let lref: &String = &self.header_lines[i];
            out.append(lref.as_str());
            proof {
                if i == 0 {
                    assert(out@ =~= join_lines(self.lines().take(i + 1)));
                } else {
                    assert(out@ =~= join_lines(self.lines().take(i + 1)));
                }
            }
            i += 1;
        }
        proof {
            assert(self.lines().take(self.header_lines@.len() as int) =~= self.lines());
        }
        out
    }

    /// The index of the field whose full path ends with `path`, the uniform
    /// synthetic-group prefix discounted.
    #[verifier::loop_isolation(false)]
    pub fn position_of(&self, path: Vec<String>) -> (r: Option<usize>)
        ensures
            match r {
                Some(i) => position_of_v(self.fields(), strs_v(path@)) == Some(i as int),
                None => position_of_v(self.fields(), strs_v(path@)) is None,
            },
    {
        let ghost fs = self.fields();
        let ghost p = strs_v(path@);
        if self.fields.len() == 0 {
            return None;
        }
        let first: &Field = &self.fields[0];
        if first.full_path.len() < path.len() {
            return None;
        }
        let off = first.full_path.len() - path.len();
        let mut i: usize = 0;
        while i < self.fields.len()
            invariant
                i <= self.fields@.len(),
                pos_from(fs, p, off as int, 0) == pos_from(fs, p, off as int, i as int),
            decreases self.fields@.len() - i,
        {
            let f: &Field = &self.fields[i];
            if Self::matches_at(f, &path, off) {
                proof {
                    assert(path_match(fs[i as int], p, off as int));
                }
                return Some(i);
            }
            proof {
                assert(!path_match(fs[i as int], p, off as int));
            }
            i += 1;
        }
        None
    }

    /// Whether `f`'s path ends in `path` after skipping `off` segments.
    #[verifier::loop_isolation(false)]
    fn matches_at(f: &Field, path: &Vec<String>, off: usize) -> (r: bool)
        ensures
            r == path_match(f@, strs_v(path@), off as int),
    {
        let ghost fp = strs_v(f.full_path@);
        let ghost p = strs_v(path@);
        if f.full_path.len() < off {
            return false;
        }
        if f.full_path.len() - off != path.len() {
            proof {
                assert(fp.skip(off as int).len() != p.len());
            }
            return false;
        }
        let mut j: usize = 0;
        while j < path.len()
            invariant
                j <= path@.len(),
                off + path@.len() == f.full_path@.len(),
                forall|k: int| 0 <= k < j ==> fp.skip(off as int)[k] == p[k],
            decreases path@.len() - j,
        {
            proof {
                assert(fp.skip(off as int)[j as int] == fp[off + j]);
                assert(fp[off + j] == f.full_path@[off + j]@);
                assert(p[j as int] == path@[j as int]@);
            }
            if !(f.full_path[off + j] == path[j]) {
                proof {
                    assert(fp.skip(off as int)[j as int] != p[j as int]);
                }
                return false;
            }
            proof {
                assert(fp.skip(off as int)[j as int] == p[j as int]);
            }
            j += 1;
        }
        proof {
            assert(fp.skip(off as int) =~~= p);
        }
        true
    }

    /// Render one data row: each value is formatted by its field's display
    /// kind, aligned and padded into its column, and columns are joined by
    /// single spaces.  A column grows permanently when its text outgrows
    /// it; a `Difference` field remembers the value it was shown.  Values
    /// beyond the field count are ignored; fields beyond the value count
    /// are unchanged.
    #[verifier::loop_isolation(false)]
    pub fn display_row(&mut self, values: Vec<Value>) -> (r: String)
        ensures
            final(self).lines() == old(self).lines(),
            final(self).fields() == fields_after(old(self).fields(), vals_v(values@)),
            r@ == row_text(old(self).fields(), vals_v(values@)),
            forall|i: int|
                0 <= i < old(self).fields().len() ==> final(self).fields()[i].len >= old(
                    self,
                ).fields()[i].len,
    {
        let ghost fs = old(self).fields();
        let ghost vs = vals_v(values@);
        let ghost cells = row_cells(fs, vs);
        let n: usize = if values.len() <= self.fields.len() {
            values.len()
        } else {
            self.fields.len()
        };
        let mut out = String::new();
        let mut newfields: Vec<Field> = Vec::new();
        let mut i: usize = 0;
        while i < n
            invariant
                n as nat == min_nat(fs.len(), vs.len()),
                i <= n,
                newfields@.len() == i,
                forall|j: int| 0 <= j < i ==> fields_v(newfields@)[j] == field_after(fs[j], vs[j]),
                forall|j: int| 0 <= j < i ==> #[trigger] fields_v(newfields@)[j].len >= fs[j].len,
                out@ == join_cells(cells.take(i as int)),
            decreases n - i,
        {
            proof {
                lemma_take_step(cells, i as int);
            }
            if i > 0 {
                out.append(" ");
                proof {
                    reveal_strlit(" ");
                    assert(" "@ =~= seq![' ']);
                }
            }
            let ghost out_start = out@;
            let f: &Field = &self.fields[i];
            let v: &Value = &values[i];
            push_spaces(&mut out, f.display.margin_left);
            let text = cell_to_text(f, v);
            let new_len = display_field(&mut out, f, &text);
            let nf = Field {
                name: f.name.clone(),
                full_path: clone_path(&f.full_path),
                display: DisplayInfo {
                    len: new_len,
                    margin_left: f.display.margin_left,
                    align: f.display.align,
                    display_kind: f.display.display_kind,
                },
                last_value: match f.display.display_kind {
                    DisplayKind::Difference => clone_value(v),
                    _ => clone_value(&f.last_value),
                },
            };
            proof {
                assert(nf@ =~= field_after(fs[i as int], vs[i as int]));
                assert(out@ =~= out_start + cell_out(fs[i as int], vs[i as int]));
                assert(out@ =~= join_cells(cells.take(i + 1)));
            }
            let ghost prevnf = newfields@;
            newfields.push(nf);
            proof {
                assert(forall|j: int|
                    0 <= j < i ==> #[trigger] fields_v(newfields@)[j] == fields_v(prevnf)[j]);
                assert(fields_v(newfields@)[i as int] == nf@);
                assert(nf@.len >= fs[i as int].len);
            }
            i += 1;
        }
        while i < self.fields.len()
            invariant
                n <= i <= self.fields@.len(),
                newfields@.len() == i,
                forall|j: int|
                    0 <= j < n ==> fields_v(newfields@)[j] == field_after(fs[j], vs[j]),
                forall|j: int| n <= j < i ==> fields_v(newfields@)[j] == fs[j],
                forall|j: int| 0 <= j < i ==> #[trigger] fields_v(newfields@)[j].len >= fs[j].len,
            decreases self.fields@.len() - i,
        {
            let ghost prevnf = newfields@;
            let nf = clone_field(&self.fields[i]);
            newfields.push(nf);
            proof {
                assert(forall|j: int|
                    0 <= j < i ==> #[trigger] fields_v(newfields@)[j] == fields_v(prevnf)[j]);
                assert(fields_v(newfields@)[i as int] == nf@);
                assert(nf@ == fs[i as int]);
            }
            i += 1;
        }
        self.fields = newfields;
        proof {
            assert(cells.take(n as int) =~= cells);
            assert(self.fields() =~= fields_after(fs, vs));
        }
        out
    }
}

/// The text a field shows for a value, by its display kind.
fn cell_to_text(f: &Field, v: &Value) -> (r: String)
    ensures
        r@ == cell_text(f@, v@),
{
    match f.display.display_kind {
        DisplayKind::Number => crate::value::value_to_string(v),
        DisplayKind::Difference => {
            match (&f.last_value, v) {
                (Value::Int(x), Value::Int(y)) => {
                    let wide: i128 = (*y as i128) - (*x as i128);
                    if i64::MIN as i128 <= wide && wide <= i64::MAX as i128 {
                        crate::value::int_to_string(wide as i64)
                    } else {
                        crate::value::value_to_string(v)
                    }
                },
                _ => crate::value::value_to_string(v),
            }
        },
        DisplayKind::Histogram => {
            match v {
                Value::Int(x) => {
                    let mut bar = String::new();
                    let mut k: i64 = *x;
                    proof {
                        assert(bar@ =~= hashes(0));
                    }
                    while k > 0
                        invariant
                            k <= *x,
                            k > 0 ==> bar@ == hashes((*x - k) as nat),
                            k <= 0 ==> bar@ == hashes(if *x >= 0 {
                                *x as nat
                            } else {
                                0
                            }),
                        decreases k,
                    {
                        bar.append("#");
                        proof {
                            reveal_strlit("#");
                            assert("#"@ =~= seq!['#']);
                            assert(bar@ =~= hashes((*x - (k - 1)) as nat));
                        }
                        k = k - 1;
                    }
                    proof {
                        assert(bar@ == bar_v(v@));
                    }
                    bar
                },
                Value::Text(s) => s.clone(),
            }
        },
    }
}

/// Append `v` to `output` aligned within the field's column, growing the
/// column first when `v` does not fit; the new column width is returned.
fn display_field(output: &mut String, field: &Field, v: &String) -> (new_len: usize)
    ensures
        new_len as nat == grow(field@.len, v@.len()),
        final(output)@ == old(output)@ + aligned(v@, grow(field@.len, v@.len()), field@.align),
{
    let vlen = v.as_str().unicode_len();
    let new_len: usize = if field.display.len < vlen {
        if vlen < usize::MAX {
            vlen + 1
        } else {
            usize::MAX
        }
    } else {
        field.display.len
    };
    match field.display.align {
        Align::Left => {
            output.append(v.as_str());
            push_spaces(output, new_len - vlen);
        },
        Align::Right => {
            push_spaces(output, new_len - vlen);
            output.append(v.as_str());
        },
    }
    new_len
}

} // verus!
