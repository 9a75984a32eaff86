use vstd::prelude::*;
use vstd::string::StrSliceExecFns;
use vstd::string::StringExecFns;
use crate::passes::{with_paths_seq, with_paths_v};
use crate::tree::{
    depth_seq, depth_v, entries_v, entry_v, lemma_entries_v, lemma_uniformize_seq, strs_v,
    uniform_depth,
    uniform_entry, uniformize_core, uniformize_entry, uniformize_seq, wrap_v, Entry, EntryV,
    FieldV,
};

verus! {

/// `n` spaces.
pub open spec fn spaces(n: nat) -> Seq<char>
    decreases n,
{
    if n == 0 {
        Seq::empty()
    } else {
        spaces((n - 1) as nat).push(' ')
    }
}

pub proof fn lemma_spaces(n: nat)
    ensures
        spaces(n).len() == n,
        forall|i: int| 0 <= i < n ==> spaces(n)[i] == ' ',
    decreases n,
{
    if n > 0 {
        lemma_spaces((n - 1) as nat);
    }
}

/// `name` centered within `w` columns: the extra space is split with the
/// smaller half on the left.  When `w` is not larger, `name` alone.
pub open spec fn center_pad(name: Seq<char>, w: nat) -> Seq<char> {
    if w > name.len() {
        let extra = (w - name.len()) as nat;
        spaces((extra / 2) as nat) + name + spaces(((extra + 1) / 2) as nat)
    } else {
        name
    }
}

pub proof fn lemma_center_len(name: Seq<char>, w: nat)
    ensures
        center_pad(name, w).len() == if w >= name.len() {
            w
        } else {
            name.len()
        },
{
    if w > name.len() {
        let extra = (w - name.len()) as nat;
        lemma_spaces((extra / 2) as nat);
        lemma_spaces(((extra + 1) / 2) as nat);
    }
}

/// Every line of `b` extended by `k` spaces.
pub open spec fn pad_lines(b: Seq<Seq<char>>, k: nat) -> Seq<Seq<char>> {
    Seq::new(b.len(), |i: int| b[i] + spaces(k))
}

/// Lines of `a` and `b` joined pairwise.
pub open spec fn hjoin2(a: Seq<Seq<char>>, b: Seq<Seq<char>>) -> Seq<Seq<char>> {
    Seq::new(a.len(), |i: int| a[i] + b[i])
}

/// The column that separates siblings: a single space between fields on the
/// one leaf line, a ` | ` on every line between groups.
pub open spec fn sep_col(d: nat) -> Seq<char> {
    if d == 1 {
        seq![' ']
    } else {
        seq![' ', '|', ' ']
    }
}

pub open spec fn sep_block(d: nat) -> Seq<Seq<char>> {
    Seq::new(d, |i: int| sep_col(d))
}

/// The width its column occupies in the final leaf line.
pub open spec fn block_width(b: Seq<Seq<char>>) -> nat {
    if b.len() == 0 {
        0
    } else {
        b.last().len()
    }
}

/// The column width of the rightmost leaf of the tree.
pub open spec fn last_leaf_len(e: EntryV) -> nat
    decreases e,
{
    match e {
        EntryV::Field(f) => f.len,
        EntryV::Group(_, es) => if es.len() == 0 {
            0
        } else {
            last_leaf_len(es.last())
        },
    }
}

/// `e` with the rightmost leaf's column widened by `k`.
pub open spec fn bump_last_entry(e: EntryV, k: nat) -> EntryV
    decreases e,
{
    match e {
        EntryV::Field(f) => EntryV::Field(FieldV { len: (f.len + k) as nat, ..f }),
        EntryV::Group(name, es) => if es.len() == 0 {
            e
        } else {
            EntryV::Group(name, es.update(es.len() - 1, bump_last_entry(es.last(), k)))
        },
    }
}

pub open spec fn bump_seq_last(es: Seq<EntryV>, k: nat) -> Seq<EntryV> {
    if es.len() == 0 {
        es
    } else {
        es.update(es.len() - 1, bump_last_entry(es.last(), k))
    }
}

pub proof fn lemma_bump_leaf_len(e: EntryV, k: nat)
    ensures
        last_leaf_len(bump_last_entry(e, k)) <= last_leaf_len(e) + k,
    decreases e,
{
    match e {
        EntryV::Field(_) => {},
        EntryV::Group(_, es) => {
            if es.len() > 0 {
                lemma_bump_leaf_len(es.last(), k);
            }
        },
    }
}

/// Every field's column is at least as wide as its name.
pub open spec fn fields_wf_entry(e: EntryV) -> bool
    decreases e, 0nat,
{
    match e {
        EntryV::Field(f) => f.len >= f.name.len(),
        EntryV::Group(_, es) => fields_wf_seq(es),
    }
}

pub open spec fn fields_wf_seq(es: Seq<EntryV>) -> bool
    decreases es, 1nat,
{
    forall|i: int| #![trigger es[i]] 0 <= i < es.len() ==> fields_wf_entry(es[i])
}

/// The header renderer: yields the widened tree and its block of header
/// lines.  A field's line is its name padded to its column width; a group
/// centers its label over its children, first widening its rightmost leaf
/// when the label would overflow.  Sibling blocks are joined by `sep_col`.
pub open spec fn srender_entry(e: EntryV, d: nat) -> (EntryV, Seq<Seq<char>>)
    decreases d, 0nat, 0nat,
{
    if d == 0 {
        (e, Seq::empty())
    } else {
        match e {
            EntryV::Field(f) => (e, seq![f.name + spaces((f.len - f.name.len()) as nat)]),
            EntryV::Group(name, entries) => {
                let (es2, b) = srender_seq(entries, (d - 1) as nat);
                let w = block_width(b);
                if w >= name.len() {
                    (EntryV::Group(name, es2), seq![center_pad(name, w)] + b)
                } else {
                    let extra = (name.len() - w) as nat;
                    (
                        EntryV::Group(name, bump_seq_last(es2, extra)),
                        seq![name] + pad_lines(b, extra),
                    )
                }
            },
        }
    }
}

pub open spec fn srender_seq(es: Seq<EntryV>, d: nat) -> (Seq<EntryV>, Seq<Seq<char>>)
    decreases d, 1nat, es.len(),
{
    if d == 0 {
        (es, Seq::empty())
    } else if es.len() == 0 {
        (es, Seq::new(d, |i: int| Seq::<char>::empty()))
    } else if es.len() == 1 {
        let (e2, b) = srender_entry(es[0], d);
        (seq![e2], b)
    } else {
        let (e2, b) = srender_entry(es[0], d);
        let (rest2, brest) = srender_seq(es.drop_first(), d);
        (seq![e2] + rest2, hjoin2(hjoin2(b, sep_block(d)), brest))
    }
}

/// Shape of a rendered block: `d` lines, all of one width, and the
/// rightmost leaf's column no wider than the block.
pub proof fn lemma_srender_entry_shape(e: EntryV, d: nat)
    requires
        d >= 1,
        uniform_entry(e, d as int),
        fields_wf_entry(e),
    ensures
        srender_entry(e, d).1.len() == d,
        forall|i: int|
            0 <= i < d ==> #[trigger] srender_entry(e, d).1[i].len() == block_width(
                srender_entry(e, d).1,
            ),
        last_leaf_len(srender_entry(e, d).0) <= block_width(srender_entry(e, d).1),
    decreases d, 0nat,
{
    match e {
        EntryV::Field(f) => {
            lemma_spaces((f.len - f.name.len()) as nat);
            assert(d == 1);
            let line = f.name + spaces((f.len - f.name.len()) as nat);
            assert(line.len() == f.len);
            assert(srender_entry(e, d).1 =~= seq![line]);
        },
        EntryV::Group(name, entries) => {
            let dc = (d - 1) as nat;
            let (es2, b) = srender_seq(entries, dc);
            let w = block_width(b);
            if dc == 0 {
                if entries.len() > 0 {
                    assert(uniform_entry(entries[0], 0));
                    assert(false);
                }
                assert(entries.len() == 0);
                assert(b =~= Seq::<Seq<char>>::empty());
                assert(w == 0);
                if w >= name.len() {
                    assert(name.len() == 0);
                    lemma_center_len(name, w);
                    assert(srender_entry(e, d).1 =~= seq![center_pad(name, w)]);
                } else {
                    let extra = (name.len() - w) as nat;
                    assert(pad_lines(b, extra) =~= Seq::<Seq<char>>::empty());
                    assert(srender_entry(e, d).1 =~= seq![name]);
                    assert(bump_seq_last(es2, extra) =~= es2);
                    assert(last_leaf_len(srender_entry(e, d).0) == 0);
                }
            } else {
                lemma_srender_seq_shape(entries, dc);
                if w >= name.len() {
                    lemma_center_len(name, w);
                    let lines = seq![center_pad(name, w)] + b;
                    assert(lines.len() == d);
                    assert(lines.last() == b.last());
                    assert(block_width(lines) == w);
                    assert forall|i: int| 0 <= i < d implies #[trigger] lines[i].len() == w by {
                        if i > 0 {
                            assert(lines[i] == b[i - 1]);
                        }
                    }
                } else {
                    let extra = (name.len() - w) as nat;
                    let lines = seq![name] + pad_lines(b, extra);
                    lemma_spaces(extra);
                    assert(lines.len() == d);
                    assert(lines.last() == pad_lines(b, extra).last());
                    assert(pad_lines(b, extra).last() == b.last() + spaces(extra));
                    assert(block_width(lines) == w + extra);
                    assert(w + extra == name.len());
                    assert forall|i: int| 0 <= i < d implies #[trigger] lines[i].len() == name.len()
                        by {
                        if i > 0 {
                            assert(lines[i] == b[i - 1] + spaces(extra));
                        }
                    }
                    if es2.len() > 0 {
                        lemma_bump_leaf_len(es2.last(), extra);
                        assert(bump_seq_last(es2, extra).last() == bump_last_entry(
                            es2.last(),
                            extra,
                        ));
                    }
                }
            }
        },
    }
}

pub proof fn lemma_srender_seq_shape(es: Seq<EntryV>, d: nat)
    requires
        d >= 1,
        uniform_depth(es, d as int),
        fields_wf_seq(es),
    ensures
        srender_seq(es, d).1.len() == d,
        forall|i: int|
            0 <= i < d ==> #[trigger] srender_seq(es, d).1[i].len() == block_width(
                srender_seq(es, d).1,
            ),
        srender_seq(es, d).0.len() == es.len(),
        es.len() > 0 ==> last_leaf_len(srender_seq(es, d).0.last()) <= block_width(
            srender_seq(es, d).1,
        ),
    decreases d, 1nat, es.len(),
{
    if es.len() == 0 {
    } else if es.len() == 1 {
        assert(uniform_entry(es[0], d as int));
        assert(fields_wf_entry(es[0]));
        lemma_srender_entry_shape(es[0], d);
        let (e2, b) = srender_entry(es[0], d);
        assert(srender_seq(es, d).0 =~= seq![e2]);
        assert(srender_seq(es, d).1 == b);
    } else {
        assert(uniform_entry(es[0], d as int));
        assert(fields_wf_entry(es[0]));
        lemma_srender_entry_shape(es[0], d);
        assert forall|i: int| 0 <= i < es.drop_first().len() implies #[trigger] uniform_entry(
            es.drop_first()[i],
            d as int,
        ) && fields_wf_entry(es.drop_first()[i]) by {
            assert(es.drop_first()[i] == es[i + 1]);
            assert(uniform_entry(es[i + 1], d as int));
            assert(fields_wf_entry(es[i + 1]));
        }
        lemma_srender_seq_shape(es.drop_first(), d);
        let (e2, b) = srender_entry(es[0], d);
        let (rest2, brest) = srender_seq(es.drop_first(), d);
        let wa = block_width(b);
        let wr = block_width(brest);
        let sw = sep_col(d).len();
        let lines = hjoin2(hjoin2(b, sep_block(d)), brest);
        assert(lines.len() == d);
        assert forall|i: int| 0 <= i < d implies #[trigger] lines[i].len() == wa + sw + wr by {
            assert(hjoin2(b, sep_block(d))[i] == b[i] + sep_block(d)[i]);
            assert(sep_block(d)[i] == sep_col(d));
            assert(lines[i] == (b[i] + sep_col(d)) + brest[i]);
        }
        assert(lines.last().len() == wa + sw + wr);
        assert(block_width(lines) == wa + sw + wr);
        assert(srender_seq(es, d).0 =~= seq![e2] + rest2);
        assert((seq![e2] + rest2).last() == rest2.last());
    }
}

/// Widening the rightmost leaf leaves the tree's shape unchanged.
pub proof fn lemma_bump_uniform(e: EntryV, k: nat, d: int)
    requires
        uniform_entry(e, d),
    ensures
        uniform_entry(bump_last_entry(e, k), d),
    decreases e,
{
    match e {
        EntryV::Field(_) => {},
        EntryV::Group(_, es) => {
            if es.len() > 0 {
                assert(uniform_entry(es.last(), d - 1)) by {
                    assert(uniform_entry(es[es.len() - 1], d - 1));
                }
                lemma_bump_uniform(es.last(), k, d - 1);
                let es2 = es.update(es.len() - 1, bump_last_entry(es.last(), k));
                assert forall|i: int| #![trigger es2[i]] 0 <= i < es2.len() implies uniform_entry(
                    es2[i],
                    d - 1,
                ) by {
                    if i < es.len() - 1 {
                        assert(es2[i] == es[i]);
                    } else {
                        assert(es2[i] == bump_last_entry(es.last(), k));
                    }
                }
            }
        },
    }
}

/// Rendering leaves the tree's shape unchanged.
pub proof fn lemma_srender_entry_uniform(e: EntryV, d: nat)
    requires
        d >= 1,
        uniform_entry(e, d as int),
    ensures
        uniform_entry(srender_entry(e, d).0, d as int),
    decreases d, 0nat,
{
    match e {
        EntryV::Field(_) => {},
        EntryV::Group(name, entries) => {
            let dc = (d - 1) as nat;
            lemma_srender_seq_uniform(entries, dc);
            let (es2, b) = srender_seq(entries, dc);
            let w = block_width(b);
            if w >= name.len() {
            } else {
                let extra = (name.len() - w) as nat;
                if es2.len() > 0 {
                    assert(uniform_entry(es2.last(), d - 1)) by {
                        assert(uniform_entry(es2[es2.len() - 1], d - 1));
                    }
                    lemma_bump_uniform(es2.last(), extra, d - 1);
                    let es3 = bump_seq_last(es2, extra);
                    assert forall|i: int| #![trigger es3[i]] 0 <= i < es3.len() implies
                        uniform_entry(es3[i], d - 1) by {
                        if i < es2.len() - 1 {
                            assert(es3[i] == es2[i]);
                        } else {
                            assert(es3[i] == bump_last_entry(es2.last(), extra));
                        }
                    }
                }
            }
        },
    }
}

pub proof fn lemma_srender_seq_uniform(es: Seq<EntryV>, d: nat)
    requires
        uniform_depth(es, d as int),
    ensures
        srender_seq(es, d).0.len() == es.len(),
        uniform_depth(srender_seq(es, d).0, d as int),
    decreases d, 1nat, es.len(),
{
    if d == 0 || es.len() == 0 {
    } else if es.len() == 1 {
        assert(uniform_entry(es[0], d as int));
        lemma_srender_entry_uniform(es[0], d);
        let (e2, _) = srender_entry(es[0], d);
        assert forall|i: int| #![trigger seq![e2][i]] 0 <= i < 1 implies uniform_entry(
            seq![e2][i],
            d as int,
        ) by {
            assert(seq![e2][i] == e2);
        }
        assert(srender_seq(es, d).0 =~= seq![e2]);
    } else {
        assert(uniform_entry(es[0], d as int));
        lemma_srender_entry_uniform(es[0], d);
        assert forall|i: int| #![trigger es.drop_first()[i]] 0 <= i < es.drop_first().len()
            implies uniform_entry(es.drop_first()[i], d as int) by {
            assert(es.drop_first()[i] == es[i + 1]);
            assert(uniform_entry(es[i + 1], d as int));
        }
        lemma_srender_seq_uniform(es.drop_first(), d);
        let (e2, _) = srender_entry(es[0], d);
        let (rest2, _) = srender_seq(es.drop_first(), d);
        let all = seq![e2] + rest2;
        assert forall|i: int| #![trigger all[i]] 0 <= i < all.len() implies uniform_entry(
            all[i],
            d as int,
        ) by {
            if i == 0 {
                assert(all[i] == e2);
            } else {
                assert(all[i] == rest2[i - 1]);
                assert(uniform_entry(rest2[i - 1], d as int));
            }
        }
        assert(srender_seq(es, d).0 =~= all);
    }
}

/// A uniform forest is no deeper than its uniform depth.
pub proof fn lemma_uniform_depth_bound_entry(e: EntryV, d: int)
    requires
        uniform_entry(e, d),
    ensures
        depth_v(e) <= d,
    decreases e,
{
    match e {
        EntryV::Field(_) => {},
        EntryV::Group(_, es) => {
            lemma_uniform_depth_bound_seq(es, d - 1);
        },
    }
}

pub proof fn lemma_uniform_depth_bound_seq(es: Seq<EntryV>, d: int)
    requires
        d >= 0,
        uniform_depth(es, d),
    ensures
        depth_seq(es) <= d,
    decreases es,
{
    if es.len() > 0 {
        assert forall|i: int| #![trigger es.drop_last()[i]] 0 <= i < es.drop_last().len() implies
            uniform_entry(es.drop_last()[i], d) by {
            assert(es.drop_last()[i] == es[i]);
            assert(uniform_entry(es[i], d));
        }
        lemma_uniform_depth_bound_seq(es.drop_last(), d);
        assert(uniform_entry(es.last(), d)) by {
            assert(uniform_entry(es[es.len() - 1], d));
        }
        lemma_uniform_depth_bound_entry(es.last(), d);
    }
}

/// Assigning paths leaves shape and column widths unchanged.
pub proof fn lemma_with_paths_entry_shape(e: EntryV, p: Seq<Seq<char>>, d: int)
    ensures
        uniform_entry(e, d) ==> uniform_entry(with_paths_v(e, p), d),
        fields_wf_entry(e) ==> fields_wf_entry(with_paths_v(e, p)),
    decreases e,
{
    match e {
        EntryV::Field(_) => {},
        EntryV::Group(name, entries) => {
            lemma_with_paths_seq_shape(entries, p.push(name), d - 1);
        },
    }
}

pub proof fn lemma_with_paths_seq_shape(es: Seq<EntryV>, p: Seq<Seq<char>>, d: int)
    ensures
        uniform_depth(es, d) ==> uniform_depth(with_paths_seq(es, p), d),
        fields_wf_seq(es) ==> fields_wf_seq(with_paths_seq(es, p)),
    decreases es,
{
    crate::passes::lemma_with_paths_seq(es, p);
    assert forall|i: int| #![trigger with_paths_seq(es, p)[i]]
        0 <= i < es.len() implies (uniform_depth(es, d) ==> uniform_entry(
        with_paths_seq(es, p)[i],
        d,
    )) && (fields_wf_seq(es) ==> fields_wf_entry(with_paths_seq(es, p)[i])) by {
        assert(with_paths_seq(es, p)[i] == with_paths_v(es[i], p));
        lemma_with_paths_entry_shape(es[i], p, d);
        if uniform_depth(es, d) {
            assert(uniform_entry(es[i], d));
        }
        if fields_wf_seq(es) {
            assert(fields_wf_entry(es[i]));
        }
    }
}

/// Synthetic wrapping leaves column widths well formed.
pub proof fn lemma_wrap_wf(e: EntryV, k: nat)
    requires
        fields_wf_entry(e),
    ensures
        fields_wf_entry(wrap_v(e, k)),
    decreases k,
{
    if k > 0 {
        lemma_wrap_wf(e, (k - 1) as nat);
        let inner = wrap_v(e, (k - 1) as nat);
        assert forall|i: int| #![trigger seq![inner][i]] 0 <= i < 1 implies fields_wf_entry(
            seq![inner][i],
        ) by {
            assert(seq![inner][i] == inner);
        }
    }
}

pub proof fn lemma_uniformize_wf_entry(e: EntryV, d: nat)
    requires
        fields_wf_entry(e),
    ensures
        fields_wf_entry(uniformize_entry(e, d)),
    decreases e, 0nat,
{
    match e {
        EntryV::Field(_) => {
            lemma_wrap_wf(uniformize_core(e), (d - depth_v(e)) as nat);
        },
        EntryV::Group(name, entries) => {
            let dc = depth_seq(entries);
            lemma_uniformize_wf_seq(entries, dc);
            assert(fields_wf_entry(uniformize_core(e)));
            lemma_wrap_wf(uniformize_core(e), (d - depth_v(e)) as nat);
        },
    }
}

pub proof fn lemma_uniformize_wf_seq(es: Seq<EntryV>, d: nat)
    requires
        fields_wf_seq(es),
    ensures
        fields_wf_seq(uniformize_seq(es, d)),
    decreases es, 1nat,
{
    lemma_uniformize_seq(es, d);
    assert forall|i: int| #![trigger uniformize_seq(es, d)[i]]
        0 <= i < uniformize_seq(es, d).len() implies fields_wf_entry(uniformize_seq(es, d)[i]) by {
        assert(uniformize_seq(es, d)[i] == uniformize_entry(es[i], d));
        assert(fields_wf_entry(es[i]));
        lemma_uniformize_wf_entry(es[i], d);
    }
}

/// Append `n` spaces to `s`.
#[verifier::loop_isolation(false)]
pub fn push_spaces(s: &mut String, n: usize)
    ensures
        final(s)@ == old(s)@ + spaces(n as nat),
{
    proof {
        assert(old(s)@ + spaces(0) =~= old(s)@);
    }
    let mut j: usize = 0;
    while j < n
        invariant
            j <= n,
            s@ == old(s)@ + spaces(j as nat),
        decreases n - j,
    {
        s.append(" ");
        proof {
            reveal_strlit(" ");
            assert(" "@ =~= seq![' ']);
            assert(s@ =~= old(s)@ + spaces((j + 1) as nat));
        }
        j += 1;
    }
}

/// Append `value` to `output`, centered when `minimum_len` exceeds its
/// length; the number of characters appended is returned.
#[verifier::loop_isolation(false)]
pub fn add_centered_str(output: &mut String, value: &str, minimum_len: usize) -> (added: usize)
    ensures
        final(output)@ == old(output)@ + center_pad(value@, minimum_len as nat),
        added as nat == center_pad(value@, minimum_len as nat).len(),
{
    let vlen = value.unicode_len();
    proof {
        lemma_center_len(value@, minimum_len as nat);
    }
    if minimum_len > vlen {
        let extra = minimum_len - vlen;
        let left = extra / 2;
        let right = extra - extra / 2;
        proof {
            assert(right as int == (extra as int + 1) / 2);
        }
        push_spaces(output, left);
        output.append(value);
        push_spaces(output, right);
        proof {
            assert(output@ =~= old(output)@ + center_pad(value@, minimum_len as nat));
        }
        minimum_len
    } else {
        output.append(value);
        vlen
    }
}

/// Widen the rightmost leaf's column by `extra`.
#[verifier::loop_isolation(false)]
pub fn bump_last(e: Entry, extra: usize, d: usize) -> (r: Entry)
    requires
        d >= 1,
        uniform_entry(entry_v(e), d as int),
        last_leaf_len(entry_v(e)) + extra <= usize::MAX,
    ensures
        entry_v(r) == bump_last_entry(entry_v(e), extra as nat),
    decreases d,
{
    let ghost ev = entry_v(e);
    match e {
        Entry::Field(f) => {
            let mut f2 = f;
            f2.display.len = f2.display.len + extra;
            proof {
                assert(f2@ =~= FieldV { len: (ev->Field_0.len + extra) as nat, ..ev->Field_0 });
            }
            Entry::Field(f2)
        },
        Entry::Group(name, children) => {
            if children.len() == 0 {
                Entry::Group(name, children)
            } else {
                let ghost chv = entries_v(children@);
                proof {
                    lemma_entries_v(children@);
                    assert(uniform_entry(chv.last(), d - 1)) by {
                        assert(uniform_entry(chv[chv.len() - 1], d - 1));
                    }
                    assert(last_leaf_len(ev) == last_leaf_len(chv.last()));
                }
                let mut cs = children;
                let n = cs.len();
                let ghost before = cs@;
                let child = cs.remove(n - 1);
                proof {
                    assert(cs@ =~= before.drop_last());
                    assert(entry_v(child) == chv.last());
                }
                let child2 = bump_last(child, extra, d - 1);
                cs.push(child2);
                proof {
                    lemma_entries_v(cs@);
                    assert(entries_v(cs@) =~= chv.update(
                        chv.len() - 1,
                        bump_last_entry(chv.last(), extra as nat),
                    ));
                }
                Entry::Group(name, cs)
            }
        },
    }
}

/// Render one node into its block of header lines, widening columns under
/// over-long group labels as it goes.
#[verifier::loop_isolation(false)]
pub fn render_entry(e: Entry, d: usize) -> (res: (Entry, Vec<String>))
    requires
        d >= 1,
        uniform_entry(entry_v(e), d as int),
        fields_wf_entry(entry_v(e)),
    ensures
        entry_v(res.0) == srender_entry(entry_v(e), d as nat).0,
        strs_v(res.1@) == srender_entry(entry_v(e), d as nat).1,
    decreases d, 0nat,
{
    let ghost ev = entry_v(e);
    match e {
        Entry::Field(f) => {
            let nlen = f.name.unicode_len();
            let mut line = String::new();
            line.append(f.name.as_str());
            push_spaces(&mut line, f.display.len - nlen);
            let mut lines: Vec<String> = Vec::new();
            lines.push(line);
            proof {
                assert(strs_v(lines@) =~= seq![
                    ev->Field_0.name + spaces(((ev->Field_0.len - ev->Field_0.name.len())) as nat),
                ]);
            }
            (Entry::Field(f), lines)
        },
        Entry::Group(name, children) => {
            let ghost chv = entries_v(children@);
            let ghost dc = (d - 1) as nat;
            proof {
                lemma_entries_v(children@);
                assert(uniform_depth(chv, dc as int));
            }
            let (children2, b) = render_seq(children, d - 1);
            let ghost es2 = srender_seq(chv, dc).0;
            let ghost sb = srender_seq(chv, dc).1;
            let nlen = name.unicode_len();
            let w: usize = if b.len() == 0 {
                0
            } else {
                let lref: &String = &b[b.len() - 1];
                lref.as_str().unicode_len()
            };
            proof {
                assert(w as nat == block_width(sb));
                if d >= 2 {
                    lemma_srender_seq_shape(chv, dc);
                    lemma_srender_seq_uniform(chv, dc);
                }
            }
            if w >= nlen {
                let mut line0 = String::new();
                let _c = add_centered_str(&mut line0, name.as_str(), w);
                let mut lines: Vec<String> = Vec::new();
                lines.push(line0);
                let mut bb = b;
                let ghost n0 = sb.len();
                while bb.len() > 0
                    invariant
                        bb@.len() <= n0,
                        lines@.len() == 1 + n0 - bb@.len(),
                        forall|i: int| 0 <= i < bb@.len() ==> bb@[i]@ == sb[n0 - bb@.len() + i],
                        lines@[0]@ == center_pad(name@, w as nat),
                        forall|i: int| 1 <= i < lines@.len() ==> lines@[i]@ == sb[i - 1],
                    decreases bb@.len(),
                {
                    let ghost prevb = bb@;
                    let l = bb.remove(0);
                    proof {
                        assert(bb@ =~= prevb.drop_first());
                    }
                    lines.push(l);
                }
                proof {
                    assert(strs_v(lines@) =~= seq![center_pad(name@, w as nat)] + sb);
                }
                (Entry::Group(name, children2), lines)
            } else {
                let extra = nlen - w;
                let mut cs = children2;
                if cs.len() > 0 {
                    proof {
                        assert(d >= 2);
                        assert(uniform_entry(es2.last(), dc as int)) by {
                            assert(uniform_entry(es2[es2.len() - 1], dc as int));
                        }
                        assert(last_leaf_len(es2.last()) <= w);
                    }
                    let n = cs.len();
                    let ghost before = cs@;
                    let child = cs.remove(n - 1);
                    proof {
                        lemma_entries_v(before);
                        assert(cs@ =~= before.drop_last());
                        assert(entry_v(child) == es2.last());
                    }
                    let child2 = bump_last(child, extra, d - 1);
                    cs.push(child2);
                    proof {
                        lemma_entries_v(cs@);
                        assert(entries_v(cs@) =~= bump_seq_last(es2, extra as nat));
                    }
                } else {
                    proof {
                        assert(es2.len() == 0);
                        assert(entries_v(cs@) =~= bump_seq_last(es2, extra as nat));
                    }
                }
                let mut line0 = String::new();
                line0.append(name.as_str());
                let mut lines: Vec<String> = Vec::new();
                lines.push(line0);
                let mut bb = b;
                let ghost n0 = sb.len();
                while bb.len() > 0
                    invariant
                        bb@.len() <= n0,
                        lines@.len() == 1 + n0 - bb@.len(),
                        forall|i: int| 0 <= i < bb@.len() ==> bb@[i]@ == sb[n0 - bb@.len() + i],
                        lines@[0]@ == name@,
                        forall|i: int|
                            1 <= i < lines@.len() ==> lines@[i]@ == sb[i - 1] + spaces(
                                extra as nat,
                            ),
                    decreases bb@.len(),
                {
                    let ghost prevb = bb@;
                    let mut l = bb.remove(0);
                    proof {
                        assert(bb@ =~= prevb.drop_first());
                    }
                    push_spaces(&mut l, extra);
                    lines.push(l);
                }
                proof {
                    assert(strs_v(lines@) =~= seq![name@] + pad_lines(sb, extra as nat));
                }
                (Entry::Group(name, cs), lines)
            }
        },
    }
}

/// Render sibling nodes side by side, separated by `sep_col`.
#[verifier::loop_isolation(false)]
pub fn render_seq(es: Vec<Entry>, d: usize) -> (res: (Vec<Entry>, Vec<String>))
    requires
        uniform_depth(entries_v(es@), d as int),
        fields_wf_seq(entries_v(es@)),
    ensures
        entries_v(res.0@) == srender_seq(entries_v(es@), d as nat).0,
        strs_v(res.1@) == srender_seq(entries_v(es@), d as nat).1,
    decreases d, 1nat, es@.len(),
{
    let ghost esv = entries_v(es@);
    proof {
        lemma_entries_v(es@);
    }
    if d == 0 {
        let lines: Vec<String> = Vec::new();
        proof {
            assert(strs_v(lines@) =~= Seq::<Seq<char>>::empty());
        }
        return (es, lines);
    }
    if es.len() == 0 {
        let mut lines: Vec<String> = Vec::new();
        let mut j: usize = 0;
        while j < d
            invariant
                j <= d,
                lines@.len() == j,
                forall|i: int| 0 <= i < j ==> lines@[i]@ == Seq::<char>::empty(),
            decreases d - j,
        {
            lines.push(String::new());
            j += 1;
        }
        proof {
            assert(strs_v(lines@) =~= Seq::new(d as nat, |i: int| Seq::<char>::empty()));
        }
        return (es, lines);
    }
    let mut rest = es;
    let ghost prev = rest@;
    let first = rest.remove(0);
    proof {
        assert(rest@ =~= prev.drop_first());
        assert(entry_v(first) == esv[0]);
        assert(uniform_entry(esv[0], d as int));
        assert(fields_wf_entry(esv[0]));
        lemma_entries_v(rest@);
        assert(entries_v(rest@) =~= esv.drop_first());
    }
    let (e2, b) = render_entry(first, d);
    if rest.len() == 0 {
        let mut out: Vec<Entry> = Vec::new();
        out.push(e2);
        proof {
            lemma_entries_v(out@);
            assert(entries_v(out@) =~= seq![srender_entry(esv[0], d as nat).0]);
        }
        return (out, b);
    }
    let (rest2, brest) = render_seq(rest, d);
    let ghost sr0 = srender_seq(esv.drop_first(), d as nat).0;
    let mut out: Vec<Entry> = Vec::new();
    out.push(e2);
    let mut r2 = rest2;
    proof {
        lemma_entries_v(r2@);
    }
    out.append(&mut r2);
    proof {
        lemma_entries_v(out@);
        assert(entries_v(out@) =~= seq![srender_entry(esv[0], d as nat).0] + sr0);
    }
    let ghost sb = srender_entry(esv[0], d as nat).1;
    let ghost sr = srender_seq(esv.drop_first(), d as nat).1;
    proof {
        lemma_srender_entry_shape(esv[0], d as nat);
        assert forall|i: int| #![trigger esv.drop_first()[i]] 0 <= i < esv.drop_first().len()
            implies uniform_entry(esv.drop_first()[i], d as int) && fields_wf_entry(
            esv.drop_first()[i],
        ) by {
            assert(esv.drop_first()[i] == esv[i + 1]);
            assert(uniform_entry(esv[i + 1], d as int));
            assert(fields_wf_entry(esv[i + 1]));
        }
        lemma_srender_seq_shape(esv.drop_first(), d as nat);
        reveal_strlit(" ");
        reveal_strlit(" | ");
        assert(" "@ =~= seq![' ']);
        assert(" | "@ =~= seq![' ', '|', ' ']);
    }
    let sep: &str = if d == 1 {
        " "
    } else {
        " | "
    };
    proof {
        assert(sep@ == sep_col(d as nat));
    }
    let mut lines: Vec<String> = Vec::new();
    let mut bb = b;
    let mut br = brest;
    let ghost n0 = sb.len();
    while bb.len() > 0
        invariant
            bb@.len() == br@.len(),
            bb@.len() <= n0,
            lines@.len() == n0 - bb@.len(),
            forall|i: int| 0 <= i < bb@.len() ==> bb@[i]@ == sb[n0 - bb@.len() + i],
            forall|i: int| 0 <= i < br@.len() ==> br@[i]@ == sr[n0 - br@.len() + i],
            forall|i: int|
                0 <= i < lines@.len() ==> lines@[i]@ == (sb[i] + sep_col(d as nat)) + sr[i],
        decreases bb@.len(),
    {
        let ghost prevb = bb@;
        let ghost prevr = br@;
        let mut l = bb.remove(0);
        let lr = br.remove(0);
        proof {
            assert(bb@ =~= prevb.drop_first());
            assert(br@ =~= prevr.drop_first());
        }
        l.append(sep);
        l.append(lr.as_str());
        lines.push(l);
    }
    proof {
        assert(strs_v(lines@) =~= hjoin2(hjoin2(sb, sep_block(d as nat)), sr)) by {
            assert(forall|i: int|
                0 <= i < n0 ==> #[trigger] sep_block(d as nat)[i] == sep_col(d as nat));
            assert(forall|i: int|
                0 <= i < n0 ==> #[trigger] hjoin2(hjoin2(sb, sep_block(d as nat)), sr)[i] == (
                sb[i] + sep_col(d as nat)) + sr[i]);
        }
    }
    (out, lines)
}

} // verus!
