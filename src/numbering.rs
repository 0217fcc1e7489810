use vstd::prelude::*;

use crate::summary::{
    apply_line, attach_nested, close_above, close_all, close_top, current_number,
    ends_with_chapter, new_link, open_frame, parse_outline, place, run_lines, FrameModel,
    ItemModel, OutlineState,
};
use crate::line::{classify, LineKind};
use crate::text::lines_of;

verus! {

/// The section number of a numbered link (empty for anything else).
pub open spec fn num_of(x: ItemModel) -> Seq<nat> {
    match x {
        ItemModel::Link { number: Some(n), .. } => n,
        _ => Seq::empty(),
    }
}

/// Every link of `items` has a number made of `p` and one more positive
/// component; these last components strictly increase in declaration order;
/// and the links nested in each link are numbered below its own number in
/// the same way.
#[verifier::opaque]
pub open spec fn numbered_below(items: Seq<ItemModel>, p: Seq<nat>) -> bool
    decreases items,
{
    &&& forall|i: int|
        #![trigger items[i]]
        0 <= i < items.len() && items[i] is Link ==> {
            &&& items[i]->number is Some
            &&& num_of(items[i]).len() == p.len() + 1
            &&& num_of(items[i]).drop_last() == p
            &&& num_of(items[i]).last() >= 1
            &&& numbered_below(items[i]->nested, num_of(items[i]))
        }
    &&& forall|i: int, j: int|
        0 <= i < j < items.len() && items[i] is Link && items[j] is Link ==> num_of(
            #[trigger] items[i],
        ).last() < num_of(#[trigger] items[j]).last()
}

/// No link of `items` has a last component above `c`, and the last item, if
/// a link, has number `n`.
pub open spec fn capped(items: Seq<ItemModel>, c: nat, n: Seq<nat>) -> bool {
    &&& forall|i: int|
        0 <= i < items.len() && #[trigger] items[i] is Link ==> num_of(items[i]).last() <= c
    &&& items.len() > 0 && items.last() is Link ==> num_of(items.last()) == n
}

#[verifier::opaque]
pub open spec fn frame_ok(f: FrameModel) -> bool {
    &&& f.number.len() >= 1
    &&& numbered_below(f.items, f.number.drop_last())
    &&& capped(f.items, f.number.last(), f.number)
}

/// What the parser keeps true of section numbers between two lines.
pub open spec fn numbering_inv(st: OutlineState) -> bool {
    &&& numbered_below(st.numbered, Seq::empty())
    &&& capped(st.numbered, st.count, seq![st.count])
    &&& forall|k: int| 0 <= k < st.frames.len() ==> frame_ok(#[trigger] st.frames[k])
    &&& st.frames.len() > 0 ==> {
        &&& st.numbered.len() > 0
        &&& st.numbered.last() is Link
        &&& st.frames[0].number.drop_last() == seq![st.count]
    }
    &&& forall|k: int| 0 < k < st.frames.len() ==> #[trigger] linked(st.frames, k)
}

/// Level `k` was opened below the latest chapter of level `k - 1`.
pub open spec fn linked(frames: Seq<FrameModel>, k: int) -> bool {
    &&& frames[k - 1].items.len() > 0
    &&& frames[k - 1].items.last() is Link
    &&& frames[k].number.drop_last() == frames[k - 1].number
}

proof fn lemma_attach_numbered(items: Seq<ItemModel>, p: Seq<nat>, nested: Seq<ItemModel>)
    requires
        numbered_below(items, p),
        items.len() > 0,
        items.last() is Link,
        numbered_below(nested, num_of(items.last())),
    ensures
        numbered_below(attach_nested(items, nested), p),
        attach_nested(items, nested).len() == items.len(),
        forall|i: int|
            0 <= i < items.len() ==> (#[trigger] attach_nested(items, nested)[i] is Link
                <==> items[i] is Link) && num_of(attach_nested(items, nested)[i]) == num_of(
                items[i],
            ),
{
    reveal(numbered_below);
    let r = attach_nested(items, nested);
    assert forall|i: int| 0 <= i < items.len() implies (#[trigger] r[i] is Link <==> items[i] is Link)
        && num_of(r[i]) == num_of(items[i]) by {}
    assert forall|i: int| #![trigger r[i]] 0 <= i < r.len() && r[i] is Link implies {
        &&& r[i]->number is Some
        &&& num_of(r[i]).len() == p.len() + 1
        &&& num_of(r[i]).drop_last() == p
        &&& num_of(r[i]).last() >= 1
        &&& numbered_below(r[i]->nested, num_of(r[i]))
    } by {
        if i < items.len() - 1 {
            assert(r[i] == items[i]);
        }
    }
    assert forall|i: int, j: int|
        0 <= i < j < r.len() && r[i] is Link && r[j] is Link implies num_of(#[trigger] r[i]).last()
        < num_of(#[trigger] r[j]).last() by {
        assert(items[i] is Link && items[j] is Link);
    }
}

proof fn lemma_frame_attach(p: FrameModel, f: FrameModel)
    requires
        frame_ok(p),
        frame_ok(f),
        f.number.drop_last() == p.number,
        p.items.len() > 0,
        p.items.last() is Link,
    ensures
        frame_ok(FrameModel { level: p.level, items: attach_nested(p.items, f.items), number: p.number }),
{
    reveal(frame_ok);
    assert(p.items.last() == p.items[p.items.len() - 1]);
    lemma_attach_numbered(p.items, p.number.drop_last(), f.items);
    let a = attach_nested(p.items, f.items);
    assert forall|i: int| 0 <= i < a.len() && #[trigger] a[i] is Link implies num_of(a[i]).last()
        <= p.number.last() by {
        assert(p.items[i] is Link);
    }
    assert(a.last() == a[a.len() - 1]);
}

proof fn lemma_close_top_inner(st: OutlineState)
    requires
        numbering_inv(st),
        st.frames.len() > 1,
    ensures
        numbering_inv(close_top(st)),
{
    let f = st.frames.last();
    let rest = st.frames.drop_last();
    let r = close_top(st);
    let m = rest.len() - 1;
    let p = rest.last();
    assert(frame_ok(st.frames[st.frames.len() - 1]));
    assert(frame_ok(st.frames[m]));
    assert(linked(st.frames, m + 1));
    lemma_frame_attach(p, f);
    assert forall|k: int| 0 <= k < r.frames.len() implies frame_ok(#[trigger] r.frames[k]) by {
        if k < m {
            assert(r.frames[k] == st.frames[k]);
        }
    }
    assert forall|k: int| 0 < k < r.frames.len() implies #[trigger] linked(r.frames, k) by {
        assert(linked(st.frames, k));
        assert(r.frames[k - 1] == st.frames[k - 1]);
        if k < m {
            assert(r.frames[k] == st.frames[k]);
        }
    }
    assert(r.frames[0].number == st.frames[0].number);
}

proof fn lemma_close_top_root(st: OutlineState)
    requires
        numbering_inv(st),
        st.frames.len() == 1,
    ensures
        numbering_inv(close_top(st)),
{
    let f = st.frames.last();
    assert(f == st.frames[0]);
    assert(frame_ok(st.frames[0]));
    reveal(frame_ok);
    assert(st.numbered.last() == st.numbered[st.numbered.len() - 1]);
    lemma_attach_numbered(st.numbered, Seq::empty(), f.items);
    let a = attach_nested(st.numbered, f.items);
    assert forall|i: int| 0 <= i < a.len() && #[trigger] a[i] is Link implies num_of(a[i]).last()
        <= st.count by {
        assert(st.numbered[i] is Link);
    }
    assert(a.last() == a[a.len() - 1]);
    assert(close_top(st).frames.len() == 0);
}

proof fn lemma_close_top_inv(st: OutlineState)
    requires
        numbering_inv(st),
        st.frames.len() > 0,
    ensures
        numbering_inv(close_top(st)),
{
    if st.frames.len() > 1 {
        lemma_close_top_inner(st);
    } else {
        lemma_close_top_root(st);
    }
}

proof fn lemma_close_above_inv(st: OutlineState, l: nat)
    requires
        numbering_inv(st),
    ensures
        numbering_inv(close_above(st, l)),
    decreases st.frames.len(),
{
    if st.frames.len() > 0 && st.frames.last().level > l {
        lemma_close_top_inv(st);
        lemma_close_above_inv(close_top(st), l);
    }
}

proof fn lemma_close_all_inv(st: OutlineState)
    requires
        numbering_inv(st),
    ensures
        numbering_inv(close_all(st)),
    decreases st.frames.len(),
{
    if st.frames.len() > 0 {
        lemma_close_top_inv(st);
        lemma_close_all_inv(close_top(st));
    }
}

proof fn lemma_open_frame_inv(st: OutlineState, l: nat)
    requires
        numbering_inv(st),
        ends_with_chapter(st),
    ensures
        numbering_inv(open_frame(st, l)),
{
    let r = open_frame(st, l);
    let n = st.frames.len();
    let nf = r.frames[n as int];
    assert(nf.number.drop_last() =~= current_number(st));
    assert(frame_ok(nf)) by {
        reveal(frame_ok);
        reveal(numbered_below);
    }
    assert forall|k: int| 0 <= k < r.frames.len() implies frame_ok(#[trigger] r.frames[k]) by {
        if k < n {
            assert(r.frames[k] == st.frames[k]);
        }
    }
    assert forall|k: int| 0 < k < r.frames.len() implies #[trigger] linked(r.frames, k) by {
        assert(r.frames[k - 1] == st.frames[k - 1]);
        if k < n {
            assert(linked(st.frames, k));
            assert(r.frames[k] == st.frames[k]);
        }
    }
    if n == 0 {
        assert(r.frames[0] == nf);
    } else {
        assert(r.frames[0] == st.frames[0]);
    }
}

proof fn lemma_push_numbered(items: Seq<ItemModel>, p: Seq<nat>, c: nat, x: ItemModel)
    requires
        numbered_below(items, p),
        capped(items, c, p.push(c)),
        x is Link ==> num_of(x) == p.push(c + 1) && x->number is Some && x->nested.len() == 0,
    ensures
        numbered_below(items.push(x), p),
        x is Link ==> capped(items.push(x), c + 1, p.push(c + 1)),
        !(x is Link) ==> capped(items.push(x), c, p.push(c)),
{
    reveal(numbered_below);
    let r = items.push(x);
    if x is Link {
        assert(numbered_below(x->nested, num_of(x)));
        assert(p.push(c + 1).drop_last() =~= p);
    }
    assert forall|i: int| #![trigger r[i]] 0 <= i < r.len() && r[i] is Link implies {
        &&& r[i]->number is Some
        &&& num_of(r[i]).len() == p.len() + 1
        &&& num_of(r[i]).drop_last() == p
        &&& num_of(r[i]).last() >= 1
        &&& numbered_below(r[i]->nested, num_of(r[i]))
    } by {
        if i < items.len() {
            assert(r[i] == items[i]);
        }
    }
    assert forall|i: int, j: int|
        0 <= i < j < r.len() && r[i] is Link && r[j] is Link implies num_of(#[trigger] r[i]).last()
        < num_of(#[trigger] r[j]).last() by {
        assert(r[i] == items[i]);
        if j < items.len() {
            assert(r[j] == items[j]);
        }
    }
    assert forall|i: int| 0 <= i < r.len() && #[trigger] r[i] is Link implies num_of(r[i]).last()
        <= c + if x is Link { 1nat } else { 0nat } by {
        if i < items.len() {
            assert(r[i] == items[i]);
        }
    }
    assert(r.last() == x);
}

proof fn lemma_place_inv(st: OutlineState, idx: nat, kind: Option<LineKind>)
    requires
        numbering_inv(st),
        place(st, idx, kind) is Ok,
    ensures
        numbering_inv(place(st, idx, kind)->Ok_0),
{
    let r = place(st, idx, kind)->Ok_0;
    match kind {
        None => {},
        Some(LineKind::Separator) => {
            if !st.closed && st.count > 0 {
                lemma_push_numbered(st.numbered, Seq::empty(), st.count, ItemModel::Separator);
                assert(Seq::<nat>::empty().push(st.count) =~= seq![st.count]);
            }
        },
        Some(LineKind::Affix { .. }) => {},
        Some(LineKind::Numbered { name, location }) => {
            if st.frames.len() > 0 {
                let m = st.frames.len() - 1;
                let f = st.frames[m];
                assert(frame_ok(f));
                assert(f.number.len() >= 1) by {
                    reveal(frame_ok);
                }
                let num = f.number.update(f.number.len() - 1, f.number.last() + 1);
                let x = new_link(name, location, Some(num));
                let p = f.number.drop_last();
                assert(f.number =~= p.push(f.number.last()));
                assert(num =~= p.push(f.number.last() + 1));
                let nf = r.frames[m];
                assert(frame_ok(nf)) by {
                    reveal(frame_ok);
                    lemma_push_numbered(f.items, p, f.number.last(), x);
                    assert(num.drop_last() =~= p);
                }
                assert forall|k: int| 0 <= k < r.frames.len() implies frame_ok(
                    #[trigger] r.frames[k],
                ) by {
                    if k < m {
                        assert(r.frames[k] == st.frames[k]);
                    }
                }
                assert forall|k: int| 0 < k < r.frames.len() implies #[trigger] linked(
                    r.frames,
                    k,
                ) by {
                    assert(linked(st.frames, k));
                    assert(r.frames[k - 1] == st.frames[k - 1]);
                    if k < m {
                        assert(r.frames[k] == st.frames[k]);
                    } else {
                        assert(num.drop_last() =~= f.number.drop_last());
                    }
                }
                if m > 0 {
                    assert(r.frames[0] == st.frames[0]);
                }
            } else {
                let x = new_link(name, location, Some(seq![st.count + 1]));
                assert(Seq::<nat>::empty().push(st.count) =~= seq![st.count]);
                assert(Seq::<nat>::empty().push(st.count + 1) =~= seq![st.count + 1]);
                lemma_push_numbered(st.numbered, Seq::empty(), st.count, x);
            }
        },
    }
}

proof fn lemma_apply_line_inv(st: OutlineState, idx: nat, line: Seq<char>, width: nat)
    requires
        numbering_inv(st),
        apply_line(st, idx, line, width) is Ok,
    ensures
        numbering_inv(apply_line(st, idx, line, width)->Ok_0),
{
    let l = crate::line::indent_level(line, width)->Some_0;
    let st1 = close_above(st, l);
    lemma_close_above_inv(st, l);
    if l > crate::summary::top_level(st1) {
        lemma_open_frame_inv(st1, l);
        lemma_place_inv(open_frame(st1, l), idx, classify(line));
    } else {
        lemma_place_inv(st1, idx, classify(line));
    }
}

proof fn lemma_run_inv(lines: Seq<Seq<char>>, n: nat, width: nat)
    requires
        run_lines(lines, n, width) is Ok,
    ensures
        numbering_inv(run_lines(lines, n, width)->Ok_0),
    decreases n,
{
    if n == 0 {
        reveal(numbered_below);
    } else {
        lemma_run_inv(lines, (n - 1) as nat, width);
        lemma_apply_line_inv(run_lines(lines, (n - 1) as nat, width)->Ok_0, (n - 1) as nat, lines[n - 1], width);
    }
}

/// In a parsed outline, the numbered chapters at one level under one parent
/// carry the parent's number with one more positive component appended (a
/// single component at the root), and these components strictly increase in
/// declaration order.
pub proof fn lemma_section_numbers(text: Seq<char>, width: nat)
    requires
        parse_outline(text, width) is Ok,
    ensures
        numbered_below(parse_outline(text, width)->Ok_0.numbered, Seq::empty()),
{
    let lines = lines_of(text);
    lemma_run_inv(lines, lines.len(), width);
    lemma_close_all_inv(run_lines(lines, lines.len(), width)->Ok_0);
}

} // verus!
