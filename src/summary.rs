use vstd::prelude::*;

use crate::line::{classify, indent_level, level, parse_line, LineKind, OutlineLine};
use crate::text::{chars_of, lines_of, split_lines};

verus! {

/// A hierarchical section number such as `1.2.`: one positive component per
/// nesting level.
#[derive(Debug, Clone, PartialEq)]
pub struct SectionNumber(pub Vec<usize>);

pub open spec fn decimal_digit(d: int) -> char {
    seq!['0', '1', '2', '3', '4', '5', '6', '7', '8', '9'][d]
}

/// The decimal digits of `n`.
pub open spec fn decimal(n: nat) -> Seq<char>
    decreases n,
{
    if n < 10 {
        seq![decimal_digit(n as int)]
    } else {
        decimal(n / 10).push(decimal_digit((n % 10) as int))
    }
}

/// A section number as text: each component followed by a dot, as in `1.2.`.
pub open spec fn dotted(ns: Seq<nat>) -> Seq<char>
    decreases ns.len(),
{
    if ns.len() == 0 {
        Seq::empty()
    } else {
        dotted(ns.drop_last()) + decimal(ns.last()) + seq!['.']
    }
}

fn push_decimal(out: &mut Vec<char>, n: usize)
    ensures
        final(out)@ == old(out)@ + decimal(n as nat),
    decreases n,
{
    let digits = ['0', '1', '2', '3', '4', '5', '6', '7', '8', '9'];
    if n >= 10 {
        push_decimal(out, n / 10);
    }
    let d = n % 10;
    out.push(digits[d]);
    assert(digits@ =~= seq!['0', '1', '2', '3', '4', '5', '6', '7', '8', '9']);
    assert(out@ =~= old(out)@ + decimal(n as nat));
}

impl SectionNumber {
    /// The number as text, e.g. `1.2.`.
    pub fn render(&self) -> (r: String)
        ensures
            r@ == dotted(self.0@.map_values(|c: usize| c as nat)),
    {
        let ghost ns = self.0@.map_values(|c: usize| c as nat);
        let mut out: Vec<char> = Vec::new();
        let mut i: usize = 0;
        while i < self.0.len()
            invariant
                i <= self.0@.len(),
                ns == self.0@.map_values(|c: usize| c as nat),
                out@ == dotted(ns.take(i as int)),
            decreases self.0.len() - i,
        {
            assert(ns.take(i + 1).drop_last() =~= ns.take(i as int));
            push_decimal(&mut out, self.0[i]);
            out.push('.');
            i = i + 1;
        }
        assert(ns.take(ns.len() as int) =~= ns);
        crate::text::string_of(&out, 0, out.len())
    }
}

/// A reference to a chapter's content, as written in the outline.
#[derive(Debug, PartialEq)]
pub struct Link {
    pub name: String,
    pub location: String,
    pub number: Option<SectionNumber>,
    pub nested_items: Vec<SummaryItem>,
}

impl Link {
    /// A link with no number and no nested items.
    pub fn new(name: &str, location: &str) -> (r: Link)
        ensures
            item_model(SummaryItem::Link(r)) == new_link(name@, location@, None),
    {
        new_link_item_parts(String::from_str(name), String::from_str(location))
    }
}

fn new_link_item_parts(name: String, location: String) -> (r: Link)
    ensures
        item_model(SummaryItem::Link(r)) == new_link(name@, location@, None),
{
    let l = Link { name, location, number: None, nested_items: Vec::new() };
    proof {
        lemma_link_model(l);
        assert(items_model(l.nested_items@) =~= Seq::<ItemModel>::empty());
    }
    l
}

/// One entry of the outline.
#[derive(Debug, PartialEq)]
pub enum SummaryItem {
    Link(Link),
    Separator,
}

/// The mathematical model of an outline entry.
pub enum ItemModel {
    Separator,
    Link { name: Seq<char>, location: Seq<char>, number: Option<Seq<nat>>, nested: Seq<ItemModel> },
}

pub open spec fn number_model(n: Option<SectionNumber>) -> Option<Seq<nat>> {
    match n {
        Some(s) => Some(s.0@.map_values(|c: usize| c as nat)),
        None => None,
    }
}

pub open spec fn item_model(i: SummaryItem) -> ItemModel
    decreases i,
{
    match i {
        SummaryItem::Separator => ItemModel::Separator,
        SummaryItem::Link(l) => ItemModel::Link {
            name: l.name@,
            location: l.location@,
            number: number_model(l.number),
            nested: Seq::new(
                l.nested_items.len() as nat,
                |k: int|
                    if 0 <= k < l.nested_items.len() {
                        item_model(l.nested_items[k])
                    } else {
                        ItemModel::Separator
                    },
            ),
        },
    }
}

pub open spec fn items_model(s: Seq<SummaryItem>) -> Seq<ItemModel> {
    Seq::new(s.len(), |k: int| item_model(s[k]))
}

/// A parsed outline: front matter, numbered chapters and back matter.
#[derive(Debug, PartialEq)]
pub struct Summary {
    pub prefix_chapters: Vec<SummaryItem>,
    pub numbered_chapters: Vec<SummaryItem>,
    pub suffix_chapters: Vec<SummaryItem>,
}

pub struct SummaryModel {
    pub prefix: Seq<ItemModel>,
    pub numbered: Seq<ItemModel>,
    pub suffix: Seq<ItemModel>,
}

impl Summary {
    pub open spec fn view(&self) -> SummaryModel {
        SummaryModel {
            prefix: items_model(self.prefix_chapters@),
            numbered: items_model(self.numbered_chapters@),
            suffix: items_model(self.suffix_chapters@),
        }
    }
}

/// The ordering or nesting rule that an outline broke.
#[derive(Debug, Clone, Copy, PartialEq, Eq, Structural)]
pub enum StructureRule {
    /// Only a numbered chapter can have nested items.
    NestedUnderNonChapter,
    /// Separators, front matter and back matter stand at the root level only.
    BelowRoot,
    /// No numbered chapter may follow back matter.
    ChapterAfterBackMatter,
}

/// Why an outline was rejected; `line` is the index of the offending line.
#[derive(Debug, Clone, Copy, PartialEq, Eq, Structural)]
pub enum ParseError {
    Indentation { line: usize },
    Structure { line: usize, rule: StructureRule },
}

/// One open nesting level while parsing: its indentation level, the items
/// gathered so far, and the section number of its latest chapter.
pub struct FrameModel {
    pub level: nat,
    pub items: Seq<ItemModel>,
    pub number: Seq<nat>,
}

/// The parser's state between two lines. `count` is the root-level section
/// counter and `closed` records that back matter has begun; `frames` are the
/// open levels below the root.
pub struct OutlineState {
    pub prefix: Seq<ItemModel>,
    pub numbered: Seq<ItemModel>,
    pub suffix: Seq<ItemModel>,
    pub count: nat,
    pub closed: bool,
    pub frames: Seq<FrameModel>,
}

pub open spec fn initial_state() -> OutlineState {
    OutlineState {
        prefix: Seq::empty(),
        numbered: Seq::empty(),
        suffix: Seq::empty(),
        count: 0,
        closed: false,
        frames: Seq::empty(),
    }
}

/// `items` with `nested` as the children of its last item, when that is a link.
pub open spec fn attach_nested(items: Seq<ItemModel>, nested: Seq<ItemModel>) -> Seq<ItemModel> {
    if items.len() > 0 {
        match items.last() {
            ItemModel::Link { name, location, number, nested: _ } => items.update(
                items.len() - 1,
                ItemModel::Link { name, location, number, nested },
            ),
            ItemModel::Separator => items,
        }
    } else {
        items
    }
}

/// Ends the innermost open level: its items become the children of the
/// chapter that opened it.
pub open spec fn close_top(st: OutlineState) -> OutlineState {
    let f = st.frames.last();
    let rest = st.frames.drop_last();
    if rest.len() > 0 {
        let p = rest.last();
        OutlineState {
            frames: rest.update(
                rest.len() - 1,
                FrameModel { level: p.level, items: attach_nested(p.items, f.items), number: p.number },
            ),
            ..st
        }
    } else {
        OutlineState { numbered: attach_nested(st.numbered, f.items), frames: rest, ..st }
    }
}

/// Ends every open level deeper than `l`.
pub open spec fn close_above(st: OutlineState, l: nat) -> OutlineState
    decreases st.frames.len(),
{
    if st.frames.len() > 0 && st.frames.last().level > l {
        close_above(close_top(st), l)
    } else {
        st
    }
}

/// Ends every open level.
pub open spec fn close_all(st: OutlineState) -> OutlineState
    decreases st.frames.len(),
{
    if st.frames.len() > 0 {
        close_all(close_top(st))
    } else {
        st
    }
}

pub open spec fn top_level(st: OutlineState) -> nat {
    if st.frames.len() > 0 {
        st.frames.last().level
    } else {
        0
    }
}

/// The section number of the latest chapter at the innermost open level.
pub open spec fn current_number(st: OutlineState) -> Seq<nat> {
    if st.frames.len() > 0 {
        st.frames.last().number
    } else {
        seq![st.count]
    }
}

/// Whether the latest item at the innermost open level is a numbered chapter.
pub open spec fn ends_with_chapter(st: OutlineState) -> bool {
    if st.frames.len() > 0 {
        let items = st.frames.last().items;
        items.len() > 0 && items.last() is Link
    } else {
        st.suffix.len() == 0 && st.numbered.len() > 0 && st.numbered.last() is Link
    }
}

/// Opens a level `l` below the latest chapter.
pub open spec fn open_frame(st: OutlineState, l: nat) -> OutlineState {
    OutlineState {
        frames: st.frames.push(
            FrameModel { level: l, items: Seq::empty(), number: current_number(st).push(0) },
        ),
        ..st
    }
}

/// Appends a root-level item to the group that is under way.
pub open spec fn push_root(st: OutlineState, item: ItemModel) -> OutlineState {
    if st.closed {
        OutlineState { suffix: st.suffix.push(item), ..st }
    } else if st.count > 0 {
        OutlineState { numbered: st.numbered.push(item), ..st }
    } else {
        OutlineState { prefix: st.prefix.push(item), ..st }
    }
}

pub open spec fn new_link(name: Seq<char>, location: Seq<char>, number: Option<Seq<nat>>) -> ItemModel {
    ItemModel::Link { name, location, number, nested: Seq::empty() }
}

/// Adds the item of line `idx` at the innermost open level.
pub open spec fn place(st: OutlineState, idx: nat, kind: Option<LineKind>) -> Result<
    OutlineState,
    ParseError,
> {
    match kind {
        None => Ok(st),
        Some(LineKind::Separator) => if st.frames.len() > 0 {
            Err(ParseError::Structure { line: idx as usize, rule: StructureRule::BelowRoot })
        } else {
            Ok(push_root(st, ItemModel::Separator))
        },
        Some(LineKind::Affix { name, location }) => if st.frames.len() > 0 {
            Err(ParseError::Structure { line: idx as usize, rule: StructureRule::BelowRoot })
        } else {
            let st1 = OutlineState { closed: st.closed || st.count > 0, ..st };
            Ok(push_root(st1, new_link(name, location, None)))
        },
        Some(LineKind::Numbered { name, location }) => if st.closed {
            Err(
                ParseError::Structure {
                    line: idx as usize,
                    rule: StructureRule::ChapterAfterBackMatter,
                },
            )
        } else if st.frames.len() > 0 {
            let f = st.frames.last();
            let num = f.number.update(f.number.len() - 1, f.number.last() + 1);
            let f1 = FrameModel {
                level: f.level,
                items: f.items.push(new_link(name, location, Some(num))),
                number: num,
            };
            Ok(OutlineState { frames: st.frames.update(st.frames.len() - 1, f1), ..st })
        } else {
            let c = st.count + 1;
            Ok(
                OutlineState {
                    numbered: st.numbered.push(new_link(name, location, Some(seq![c]))),
                    count: c,
                    ..st
                },
            )
        },
    }
}

/// One step of the parser: line `idx` holding `line`.
pub open spec fn apply_line(st: OutlineState, idx: nat, line: Seq<char>, width: nat) -> Result<
    OutlineState,
    ParseError,
> {
    match indent_level(line, width) {
        None => Err(ParseError::Indentation { line: idx as usize }),
        Some(l) => {
            let st1 = close_above(st, l);
            if l > top_level(st1) {
                if ends_with_chapter(st1) {
                    place(open_frame(st1, l), idx, classify(line))
                } else {
                    Err(
                        ParseError::Structure {
                            line: idx as usize,
                            rule: StructureRule::NestedUnderNonChapter,
                        },
                    )
                }
            } else {
                place(st1, idx, classify(line))
            }
        },
    }
}

/// The parser's state after the first `n` lines.
pub open spec fn run_lines(lines: Seq<Seq<char>>, n: nat, width: nat) -> Result<
    OutlineState,
    ParseError,
>
    decreases n,
{
    if n == 0 {
        Ok(initial_state())
    } else {
        match run_lines(lines, (n - 1) as nat, width) {
            Ok(st) => apply_line(st, (n - 1) as nat, lines[n - 1], width),
            Err(e) => Err(e),
        }
    }
}

/// The outline that `text` describes, with `width` spaces per level.
pub open spec fn parse_outline(text: Seq<char>, width: nat) -> Result<SummaryModel, ParseError> {
    let lines = lines_of(text);
    match run_lines(lines, lines.len(), width) {
        Ok(st) => {
            let fin = close_all(st);
            Ok(SummaryModel { prefix: fin.prefix, numbered: fin.numbered, suffix: fin.suffix })
        },
        Err(e) => Err(e),
    }
}

/// Every section counter is at most `b`, and every open level has a number.
pub open spec fn bounded(st: OutlineState, b: nat) -> bool {
    &&& st.count <= b
    &&& forall|i: int| 0 <= i < st.frames.len() ==> #[trigger] st.frames[i].number.len() >= 1
    &&& forall|i: int, j: int|
        0 <= i < st.frames.len() && 0 <= j < st.frames[i].number.len() ==> #[trigger] st.frames[i].number[j]
            <= b
}

pub open spec fn nums(s: Seq<usize>) -> Seq<nat> {
    s.map_values(|c: usize| c as nat)
}

pub open spec fn kind_model(k: Option<OutlineLine>) -> Option<LineKind> {
    match k {
        Some(x) => Some(x@),
        None => None,
    }
}

/// An open nesting level of the parser (see `FrameModel`).
struct Frame {
    level: usize,
    items: Vec<SummaryItem>,
    number: Vec<usize>,
}

impl Frame {
    spec fn view(&self) -> FrameModel {
        FrameModel { level: self.level as nat, items: items_model(self.items@), number: nums(self.number@) }
    }
}

/// The parser's state (see `OutlineState`); root-level items are kept in
/// their three groups as they arrive.
struct OutlineBuilder {
    prefix: Vec<SummaryItem>,
    numbered: Vec<SummaryItem>,
    suffix: Vec<SummaryItem>,
    count: usize,
    closed: bool,
    frames: Vec<Frame>,
}

pub proof fn lemma_link_model(l: Link)
    ensures
        item_model(SummaryItem::Link(l)) == (ItemModel::Link {
            name: l.name@,
            location: l.location@,
            number: number_model(l.number),
            nested: items_model(l.nested_items@),
        }),
{
    let m = item_model(SummaryItem::Link(l));
    assert(items_model(l.nested_items@) =~= m->nested);
}

proof fn lemma_items_push(s: Seq<SummaryItem>, x: SummaryItem)
    ensures
        items_model(s.push(x)) == items_model(s).push(item_model(x)),
{
    assert(items_model(s.push(x)) =~= items_model(s).push(item_model(x)));
}

proof fn lemma_items_drop_last(s: Seq<SummaryItem>)
    requires
        s.len() > 0,
    ensures
        items_model(s.drop_last()) == items_model(s).drop_last(),
        items_model(s).last() == item_model(s.last()),
{
    assert(items_model(s.drop_last()) =~= items_model(s).drop_last());
}

fn new_link_item(name: String, location: String, number: Option<SectionNumber>) -> (r: SummaryItem)
    ensures
        item_model(r) == new_link(name@, location@, number_model(number)),
{
    let l = Link { name, location, number, nested_items: Vec::new() };
    proof {
        lemma_link_model(l);
        assert(items_model(l.nested_items@) =~= Seq::<ItemModel>::empty());
    }
    SummaryItem::Link(l)
}

fn attach_nested_exec(items: &mut Vec<SummaryItem>, nested: Vec<SummaryItem>)
    ensures
        items_model(final(items)@) == attach_nested(items_model(old(items)@), items_model(nested@)),
{
    if items.len() > 0 {
        proof {
            lemma_items_drop_last(items@);
        }
        let last = items.pop().unwrap();
        match last {
            SummaryItem::Link(mut l) => {
                proof {
                    lemma_link_model(l);
                }
                l.nested_items = nested;
                proof {
                    lemma_link_model(l);
                    lemma_items_push(items@, SummaryItem::Link(l));
                }
                items.push(SummaryItem::Link(l));
                assert(items_model(final(items)@) =~= attach_nested(items_model(old(items)@), items_model(nested@)));
            },
            SummaryItem::Separator => {
                proof {
                    lemma_items_push(items@, SummaryItem::Separator);
                }
                items.push(SummaryItem::Separator);
                assert(items_model(final(items)@) =~= items_model(old(items)@));
            },
        }
    }
}

proof fn lemma_frames_drop_last(s: Seq<Frame>)
    requires
        s.len() > 0,
    ensures
        s.drop_last().map_values(|f: Frame| f.view()) == s.map_values(|f: Frame| f.view()).drop_last(),
{
    assert(s.drop_last().map_values(|f: Frame| f.view()) =~= s.map_values(|f: Frame| f.view()).drop_last());
}

proof fn lemma_frames_push(s: Seq<Frame>, x: Frame)
    ensures
        s.push(x).map_values(|f: Frame| f.view()) == s.map_values(|f: Frame| f.view()).push(x.view()),
{
    assert(s.push(x).map_values(|f: Frame| f.view()) =~= s.map_values(|f: Frame| f.view()).push(x.view()));
}

proof fn lemma_close_top_bounded(st: OutlineState, b: nat)
    requires
        st.frames.len() > 0,
        bounded(st, b),
    ensures
        bounded(close_top(st), b),
{
    let r = close_top(st);
    assert forall|i: int| 0 <= i < r.frames.len() implies r.frames[i].number == st.frames[i].number by {}
}

proof fn lemma_close_above_bounded(st: OutlineState, l: nat, b: nat)
    requires
        bounded(st, b),
    ensures
        bounded(close_above(st, l), b),
    decreases st.frames.len(),
{
    if st.frames.len() > 0 && st.frames.last().level > l {
        lemma_close_top_bounded(st, b);
        lemma_close_above_bounded(close_top(st), l, b);
    }
}

proof fn lemma_bounded_mono(st: OutlineState, b: nat, c: nat)
    requires
        bounded(st, b),
        b <= c,
    ensures
        bounded(st, c),
{
}

proof fn lemma_run_error(lines: Seq<Seq<char>>, n: nat, m: nat, width: nat, e: ParseError)
    requires
        n <= m,
        run_lines(lines, n, width) == Err::<OutlineState, ParseError>(e),
    ensures
        run_lines(lines, m, width) == Err::<OutlineState, ParseError>(e),
    decreases m - n,
{
    if n < m {
        lemma_run_error(lines, n, (m - 1) as nat, width, e);
    }
}

impl OutlineBuilder {
    spec fn view(&self) -> OutlineState {
        OutlineState {
            prefix: items_model(self.prefix@),
            numbered: items_model(self.numbered@),
            suffix: items_model(self.suffix@),
            count: self.count as nat,
            closed: self.closed,
            frames: self.frames@.map_values(|f: Frame| f.view()),
        }
    }

    fn new() -> (r: OutlineBuilder)
        ensures
            r@ == initial_state(),
    {
        let r = OutlineBuilder {
            prefix: Vec::new(),
            numbered: Vec::new(),
            suffix: Vec::new(),
            count: 0,
            closed: false,
            frames: Vec::new(),
        };
        assert(r@.prefix =~= Seq::<ItemModel>::empty());
        assert(r@.numbered =~= Seq::<ItemModel>::empty());
        assert(r@.suffix =~= Seq::<ItemModel>::empty());
        assert(r@.frames =~= Seq::<FrameModel>::empty());
        r
    }

    fn close_top(&mut self)
        requires
            old(self).frames.len() > 0,
        ensures
            final(self)@ == close_top(old(self)@),
            final(self).frames.len() == old(self).frames.len() - 1,
    {
        proof {
            lemma_frames_drop_last(self.frames@);
        }
        let f = self.frames.pop().unwrap();
        if self.frames.len() > 0 {
            proof {
                lemma_frames_drop_last(self.frames@);
            }
            let mut p = self.frames.pop().unwrap();
            attach_nested_exec(&mut p.items, f.items);
            proof {
                lemma_frames_push(self.frames@, p);
            }
            self.frames.push(p);
            assert(final(self)@.frames =~= close_top(old(self)@).frames);
        } else {
            attach_nested_exec(&mut self.numbered, f.items);
        }
    }

    fn top_level(&self) -> (r: usize)
        ensures
            r as nat == top_level(self@),
    {
        if self.frames.len() > 0 {
            self.frames[self.frames.len() - 1].level
        } else {
            0
        }
    }

    fn close_above(&mut self, l: usize)
        ensures
            final(self)@ == close_above(old(self)@, l as nat),
    {
        while self.frames.len() > 0 && self.frames[self.frames.len() - 1].level > l
            invariant
                close_above(self@, l as nat) == close_above(old(self)@, l as nat),
            decreases self.frames.len(),
        {
            self.close_top();
        }
    }

    fn close_all(&mut self)
        ensures
            final(self)@ == close_all(old(self)@),
    {
        while self.frames.len() > 0
            invariant
                close_all(self@) == close_all(old(self)@),
            decreases self.frames.len(),
        {
            self.close_top();
        }
    }

    fn ends_with_chapter(&self) -> (r: bool)
        ensures
            r == ends_with_chapter(self@),
    {
        if self.frames.len() > 0 {
            let items = &self.frames[self.frames.len() - 1].items;
            proof {
                if items@.len() > 0 {
                    lemma_items_drop_last(items@);
                }
            }
            items.len() > 0 && matches!(items[items.len() - 1], SummaryItem::Link(_))
        } else {
            proof {
                if self.numbered@.len() > 0 {
                    lemma_items_drop_last(self.numbered@);
                }
            }
            self.suffix.len() == 0 && self.numbered.len() > 0 && matches!(
                self.numbered[self.numbered.len() - 1],
                SummaryItem::Link(_)
            )
        }
    }

    fn open_frame(&mut self, l: usize, Ghost(b): Ghost<nat>)
        requires
            bounded(old(self)@, b),
        ensures
            final(self)@ == open_frame(old(self)@, l as nat),
            bounded(final(self)@, b),
    {
        let mut number: Vec<usize> = if self.frames.len() > 0 {
            self.frames[self.frames.len() - 1].number.clone()
        } else {
            vec![self.count]
        };
        assert(nums(number@) =~= current_number(self@));
        number.push(0);
        let f = Frame { level: l, items: Vec::new(), number };
        assert(nums(f.number@) =~= current_number(self@).push(0));
        assert(items_model(f.items@) =~= Seq::<ItemModel>::empty());
        proof {
            lemma_frames_push(self.frames@, f);
        }
        self.frames.push(f);
    }

    fn push_root(&mut self, item: SummaryItem)
        ensures
            final(self)@ == push_root(old(self)@, item_model(item)),
    {
        if self.closed {
            proof {
                lemma_items_push(self.suffix@, item);
            }
            self.suffix.push(item);
        } else if self.count > 0 {
            proof {
                lemma_items_push(self.numbered@, item);
            }
            self.numbered.push(item);
        } else {
            proof {
                lemma_items_push(self.prefix@, item);
            }
            self.prefix.push(item);
        }
    }

    fn place(&mut self, idx: usize, kind: Option<OutlineLine>) -> (r: Result<(), ParseError>)
        requires
            bounded(old(self)@, idx as nat),
            idx < usize::MAX,
        ensures
            place(old(self)@, idx as nat, kind_model(kind)) == match r {
                Ok(_) => Ok::<OutlineState, ParseError>(final(self)@),
                Err(e) => Err(e),
            },
            r is Ok ==> bounded(final(self)@, idx as nat + 1),
    {
        proof {
            lemma_bounded_mono(self@, idx as nat, idx as nat + 1);
        }
        match kind {
            None => Ok(()),
            Some(OutlineLine::Separator) => {
                if self.frames.len() > 0 {
                    Err(ParseError::Structure { line: idx, rule: StructureRule::BelowRoot })
                } else {
                    self.push_root(SummaryItem::Separator);
                    Ok(())
                }
            },
            Some(OutlineLine::Affix { name, location }) => {
                if self.frames.len() > 0 {
                    Err(ParseError::Structure { line: idx, rule: StructureRule::BelowRoot })
                } else {
                    self.closed = self.closed || self.count > 0;
                    let item = new_link_item(name, location, None);
                    self.push_root(item);
                    Ok(())
                }
            },
            Some(OutlineLine::Numbered { name, location }) => {
                if self.closed {
                    Err(
                        ParseError::Structure {
                            line: idx,
                            rule: StructureRule::ChapterAfterBackMatter,
                        },
                    )
                } else if self.frames.len() > 0 {
                    let ghost st = self@;
                    proof {
                        lemma_frames_drop_last(self.frames@);
                    }
                    let mut f = self.frames.pop().unwrap();
                    let n = f.number.len();
                    assert(st.frames[st.frames.len() - 1].number.len() >= 1);
                    assert(f.number[n - 1] <= idx) by {
                        assert(st.frames[st.frames.len() - 1].number[n - 1] <= idx);
                    }
                    let ghost fm = st.frames.last();
                    assert(f@ == fm);
                    let c = f.number[n - 1] + 1;
                    f.number.set(n - 1, c);
                    let ghost num = fm.number.update(fm.number.len() - 1, fm.number.last() + 1);
                    assert(nums(f.number@) =~= num);
                    let copy = f.number.clone();
                    assert(copy@ == f.number@);
                    let item = new_link_item(name, location, Some(SectionNumber(copy)));
                    proof {
                        lemma_items_push(f.items@, item);
                    }
                    f.items.push(item);
                    proof {
                        lemma_frames_push(self.frames@, f);
                    }
                    self.frames.push(f);
                    assert(self@.frames =~= place(st, idx as nat, kind_model(kind)).unwrap().frames);
                    assert(bounded(self@, idx as nat + 1)) by {
                        assert forall|i: int, j: int|
                            0 <= i < self@.frames.len() && 0 <= j < self@.frames[i].number.len() implies #[trigger] self@.frames[i].number[j]
                            <= idx as nat + 1 by {
                            if i < self@.frames.len() - 1 {
                                assert(self@.frames[i] == st.frames[i]);
                            } else if j < n - 1 {
                                assert(self@.frames[i].number[j] == st.frames[i].number[j]);
                            }
                        }
                    }
                    Ok(())
                } else {
                    self.count = self.count + 1;
                    let mut number: Vec<usize> = Vec::new();
                    number.push(self.count);
                    assert(nums(number@) =~= seq![self.count as nat]);
                    let item = new_link_item(name, location, Some(SectionNumber(number)));
                    proof {
                        lemma_items_push(self.numbered@, item);
                    }
                    self.numbered.push(item);
                    Ok(())
                }
            },
        }
    }

    fn apply_line(&mut self, idx: usize, line: &Vec<char>, width: usize) -> (r: Result<(), ParseError>)
        requires
            bounded(old(self)@, idx as nat),
            idx < usize::MAX,
            width >= 1,
        ensures
            apply_line(old(self)@, idx as nat, line@, width as nat) == match r {
                Ok(_) => Ok::<OutlineState, ParseError>(final(self)@),
                Err(e) => Err(e),
            },
            r is Ok ==> bounded(final(self)@, idx as nat + 1),
    {
        let l = match level(line, width) {
            Some(l) => l,
            None => return Err(ParseError::Indentation { line: idx }),
        };
        proof {
            lemma_close_above_bounded(self@, l as nat, idx as nat);
        }
        self.close_above(l);
        let top = self.top_level();
        let kind = parse_line(line);
        if l > top {
            if self.ends_with_chapter() {
                self.open_frame(l, Ghost(idx as nat));
                self.place(idx, kind)
            } else {
                Err(
                    ParseError::Structure {
                        line: idx,
                        rule: StructureRule::NestedUnderNonChapter,
                    },
                )
            }
        } else {
            self.place(idx, kind)
        }
    }
}

/// Parses an outline whose levels are indented by `width` spaces or by tabs.
pub fn parse_summary_with_width(text: &str, width: usize) -> (r: Result<Summary, ParseError>)
    requires
        width >= 1,
    ensures
        parse_outline(text@, width as nat) == match r {
            Ok(s) => Ok::<SummaryModel, ParseError>(s@),
            Err(e) => Err(e),
        },
{
    let cs = chars_of(text);
    let lines = split_lines(&cs);
    let ghost ls = lines_of(text@);
    let mut b = OutlineBuilder::new();
    let mut k: usize = 0;
    while k < lines.len()
        invariant
            k <= lines@.len(),
            ls == lines_of(text@),
            lines@.len() == ls.len(),
            forall|i: int| 0 <= i < lines@.len() ==> #[trigger] lines@[i]@ == ls[i],
            run_lines(ls, k as nat, width as nat) == Ok::<OutlineState, ParseError>(b@),
            bounded(b@, k as nat),
            width >= 1,
        decreases lines.len() - k,
    {
        let step = b.apply_line(k, &lines[k], width);
        assert(lines@[k as int]@ == ls[k as int]);
        match step {
            Ok(()) => {},
            Err(e) => {
                assert(run_lines(ls, k as nat + 1, width as nat) == Err::<OutlineState, ParseError>(e));
                proof {
                    lemma_run_error(ls, k as nat + 1, ls.len(), width as nat, e);
                }
                return Err(e);
            },
        }
        k = k + 1;
    }
    b.close_all();
    Ok(
        Summary {
            prefix_chapters: b.prefix,
            numbered_chapters: b.numbered,
            suffix_chapters: b.suffix,
        },
    )
}

/// Parses an outline indented by four spaces or one tab per level.
pub fn parse_summary(text: &str) -> (r: Result<Summary, ParseError>)
    ensures
        parse_outline(text@, 4) == match r {
            Ok(s) => Ok::<SummaryModel, ParseError>(s@),
            Err(e) => Err(e),
        },
{
    parse_summary_with_width(text, 4)
}

} // verus!
