use vstd::prelude::*;

use crate::book::{
    lookup, lookup_from, materialize_book, materialize_item,
    materialize_items, preorder, preorder_item, resolve_book, resolve_item, resolve_items, stub_of,
    BookItemModel, LoadErrorModel,
};
use crate::book::{walked, BookItem, Chapter, VirtualChapter};
use crate::path::{chapter_path, join_path};
use crate::line::{classify, indent_level, LineKind};
use crate::summary::{
    apply_line, attach_nested, close_above, close_all, close_top, new_link, open_frame,
    parse_outline, place, run_lines, top_level, OutlineState,
};
use crate::text::lines_of;
use crate::summary::{ItemModel, SummaryModel};

verus! {

/// Every link of `item`, nested ones included, has a file in `files`.
pub open spec fn present_item(
    item: ItemModel,
    root: Seq<char>,
    files: Seq<(Seq<char>, Seq<char>)>,
) -> bool
    decreases item,
{
    match item {
        ItemModel::Separator => true,
        ItemModel::Link { location, nested, .. } => lookup(files, join_path(root, location)) is Some
            && present_items(nested, root, files),
    }
}

pub open spec fn present_items(
    items: Seq<ItemModel>,
    root: Seq<char>,
    files: Seq<(Seq<char>, Seq<char>)>,
) -> bool
    decreases items,
{
    if items.len() == 0 {
        true
    } else {
        present_items(items.drop_last(), root, files) && present_item(items.last(), root, files)
    }
}

/// `g` keeps the text of every location that `f` has.
pub open spec fn extends(f: Seq<(Seq<char>, Seq<char>)>, g: Seq<(Seq<char>, Seq<char>)>) -> bool {
    forall|p: Seq<char>| lookup(f, p) is Some ==> #[trigger] lookup(g, p) == lookup(f, p)
}

proof fn lemma_lookup_push_from(
    f: Seq<(Seq<char>, Seq<char>)>,
    x: (Seq<char>, Seq<char>),
    p: Seq<char>,
    i: int,
)
    requires
        0 <= i <= f.len(),
    ensures
        lookup_from(f, p, i) is Some ==> lookup_from(f.push(x), p, i) == lookup_from(f, p, i),
        lookup_from(f, p, i) is None ==> lookup_from(f.push(x), p, i) == if x.0 == p {
            Some(x.1)
        } else {
            None
        },
    decreases f.len() - i,
{
    if i < f.len() {
        lemma_lookup_push_from(f, x, p, i + 1);
    } else {
        assert(lookup_from(f.push(x), p, i + 1) is None);
    }
}

proof fn lemma_extends_push(f: Seq<(Seq<char>, Seq<char>)>, x: (Seq<char>, Seq<char>))
    ensures
        extends(f, f.push(x)),
        lookup(f, x.0) is None ==> lookup(f.push(x), x.0) == Some(x.1),
{
    assert forall|p: Seq<char>| lookup(f, p) is Some implies #[trigger] lookup(f.push(x), p) == lookup(
        f,
        p,
    ) by {
        lemma_lookup_push_from(f, x, p, 0);
    }
    lemma_lookup_push_from(f, x, x.0, 0);
}

proof fn lemma_materialize_item_keeps(
    item: ItemModel,
    root: Seq<char>,
    f: Seq<(Seq<char>, Seq<char>)>,
)
    ensures
        extends(f, materialize_item(item, root, f)),
    decreases item,
{
    match item {
        ItemModel::Separator => {},
        ItemModel::Link { name, location, number: _, nested } => {
            let full = join_path(root, location);
            let f1 = if lookup(f, full) is None {
                f.push((full, stub_of(name)))
            } else {
                f
            };
            lemma_extends_push(f, (full, stub_of(name)));
            lemma_materialize_items_keeps(nested, root, f1);
        },
    }
}

proof fn lemma_materialize_items_keeps(
    items: Seq<ItemModel>,
    root: Seq<char>,
    f: Seq<(Seq<char>, Seq<char>)>,
)
    ensures
        extends(f, materialize_items(items, root, f)),
    decreases items,
{
    if items.len() > 0 {
        let g = materialize_items(items.drop_last(), root, f);
        lemma_materialize_items_keeps(items.drop_last(), root, f);
        lemma_materialize_item_keeps(items.last(), root, g);
    }
}

proof fn lemma_present_item_mono(
    item: ItemModel,
    root: Seq<char>,
    f: Seq<(Seq<char>, Seq<char>)>,
    g: Seq<(Seq<char>, Seq<char>)>,
)
    requires
        present_item(item, root, f),
        extends(f, g),
    ensures
        present_item(item, root, g),
    decreases item,
{
    match item {
        ItemModel::Separator => {},
        ItemModel::Link { location, nested, .. } => {
            assert(lookup(g, join_path(root, location)) == lookup(f, join_path(root, location)));
            lemma_present_items_mono(nested, root, f, g);
        },
    }
}

proof fn lemma_present_items_mono(
    items: Seq<ItemModel>,
    root: Seq<char>,
    f: Seq<(Seq<char>, Seq<char>)>,
    g: Seq<(Seq<char>, Seq<char>)>,
)
    requires
        present_items(items, root, f),
        extends(f, g),
    ensures
        present_items(items, root, g),
    decreases items,
{
    if items.len() > 0 {
        lemma_present_items_mono(items.drop_last(), root, f, g);
        lemma_present_item_mono(items.last(), root, f, g);
    }
}

proof fn lemma_materialize_item_covers(
    item: ItemModel,
    root: Seq<char>,
    f: Seq<(Seq<char>, Seq<char>)>,
)
    ensures
        present_item(item, root, materialize_item(item, root, f)),
    decreases item,
{
    match item {
        ItemModel::Separator => {},
        ItemModel::Link { name, location, number: _, nested } => {
            let full = join_path(root, location);
            let f1 = if lookup(f, full) is None {
                f.push((full, stub_of(name)))
            } else {
                f
            };
            lemma_extends_push(f, (full, stub_of(name)));
            assert(lookup(f1, full) is Some);
            lemma_materialize_items_keeps(nested, root, f1);
            lemma_materialize_items_covers(nested, root, f1);
            let g = materialize_items(nested, root, f1);
            assert(lookup(g, full) == lookup(f1, full));
        },
    }
}

/// After creating the missing files for some outline items, every link of
/// those items, at any depth, has a file.
pub proof fn lemma_materialize_items_covers(
    items: Seq<ItemModel>,
    root: Seq<char>,
    f: Seq<(Seq<char>, Seq<char>)>,
)
    ensures
        present_items(items, root, materialize_items(items, root, f)),
    decreases items,
{
    if items.len() > 0 {
        let g1 = materialize_items(items.drop_last(), root, f);
        lemma_materialize_items_covers(items.drop_last(), root, f);
        lemma_materialize_item_keeps(items.last(), root, g1);
        lemma_present_items_mono(items.drop_last(), root, g1, materialize_item(items.last(), root, g1));
        lemma_materialize_item_covers(items.last(), root, g1);
    }
}

proof fn lemma_materialize_item_noop(
    item: ItemModel,
    root: Seq<char>,
    f: Seq<(Seq<char>, Seq<char>)>,
)
    requires
        present_item(item, root, f),
    ensures
        materialize_item(item, root, f) == f,
    decreases item,
{
    match item {
        ItemModel::Separator => {},
        ItemModel::Link { nested, .. } => {
            lemma_materialize_items_noop(nested, root, f);
        },
    }
}

proof fn lemma_materialize_items_noop(
    items: Seq<ItemModel>,
    root: Seq<char>,
    f: Seq<(Seq<char>, Seq<char>)>,
)
    requires
        present_items(items, root, f),
    ensures
        materialize_items(items, root, f) == f,
    decreases items,
{
    if items.len() > 0 {
        lemma_materialize_items_noop(items.drop_last(), root, f);
        lemma_materialize_item_noop(items.last(), root, f);
    }
}

/// Creating missing chapter files twice against the same store gives the same
/// files as doing it once: the second pass creates nothing and changes no
/// text.
pub proof fn lemma_create_missing_idempotent(
    s: SummaryModel,
    root: Seq<char>,
    files: Seq<(Seq<char>, Seq<char>)>,
)
    ensures
        materialize_book(s, root, materialize_book(s, root, files)) == materialize_book(
            s,
            root,
            files,
        ),
{
    let all = s.prefix + s.numbered + s.suffix;
    lemma_materialize_items_covers(all, root, files);
    lemma_materialize_items_noop(all, root, materialize_items(all, root, files));
}

/// Every link of `item`, nested ones included, has a file in `files`, and
/// an absolute location lies below the content root.
pub open spec fn resolvable_item(
    item: ItemModel,
    root: Seq<char>,
    files: Seq<(Seq<char>, Seq<char>)>,
) -> bool
    decreases item,
{
    match item {
        ItemModel::Separator => true,
        ItemModel::Link { location, nested, .. } => lookup(files, join_path(root, location)) is Some
            && chapter_path(root, location) is Some && resolvable_items(nested, root, files),
    }
}

pub open spec fn resolvable_items(
    items: Seq<ItemModel>,
    root: Seq<char>,
    files: Seq<(Seq<char>, Seq<char>)>,
) -> bool
    decreases items,
{
    if items.len() == 0 {
        true
    } else {
        resolvable_items(items.drop_last(), root, files) && resolvable_item(
            items.last(),
            root,
            files,
        )
    }
}

proof fn lemma_resolvable_item_ok(
    item: ItemModel,
    root: Seq<char>,
    files: Seq<(Seq<char>, Seq<char>)>,
    parents: Seq<Seq<char>>,
)
    requires
        resolvable_item(item, root, files),
    ensures
        resolve_item(item, root, files, parents) is Ok,
    decreases item,
{
    match item {
        ItemModel::Separator => {},
        ItemModel::Link { name, nested, .. } => {
            lemma_resolvable_items_ok(nested, root, files, parents.push(name));
        },
    }
}

/// Outline items whose links all have a file (absolute ones lying below the
/// content root) resolve, one book item per outline item, each what its own
/// outline item resolves to.
pub proof fn lemma_resolvable_items_ok(
    items: Seq<ItemModel>,
    root: Seq<char>,
    files: Seq<(Seq<char>, Seq<char>)>,
    parents: Seq<Seq<char>>,
)
    requires
        resolvable_items(items, root, files),
    ensures
        resolve_items(items, root, files, parents) is Ok,
        resolve_items(items, root, files, parents)->Ok_0.len() == items.len(),
        forall|k: int|
            0 <= k < items.len() ==> #[trigger] resolve_item(items[k], root, files, parents) == Ok::<
                BookItemModel,
                LoadErrorModel,
            >(resolve_items(items, root, files, parents)->Ok_0[k]),
    decreases items,
{
    if items.len() > 0 {
        lemma_resolvable_items_ok(items.drop_last(), root, files, parents);
        lemma_resolvable_item_ok(items.last(), root, files, parents);
        let prev = resolve_items(items.drop_last(), root, files, parents)->Ok_0;
        assert forall|k: int| 0 <= k < items.len() implies #[trigger] resolve_item(
            items[k],
            root,
            files,
            parents,
        ) == Ok::<BookItemModel, LoadErrorModel>(
            resolve_items(items, root, files, parents)->Ok_0[k],
        ) by {
            if k < items.len() - 1 {
                assert(items.drop_last()[k] == items[k]);
            }
        }
    }
}

/// Parsing an outline and resolving it against files that hold every link
/// (absolute locations lying below the content root) gives a book with one
/// top-level item per top-level outline item, in the same order: the k-th
/// is what the k-th outline item resolves to.
pub proof fn lemma_book_follows_outline(
    text: Seq<char>,
    width: nat,
    root: Seq<char>,
    files: Seq<(Seq<char>, Seq<char>)>,
)
    requires
        parse_outline(text, width) is Ok,
        resolvable_items(
            parse_outline(text, width)->Ok_0.prefix + parse_outline(text, width)->Ok_0.numbered
                + parse_outline(text, width)->Ok_0.suffix,
            root,
            files,
        ),
    ensures
        ({
            let s = parse_outline(text, width)->Ok_0;
            let all = s.prefix + s.numbered + s.suffix;
            &&& resolve_book(s, root, files) is Ok
            &&& resolve_book(s, root, files)->Ok_0.len() == s.prefix.len() + s.numbered.len()
                + s.suffix.len()
            &&& forall|k: int|
                0 <= k < all.len() ==> #[trigger] resolve_item(all[k], root, files, Seq::empty())
                    == Ok::<BookItemModel, LoadErrorModel>(resolve_book(s, root, files)->Ok_0[k])
        }),
{
    let s = parse_outline(text, width)->Ok_0;
    lemma_resolvable_items_ok(s.prefix + s.numbered + s.suffix, root, files, Seq::empty());
}

/// The names of the chapters among `items`, in order.
pub open spec fn chapter_names(items: Seq<BookItemModel>) -> Seq<Seq<char>>
    decreases items.len(),
{
    if items.len() == 0 {
        Seq::empty()
    } else {
        chapter_names(items.drop_last()) + match items.last() {
            BookItemModel::Chapter { name, .. } => seq![name],
            _ => Seq::empty(),
        }
    }
}

/// The display names of the links of `item`, each before those nested in
/// it.
pub open spec fn link_names_item(item: ItemModel) -> Seq<Seq<char>>
    decreases item,
{
    match item {
        ItemModel::Separator => Seq::empty(),
        ItemModel::Link { name, nested, .. } => seq![name] + link_names(nested),
    }
}

/// The display names of the links of `items` in reading order.
pub open spec fn link_names(items: Seq<ItemModel>) -> Seq<Seq<char>>
    decreases items,
{
    if items.len() == 0 {
        Seq::empty()
    } else {
        link_names(items.drop_last()) + link_names_item(items.last())
    }
}

proof fn lemma_chapter_names_concat(a: Seq<BookItemModel>, b: Seq<BookItemModel>)
    ensures
        chapter_names(a + b) == chapter_names(a) + chapter_names(b),
    decreases b.len(),
{
    if b.len() == 0 {
        assert(a + b =~= a);
        assert(chapter_names(a) + chapter_names(b) =~= chapter_names(a));
    } else {
        lemma_chapter_names_concat(a, b.drop_last());
        assert((a + b).drop_last() =~= a + b.drop_last());
        assert((a + b).last() == b.last());
        assert(chapter_names(a + b) =~= chapter_names(a) + chapter_names(b));
    }
}

proof fn lemma_chapter_names_single(x: BookItemModel)
    ensures
        chapter_names(seq![x]) == match x {
            BookItemModel::Chapter { name, .. } => seq![name],
            _ => Seq::<Seq<char>>::empty(),
        },
{
    assert(seq![x].drop_last() =~= Seq::<BookItemModel>::empty());
    assert(seq![x].last() == x);
    assert(chapter_names(Seq::<BookItemModel>::empty()) =~= Seq::<Seq<char>>::empty());
    assert(chapter_names(seq![x]) =~= match x {
        BookItemModel::Chapter { name, .. } => seq![name],
        _ => Seq::<Seq<char>>::empty(),
    });
}

proof fn lemma_item_names(
    item: ItemModel,
    root: Seq<char>,
    files: Seq<(Seq<char>, Seq<char>)>,
    parents: Seq<Seq<char>>,
)
    requires
        resolve_item(item, root, files, parents) is Ok,
    ensures
        chapter_names(preorder_item(resolve_item(item, root, files, parents)->Ok_0))
            == link_names_item(item),
    decreases item,
{
    match item {
        ItemModel::Separator => {
            lemma_chapter_names_single(BookItemModel::Separator);
        },
        ItemModel::Link { name, nested, .. } => {
            let b = resolve_item(item, root, files, parents)->Ok_0;
            let subs = resolve_items(nested, root, files, parents.push(name))->Ok_0;
            lemma_items_names(nested, root, files, parents.push(name));
            lemma_chapter_names_concat(seq![b], preorder(subs));
            lemma_chapter_names_single(b);
        },
    }
}

proof fn lemma_items_names(
    items: Seq<ItemModel>,
    root: Seq<char>,
    files: Seq<(Seq<char>, Seq<char>)>,
    parents: Seq<Seq<char>>,
)
    requires
        resolve_items(items, root, files, parents) is Ok,
    ensures
        chapter_names(preorder(resolve_items(items, root, files, parents)->Ok_0)) == link_names(
            items,
        ),
    decreases items,
{
    if items.len() == 0 {
        assert(preorder(Seq::<BookItemModel>::empty()) =~= Seq::<BookItemModel>::empty());
    } else {
        let prev = resolve_items(items.drop_last(), root, files, parents)->Ok_0;
        let x = resolve_item(items.last(), root, files, parents)->Ok_0;
        lemma_items_names(items.drop_last(), root, files, parents);
        lemma_item_names(items.last(), root, files, parents);
        assert(prev.push(x).drop_last() =~= prev);
        lemma_chapter_names_concat(preorder(prev), preorder_item(x));
    }
}

/// Resolving a book, walking it depth first and keeping the chapters gives
/// the display names of the outline's links in reading order.
pub proof fn lemma_reading_order(s: SummaryModel, root: Seq<char>, files: Seq<(Seq<char>, Seq<char>)>)
    requires
        resolve_book(s, root, files) is Ok,
    ensures
        chapter_names(preorder(resolve_book(s, root, files)->Ok_0)) == link_names(
            s.prefix + s.numbered + s.suffix,
        ),
{
    lemma_items_names(s.prefix + s.numbered + s.suffix, root, files, Seq::empty());
}

proof fn lemma_resolved_item_resolvable(
    item: ItemModel,
    root: Seq<char>,
    files: Seq<(Seq<char>, Seq<char>)>,
    parents: Seq<Seq<char>>,
)
    requires
        resolve_item(item, root, files, parents) is Ok,
    ensures
        resolvable_item(item, root, files),
    decreases item,
{
    match item {
        ItemModel::Separator => {},
        ItemModel::Link { name, nested, .. } => {
            lemma_resolved_items_resolvable(nested, root, files, parents.push(name));
        },
    }
}

/// Outline items resolve only when every link among them, at any depth, has
/// a file and, if absolute, lies below the content root; with
/// `lemma_resolvable_items_ok`, they resolve exactly then.
pub proof fn lemma_resolved_items_resolvable(
    items: Seq<ItemModel>,
    root: Seq<char>,
    files: Seq<(Seq<char>, Seq<char>)>,
    parents: Seq<Seq<char>>,
)
    requires
        resolve_items(items, root, files, parents) is Ok,
    ensures
        resolvable_items(items, root, files),
    decreases items,
{
    if items.len() > 0 {
        lemma_resolved_items_resolvable(items.drop_last(), root, files, parents);
        lemma_resolved_item_resolvable(items.last(), root, files, parents);
    }
}

proof fn lemma_resolved_item_present(
    item: ItemModel,
    root: Seq<char>,
    files: Seq<(Seq<char>, Seq<char>)>,
    parents: Seq<Seq<char>>,
)
    requires
        resolve_item(item, root, files, parents) is Ok,
    ensures
        present_item(item, root, files),
    decreases item,
{
    match item {
        ItemModel::Separator => {},
        ItemModel::Link { name, nested, .. } => {
            lemma_resolved_items_present(nested, root, files, parents.push(name));
        },
    }
}

proof fn lemma_resolved_items_present(
    items: Seq<ItemModel>,
    root: Seq<char>,
    files: Seq<(Seq<char>, Seq<char>)>,
    parents: Seq<Seq<char>>,
)
    requires
        resolve_items(items, root, files, parents) is Ok,
    ensures
        present_items(items, root, files),
    decreases items,
{
    if items.len() > 0 {
        lemma_resolved_items_present(items.drop_last(), root, files, parents);
        lemma_resolved_item_present(items.last(), root, files, parents);
    }
}

/// A book whose outline has a link, at any depth and in any group, with no
/// file at its location (a directory, for one, is never a file of the store)
/// does not resolve: no book comes back.
pub proof fn lemma_missing_content_fails(
    s: SummaryModel,
    root: Seq<char>,
    files: Seq<(Seq<char>, Seq<char>)>,
)
    requires
        !present_items(s.prefix + s.numbered + s.suffix, root, files),
    ensures
        resolve_book(s, root, files) is Err,
{
    if resolve_book(s, root, files) is Ok {
        lemma_resolved_items_present(s.prefix + s.numbered + s.suffix, root, files, Seq::empty());
    }
}

/// `a` and `b` have the same items at every depth: same variants, names,
/// numbers, paths and parent names; only contents may differ.
pub open spec fn same_shape(a: Seq<BookItem>, b: Seq<BookItem>) -> bool
    decreases a,
{
    if a.len() == 0 {
        b.len() == 0
    } else {
        &&& b.len() == a.len()
        &&& same_shape(a.drop_last(), b.drop_last())
        &&& match a.last() {
            BookItem::Chapter(x) => match b.last() {
                BookItem::Chapter(y) => {
                    &&& y.name == x.name
                    &&& y.number == x.number
                    &&& y.path == x.path
                    &&& y.parent_names == x.parent_names
                    &&& same_shape(x.sub_items@, y.sub_items@)
                },
                _ => false,
            },
            BookItem::VirtualChapter(x) => match b.last() {
                BookItem::VirtualChapter(y) => {
                    &&& y.name == x.name
                    &&& y.number == x.number
                    &&& same_shape(x.sub_items@, y.sub_items@)
                },
                _ => false,
            },
            BookItem::Separator => b.last() is Separator,
        }
    }
}

/// `y` is `x` with at most its content changed.
pub open spec fn content_only(x: BookItem, y: BookItem) -> bool {
    match x {
        BookItem::Chapter(c) => y is Chapter && y->Chapter_0 == Chapter {
            content: y->Chapter_0.content,
            ..c
        },
        BookItem::VirtualChapter(c) => y is VirtualChapter && y->VirtualChapter_0
            == VirtualChapter { content: y->VirtualChapter_0.content, ..c },
        BookItem::Separator => y == x,
    }
}

/// Walking a book with a callback that changes no more than an item's
/// content keeps the book's shape: every item, at every depth, keeps its
/// place, variant, name, number, path and parent names.
pub proof fn lemma_walk_keeps_shape<F: FnMut(BookItem) -> BookItem>(
    before: Seq<BookItem>,
    after: Seq<BookItem>,
)
    requires
        walked::<F>(before, after),
        forall|f: F, x: BookItem, y: BookItem| call_ensures(f, (x,), y) ==> content_only(x, y),
    ensures
        same_shape(before, after),
    decreases before,
{
    if before.len() > 0 {
        lemma_walk_keeps_shape::<F>(before.drop_last(), after.drop_last());
        let (f, mid) = choose|f: F, mid: BookItem|
            #[trigger] call_ensures(f, (mid,), after.last()) && match before.last() {
                BookItem::Chapter(c) => {
                    &&& mid is Chapter
                    &&& walked::<F>(c.sub_items@, mid->Chapter_0.sub_items@)
                    &&& mid->Chapter_0 == Chapter { sub_items: mid->Chapter_0.sub_items, ..c }
                },
                BookItem::VirtualChapter(c) => {
                    &&& mid is VirtualChapter
                    &&& walked::<F>(c.sub_items@, mid->VirtualChapter_0.sub_items@)
                    &&& mid->VirtualChapter_0 == VirtualChapter {
                        sub_items: mid->VirtualChapter_0.sub_items,
                        ..c
                    }
                },
                BookItem::Separator => mid == before.last(),
            };
        assert(content_only(mid, after.last()));
        match before.last() {
            BookItem::Chapter(c) => {
                lemma_walk_keeps_shape::<F>(c.sub_items@, mid->Chapter_0.sub_items@);
            },
            BookItem::VirtualChapter(c) => {
                lemma_walk_keeps_shape::<F>(c.sub_items@, mid->VirtualChapter_0.sub_items@);
            },
            BookItem::Separator => {},
        }
    }
}

/// A root-level item of front or back matter: a separator, or a link with no
/// number and nothing nested.
pub open spec fn is_affix_item(x: ItemModel) -> bool {
    match x {
        ItemModel::Separator => true,
        ItemModel::Link { number, nested, .. } => number is None && nested.len() == 0,
    }
}

/// Every item is a numbered link, and so is every item nested in one, at any
/// depth: no separator and no front or back matter below the root.
#[verifier::opaque]
pub open spec fn chapters_only(items: Seq<ItemModel>) -> bool
    decreases items,
{
    forall|i: int|
        #![trigger items[i]]
        0 <= i < items.len() ==> {
            &&& items[i] is Link
            &&& items[i]->number is Some
            &&& chapters_only(items[i]->nested)
        }
}

/// The numbered group: separators, and numbered links whose nested items are
/// numbered chapters only.
pub open spec fn numbered_group(items: Seq<ItemModel>) -> bool {
    forall|i: int|
        #![trigger items[i]]
        0 <= i < items.len() && items[i] is Link ==> {
            &&& items[i]->number is Some
            &&& chapters_only(items[i]->nested)
        }
}

pub open spec fn affix_group(items: Seq<ItemModel>) -> bool {
    forall|i: int| 0 <= i < items.len() ==> is_affix_item(#[trigger] items[i])
}

/// What the parser keeps true of where items may stand.
pub open spec fn structure_inv(st: OutlineState) -> bool {
    &&& affix_group(st.prefix)
    &&& affix_group(st.suffix)
    &&& numbered_group(st.numbered)
    &&& forall|k: int| 0 <= k < st.frames.len() ==> chapters_only(#[trigger] st.frames[k].items)
}

proof fn lemma_attach_chapters(items: Seq<ItemModel>, nested: Seq<ItemModel>)
    requires
        chapters_only(items),
        chapters_only(nested),
    ensures
        chapters_only(attach_nested(items, nested)),
{
    reveal(chapters_only);
    let r = attach_nested(items, nested);
    assert forall|i: int| #![trigger r[i]] 0 <= i < r.len() implies {
        &&& r[i] is Link
        &&& r[i]->number is Some
        &&& chapters_only(r[i]->nested)
    } by {
        if i < items.len() - 1 {
            assert(r[i] == items[i]);
        }
    }
}

proof fn lemma_attach_numbered_group(items: Seq<ItemModel>, nested: Seq<ItemModel>)
    requires
        numbered_group(items),
        chapters_only(nested),
    ensures
        numbered_group(attach_nested(items, nested)),
{
    let r = attach_nested(items, nested);
    assert forall|i: int| #![trigger r[i]] 0 <= i < r.len() && r[i] is Link implies {
        &&& r[i]->number is Some
        &&& chapters_only(r[i]->nested)
    } by {
        if i < items.len() - 1 {
            assert(r[i] == items[i]);
        }
    }
}

proof fn lemma_push_chapter(items: Seq<ItemModel>, x: ItemModel)
    requires
        chapters_only(items),
        x is Link,
        x->number is Some,
        x->nested.len() == 0,
    ensures
        chapters_only(items.push(x)),
{
    reveal(chapters_only);
    let r = items.push(x);
    assert(chapters_only(x->nested));
    assert forall|i: int| #![trigger r[i]] 0 <= i < r.len() implies {
        &&& r[i] is Link
        &&& r[i]->number is Some
        &&& chapters_only(r[i]->nested)
    } by {
        if i < items.len() {
            assert(r[i] == items[i]);
        }
    }
}

proof fn lemma_close_top_structure(st: OutlineState)
    requires
        structure_inv(st),
        st.frames.len() > 0,
    ensures
        structure_inv(close_top(st)),
{
    let f = st.frames.last();
    let rest = st.frames.drop_last();
    let r = close_top(st);
    assert(chapters_only(st.frames[st.frames.len() - 1].items));
    if rest.len() > 0 {
        let m = rest.len() - 1;
        assert(chapters_only(st.frames[m].items));
        lemma_attach_chapters(rest.last().items, f.items);
        assert forall|k: int| 0 <= k < r.frames.len() implies chapters_only(
            #[trigger] r.frames[k].items,
        ) by {
            if k < m {
                assert(r.frames[k] == st.frames[k]);
            }
        }
    } else {
        lemma_attach_numbered_group(st.numbered, f.items);
    }
}

proof fn lemma_close_above_structure(st: OutlineState, l: nat)
    requires
        structure_inv(st),
    ensures
        structure_inv(close_above(st, l)),
    decreases st.frames.len(),
{
    if st.frames.len() > 0 && st.frames.last().level > l {
        lemma_close_top_structure(st);
        lemma_close_above_structure(close_top(st), l);
    }
}

proof fn lemma_close_all_structure(st: OutlineState)
    requires
        structure_inv(st),
    ensures
        structure_inv(close_all(st)),
    decreases st.frames.len(),
{
    if st.frames.len() > 0 {
        lemma_close_top_structure(st);
        lemma_close_all_structure(close_top(st));
    }
}

proof fn lemma_place_structure(st: OutlineState, idx: nat, kind: Option<LineKind>)
    requires
        structure_inv(st),
        place(st, idx, kind) is Ok,
    ensures
        structure_inv(place(st, idx, kind)->Ok_0),
{
    let r = place(st, idx, kind)->Ok_0;
    match kind {
        None => {},
        Some(LineKind::Separator) => {
            assert(r.prefix.len() >= st.prefix.len());
            assert forall|i: int| 0 <= i < r.prefix.len() implies is_affix_item(
                #[trigger] r.prefix[i],
            ) by {
                if i < st.prefix.len() {
                    assert(r.prefix[i] == st.prefix[i]);
                }
            }
            assert forall|i: int| 0 <= i < r.suffix.len() implies is_affix_item(
                #[trigger] r.suffix[i],
            ) by {
                if i < st.suffix.len() {
                    assert(r.suffix[i] == st.suffix[i]);
                }
            }
            assert forall|i: int| #![trigger r.numbered[i]] 0 <= i < r.numbered.len()
                && r.numbered[i] is Link implies {
                &&& r.numbered[i]->number is Some
                &&& chapters_only(r.numbered[i]->nested)
            } by {
                assert(r.numbered[i] == st.numbered[i]);
            }
        },
        Some(LineKind::Affix { name, location }) => {
            let x = new_link(name, location, None);
            assert(is_affix_item(x));
            assert forall|i: int| 0 <= i < r.prefix.len() implies is_affix_item(
                #[trigger] r.prefix[i],
            ) by {
                if i < st.prefix.len() {
                    assert(r.prefix[i] == st.prefix[i]);
                }
            }
            assert forall|i: int| 0 <= i < r.suffix.len() implies is_affix_item(
                #[trigger] r.suffix[i],
            ) by {
                if i < st.suffix.len() {
                    assert(r.suffix[i] == st.suffix[i]);
                }
            }
        },
        Some(LineKind::Numbered { name, location }) => {
            if st.frames.len() > 0 {
                let m = st.frames.len() - 1;
                let f = st.frames[m];
                let num = f.number.update(f.number.len() - 1, f.number.last() + 1);
                assert(chapters_only(f.items));
                lemma_push_chapter(f.items, new_link(name, location, Some(num)));
                assert forall|k: int| 0 <= k < r.frames.len() implies chapters_only(
                    #[trigger] r.frames[k].items,
                ) by {
                    if k < m {
                        assert(r.frames[k] == st.frames[k]);
                    }
                }
            } else {
                let x = new_link(name, location, Some(seq![st.count + 1]));
                assert(chapters_only(x->nested)) by {
                    reveal(chapters_only);
                }
                assert forall|i: int| #![trigger r.numbered[i]] 0 <= i < r.numbered.len()
                    && r.numbered[i] is Link implies {
                    &&& r.numbered[i]->number is Some
                    &&& chapters_only(r.numbered[i]->nested)
                } by {
                    if i < st.numbered.len() {
                        assert(r.numbered[i] == st.numbered[i]);
                    }
                }
            }
        },
    }
}

proof fn lemma_apply_line_structure(st: OutlineState, idx: nat, line: Seq<char>, width: nat)
    requires
        structure_inv(st),
        apply_line(st, idx, line, width) is Ok,
    ensures
        structure_inv(apply_line(st, idx, line, width)->Ok_0),
{
    let l = indent_level(line, width)->Some_0;
    let st1 = close_above(st, l);
    lemma_close_above_structure(st, l);
    if l > top_level(st1) {
        let st2 = open_frame(st1, l);
        assert forall|k: int| 0 <= k < st2.frames.len() implies chapters_only(
            #[trigger] st2.frames[k].items,
        ) by {
            if k < st1.frames.len() {
                assert(st2.frames[k] == st1.frames[k]);
            } else {
                reveal(chapters_only);
            }
        }
        lemma_place_structure(st2, idx, classify(line));
    } else {
        lemma_place_structure(st1, idx, classify(line));
    }
}

proof fn lemma_run_structure(lines: Seq<Seq<char>>, n: nat, width: nat)
    requires
        run_lines(lines, n, width) is Ok,
    ensures
        structure_inv(run_lines(lines, n, width)->Ok_0),
    decreases n,
{
    if n > 0 {
        lemma_run_structure(lines, (n - 1) as nat, width);
        lemma_apply_line_structure(
            run_lines(lines, (n - 1) as nat, width)->Ok_0,
            (n - 1) as nat,
            lines[n - 1],
            width,
        );
    }
}

/// In a parsed outline, front and back matter hold only separators and
/// unnumbered links with nothing nested; every link of the numbered group is
/// numbered; and below the root stand only numbered chapters, at any depth.
/// So no numbered chapter follows back matter, and separators and front or
/// back matter stand at the root only.
pub proof fn lemma_outline_structure(text: Seq<char>, width: nat)
    requires
        parse_outline(text, width) is Ok,
    ensures
        affix_group(parse_outline(text, width)->Ok_0.prefix),
        affix_group(parse_outline(text, width)->Ok_0.suffix),
        numbered_group(parse_outline(text, width)->Ok_0.numbered),
{
    let lines = lines_of(text);
    lemma_run_structure(lines, lines.len(), width);
    lemma_close_all_structure(run_lines(lines, lines.len(), width)->Ok_0);
}

} // verus!
