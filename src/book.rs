use vstd::prelude::*;

use crate::summary::{
    dotted, items_model, item_model, lemma_link_model, number_model, ItemModel, Link,
    SectionNumber, Summary, SummaryItem,
};
use crate::path::{chapter_path, join, join_path, relative_location};

verus! {

/// A chapter: a link of the outline together with its loaded content.
#[derive(Debug, PartialEq)]
pub struct Chapter {
    pub name: String,
    pub content: String,
    pub number: Option<SectionNumber>,
    pub sub_items: Vec<BookItem>,
    /// The location of the chapter relative to the content root.
    pub path: String,
    /// The names of the chapters above this one, outermost first.
    pub parent_names: Vec<String>,
}

/// A chapter that is not backed by a file.
#[derive(Debug, PartialEq)]
pub struct VirtualChapter {
    pub name: String,
    pub content: String,
    pub number: Option<SectionNumber>,
    pub sub_items: Vec<BookItem>,
}

/// Any item of a book.
#[derive(Debug, PartialEq)]
pub enum BookItem {
    Chapter(Chapter),
    VirtualChapter(VirtualChapter),
    Separator,
}

/// A resolved book: its items in reading order.
#[derive(Debug, PartialEq)]
pub struct Book {
    pub sections: Vec<BookItem>,
}

/// The mathematical model of a book item.
pub enum BookItemModel {
    Chapter {
        name: Seq<char>,
        content: Seq<char>,
        number: Option<Seq<nat>>,
        sub_items: Seq<BookItemModel>,
        path: Seq<char>,
        parent_names: Seq<Seq<char>>,
    },
    VirtualChapter {
        name: Seq<char>,
        content: Seq<char>,
        number: Option<Seq<nat>>,
        sub_items: Seq<BookItemModel>,
    },
    Separator,
}

pub open spec fn names_model(v: Seq<String>) -> Seq<Seq<char>> {
    v.map_values(|s: String| s@)
}

pub open spec fn book_item_model(i: BookItem) -> BookItemModel
    decreases i,
{
    match i {
        BookItem::Separator => BookItemModel::Separator,
        BookItem::Chapter(c) => BookItemModel::Chapter {
            name: c.name@,
            content: c.content@,
            number: number_model(c.number),
            sub_items: Seq::new(
                c.sub_items.len() as nat,
                |k: int|
                    if 0 <= k < c.sub_items.len() {
                        book_item_model(c.sub_items[k])
                    } else {
                        BookItemModel::Separator
                    },
            ),
            path: c.path@,
            parent_names: names_model(c.parent_names@),
        },
        BookItem::VirtualChapter(c) => BookItemModel::VirtualChapter {
            name: c.name@,
            content: c.content@,
            number: number_model(c.number),
            sub_items: Seq::new(
                c.sub_items.len() as nat,
                |k: int|
                    if 0 <= k < c.sub_items.len() {
                        book_item_model(c.sub_items[k])
                    } else {
                        BookItemModel::Separator
                    },
            ),
        },
    }
}

pub open spec fn book_items_model(s: Seq<BookItem>) -> Seq<BookItemModel> {
    Seq::new(s.len(), |k: int| book_item_model(s[k]))
}

impl Book {
    pub open spec fn view(&self) -> Seq<BookItemModel> {
        book_items_model(self.sections@)
    }
}

proof fn lemma_book_items_push(s: Seq<BookItem>, x: BookItem)
    ensures
        book_items_model(s.push(x)) == book_items_model(s).push(book_item_model(x)),
{
    assert(book_items_model(s.push(x)) =~= book_items_model(s).push(book_item_model(x)));
}

proof fn lemma_chapter_model(c: Chapter)
    ensures
        book_item_model(BookItem::Chapter(c)) == (BookItemModel::Chapter {
            name: c.name@,
            content: c.content@,
            number: number_model(c.number),
            sub_items: book_items_model(c.sub_items@),
            path: c.path@,
            parent_names: names_model(c.parent_names@),
        }),
{
    let m = book_item_model(BookItem::Chapter(c));
    assert(book_items_model(c.sub_items@) =~= m->Chapter_sub_items);
}

proof fn lemma_virtual_chapter_model(c: VirtualChapter)
    ensures
        book_item_model(BookItem::VirtualChapter(c)) == (BookItemModel::VirtualChapter {
            name: c.name@,
            content: c.content@,
            number: number_model(c.number),
            sub_items: book_items_model(c.sub_items@),
        }),
{
    let m = book_item_model(BookItem::VirtualChapter(c));
    assert(book_items_model(c.sub_items@) =~= m->VirtualChapter_sub_items);
}

/// The files that a book's content is read from: each a full location and
/// its text. A location that is listed twice has its first text.
pub struct ContentStore {
    files: Vec<(String, String)>,
}

pub open spec fn lookup_from(files: Seq<(Seq<char>, Seq<char>)>, p: Seq<char>, i: int) -> Option<
    Seq<char>,
>
    decreases files.len() - i,
{
    if i < 0 || i >= files.len() {
        None
    } else if files[i].0 == p {
        Some(files[i].1)
    } else {
        lookup_from(files, p, i + 1)
    }
}

/// The text stored under location `p`, if any.
pub open spec fn lookup(files: Seq<(Seq<char>, Seq<char>)>, p: Seq<char>) -> Option<Seq<char>> {
    lookup_from(files, p, 0)
}

impl ContentStore {
    pub closed spec fn view(&self) -> Seq<(Seq<char>, Seq<char>)> {
        self.files@.map_values(|f: (String, String)| (f.0@, f.1@))
    }

    pub fn new() -> (r: ContentStore)
        ensures
            r@ == Seq::<(Seq<char>, Seq<char>)>::empty(),
    {
        let r = ContentStore { files: Vec::new() };
        assert(r@ =~= Seq::<(Seq<char>, Seq<char>)>::empty());
        r
    }

    /// Adds a file; a location already present keeps its earlier text.
    pub fn insert(&mut self, path: String, content: String)
        ensures
            final(self)@ == old(self)@.push((path@, content@)),
    {
        self.files.push((path, content));
        assert(self@ =~= old(self)@.push((path@, content@)));
    }

    /// The text stored under `path`.
    pub fn read(&self, path: &String) -> (r: Option<String>)
        ensures
            match r {
                Some(c) => lookup(self@, path@) == Some(c@),
                None => lookup(self@, path@) is None,
            },
    {
        let mut i: usize = 0;
        while i < self.files.len()
            invariant
                i <= self.files@.len(),
                lookup(self@, path@) == lookup_from(self@, path@, i as int),
            decreases self.files.len() - i,
        {
            if self.files[i].0 == *path {
                return Some(self.files[i].1.clone());
            }
            i = i + 1;
        }
        None
    }
}

/// Why a book could not be resolved.
#[derive(Debug, Clone, PartialEq)]
pub enum LoadError {
    /// The content of the link with this location could not be read.
    ContentNotFound { location: String },
    /// An absolute link location lies outside the content root.
    PathEscape { location: String },
}

pub enum LoadErrorModel {
    ContentNotFound(Seq<char>),
    PathEscape(Seq<char>),
}

impl LoadError {
    pub open spec fn view(&self) -> LoadErrorModel {
        match self {
            LoadError::ContentNotFound { location } => LoadErrorModel::ContentNotFound(location@),
            LoadError::PathEscape { location } => LoadErrorModel::PathEscape(location@),
        }
    }
}

/// The book item that an outline item resolves to, below the chapters named
/// in `parents`.
pub open spec fn resolve_item(
    item: ItemModel,
    root: Seq<char>,
    files: Seq<(Seq<char>, Seq<char>)>,
    parents: Seq<Seq<char>>,
) -> Result<BookItemModel, LoadErrorModel>
    decreases item,
{
    match item {
        ItemModel::Separator => Ok(BookItemModel::Separator),
        ItemModel::Link { name, location, number, nested } => match lookup(
            files,
            join_path(root, location),
        ) {
            None => Err(LoadErrorModel::ContentNotFound(location)),
            Some(content) => match chapter_path(root, location) {
                None => Err(LoadErrorModel::PathEscape(location)),
                Some(path) => match resolve_items(nested, root, files, parents.push(name)) {
                    Err(e) => Err(e),
                    Ok(subs) => Ok(
                        BookItemModel::Chapter {
                            name,
                            content,
                            number,
                            sub_items: subs,
                            path,
                            parent_names: parents,
                        },
                    ),
                },
            },
        },
    }
}

/// The book items that a sequence of outline items resolves to, in order;
/// the first failure in reading order wins.
pub open spec fn resolve_items(
    items: Seq<ItemModel>,
    root: Seq<char>,
    files: Seq<(Seq<char>, Seq<char>)>,
    parents: Seq<Seq<char>>,
) -> Result<Seq<BookItemModel>, LoadErrorModel>
    decreases items,
{
    if items.len() == 0 {
        Ok(Seq::empty())
    } else {
        match resolve_items(items.drop_last(), root, files, parents) {
            Err(e) => Err(e),
            Ok(prev) => match resolve_item(items.last(), root, files, parents) {
                Err(e) => Err(e),
                Ok(x) => Ok(prev.push(x)),
            },
        }
    }
}

proof fn lemma_resolve_error(
    s: Seq<ItemModel>,
    n: int,
    m: int,
    root: Seq<char>,
    files: Seq<(Seq<char>, Seq<char>)>,
    parents: Seq<Seq<char>>,
    e: LoadErrorModel,
)
    requires
        0 <= n <= m <= s.len(),
        resolve_items(s.take(n), root, files, parents) == Err::<Seq<BookItemModel>, LoadErrorModel>(e),
    ensures
        resolve_items(s.take(m), root, files, parents) == Err::<Seq<BookItemModel>, LoadErrorModel>(e),
    decreases m - n,
{
    if n < m {
        lemma_resolve_error(s, n, m - 1, root, files, parents, e);
        assert(s.take(m).drop_last() =~= s.take(m - 1));
    }
}

fn clone_names(v: &Vec<String>) -> (r: Vec<String>)
    ensures
        names_model(r@) == names_model(v@),
{
    let mut r: Vec<String> = Vec::new();
    let mut i: usize = 0;
    while i < v.len()
        invariant
            i <= v@.len(),
            r@ == v@.take(i as int),
        decreases v.len() - i,
    {
        r.push(v[i].clone());
        i = i + 1;
        assert(r@ =~= v@.take(i as int));
    }
    assert(v@.take(v@.len() as int) =~= v@);
    r
}

fn clone_number(n: &Option<SectionNumber>) -> (r: Option<SectionNumber>)
    ensures
        number_model(r) == number_model(*n),
{
    match n {
        Some(s) => {
            let v = s.0.clone();
            assert(v@ == s.0@);
            Some(SectionNumber(v))
        },
        None => None,
    }
}

/// Resolves `items` below the chapters named in `parents`, appending the
/// resulting book items to `out`.
fn load_items(
    items: &Vec<SummaryItem>,
    root: &str,
    store: &ContentStore,
    parents: &Vec<String>,
    out: &mut Vec<BookItem>,
) -> (r: Result<(), LoadError>)
    ensures
        r is Ok <==> resolve_items(items_model(items@), root@, store@, names_model(parents@)) is Ok,
        r is Ok ==> book_items_model(final(out)@) == book_items_model(old(out)@) + resolve_items(
            items_model(items@),
            root@,
            store@,
            names_model(parents@),
        )->Ok_0,
        r matches Err(x) ==> resolve_items(items_model(items@), root@, store@, names_model(parents@))
            == Err::<Seq<BookItemModel>, LoadErrorModel>(x@),
    decreases items,
{
    let ghost s = items_model(items@);
    let ghost ps = names_model(parents@);
    let mut i: usize = 0;
    while i < items.len()
        invariant
            i <= items@.len(),
            s == items_model(items@),
            ps == names_model(parents@),
            resolve_items(s.take(i as int), root@, store@, ps) is Ok,
            book_items_model(out@) == book_items_model(old(out)@) + resolve_items(
                s.take(i as int),
                root@,
                store@,
                ps,
            )->Ok_0,
        decreases items.len() - i,
    {
        assert(s.take(i + 1).drop_last() =~= s.take(i as int));
        assert(s.take(i + 1).last() == item_model(items@[i as int]));
        let item = load_summary_item(&items[i], root, store, clone_names(parents));
        match item {
            Ok(b) => {
                proof {
                    lemma_book_items_push(out@, b);
                }
                out.push(b);
                i = i + 1;
                assert(book_items_model(out@) =~= book_items_model(old(out)@) + resolve_items(
                    s.take(i as int),
                    root@,
                    store@,
                    ps,
                )->Ok_0);
            },
            Err(e) => {
                proof {
                    lemma_resolve_error(s, i + 1, s.len() as int, root@, store@, ps, e@);
                    assert(s.take(s.len() as int) =~= s);
                }
                return Err(e);
            },
        }
    }
    assert(s.take(s.len() as int) =~= s);
    Ok(())
}

/// Resolves one outline item below the chapters named in `parents`.
pub fn load_summary_item(
    item: &SummaryItem,
    root: &str,
    store: &ContentStore,
    parents: Vec<String>,
) -> (r: Result<BookItem, LoadError>)
    ensures
        resolve_item(item_model(*item), root@, store@, names_model(parents@)) == match r {
            Ok(b) => Ok::<BookItemModel, LoadErrorModel>(book_item_model(b)),
            Err(e) => Err(e@),
        },
    decreases item,
{
    match item {
        SummaryItem::Separator => Ok(BookItem::Separator),
        SummaryItem::Link(link) => match load_chapter(link, root, store, parents) {
            Ok(c) => Ok(BookItem::Chapter(c)),
            Err(e) => Err(e),
        },
    }
}

/// Resolves a link: reads its content and resolves its nested items.
pub fn load_chapter(link: &Link, root: &str, store: &ContentStore, parents: Vec<String>) -> (r: Result<
    Chapter,
    LoadError,
>)
    ensures
        resolve_item(item_model(SummaryItem::Link(*link)), root@, store@, names_model(parents@))
            == match r {
            Ok(c) => Ok::<BookItemModel, LoadErrorModel>(book_item_model(BookItem::Chapter(c))),
            Err(e) => Err(e@),
        },
    decreases link,
{
    proof {
        lemma_link_model(*link);
    }
    let full = join(root, link.location.as_str());
    let content = match store.read(&full) {
        Some(c) => c,
        None => return Err(LoadError::ContentNotFound { location: link.location.clone() }),
    };
    let path = match relative_location(root, link.location.as_str()) {
        Some(p) => p,
        None => return Err(LoadError::PathEscape { location: link.location.clone() }),
    };
    let mut sub_parents = clone_names(&parents);
    sub_parents.push(link.name.clone());
    assert(names_model(sub_parents@) =~= names_model(parents@).push(link.name@));
    let mut sub_items: Vec<BookItem> = Vec::new();
    let loaded = load_items(&link.nested_items, root, store, &sub_parents, &mut sub_items);
    match loaded {
        Ok(()) => {},
        Err(e) => return Err(e),
    }
    assert(book_items_model(Seq::<BookItem>::empty()) =~= Seq::<BookItemModel>::empty());
    let c = Chapter {
        name: link.name.clone(),
        content,
        number: clone_number(&link.number),
        sub_items,
        path,
        parent_names: parents,
    };
    proof {
        lemma_chapter_model(c);
    }
    Ok(c)
}

/// The book that an outline resolves to: front matter, numbered chapters and
/// back matter, in that order.
pub open spec fn resolve_book(
    s: crate::summary::SummaryModel,
    root: Seq<char>,
    files: Seq<(Seq<char>, Seq<char>)>,
) -> Result<Seq<BookItemModel>, LoadErrorModel> {
    resolve_items(s.prefix + s.numbered + s.suffix, root, files, Seq::empty())
}

proof fn lemma_resolve_concat(
    a: Seq<ItemModel>,
    b: Seq<ItemModel>,
    root: Seq<char>,
    files: Seq<(Seq<char>, Seq<char>)>,
    parents: Seq<Seq<char>>,
)
    ensures
        resolve_items(a + b, root, files, parents) == match resolve_items(a, root, files, parents) {
            Err(e) => Err(e),
            Ok(x) => match resolve_items(b, root, files, parents) {
                Err(e) => Err(e),
                Ok(y) => Ok::<Seq<BookItemModel>, LoadErrorModel>(x + y),
            },
        },
    decreases b.len(),
{
    if b.len() == 0 {
        assert(a + b =~= a);
        if let Ok(x) = resolve_items(a, root, files, parents) {
            assert(x + Seq::<BookItemModel>::empty() =~= x);
        }
    } else {
        lemma_resolve_concat(a, b.drop_last(), root, files, parents);
        assert((a + b).drop_last() =~= a + b.drop_last());
        assert((a + b).last() == b.last());
        if let Ok(x) = resolve_items(a, root, files, parents) {
            if let Ok(y) = resolve_items(b.drop_last(), root, files, parents) {
                if let Ok(z) = resolve_item(b.last(), root, files, parents) {
                    assert((x + y).push(z) =~= x + y.push(z));
                }
            }
        }
    }
}

/// Resolves an outline against the files of `store`, the links' relative
/// locations being taken below `root`.
pub fn load_book_from_disk(summary: &Summary, root: &str, store: &ContentStore) -> (r: Result<
    Book,
    LoadError,
>)
    ensures
        resolve_book(summary@, root@, store@) == match r {
            Ok(b) => Ok::<Seq<BookItemModel>, LoadErrorModel>(b@),
            Err(e) => Err(e@),
        },
{
    let parents: Vec<String> = Vec::new();
    let mut sections: Vec<BookItem> = Vec::new();
    let ghost files = store@;
    let ghost ps = names_model(parents@);
    assert(ps =~= Seq::<Seq<char>>::empty());
    assert(book_items_model(sections@) =~= Seq::<BookItemModel>::empty());
    proof {
        lemma_resolve_concat(summary@.prefix, summary@.numbered, root@, files, ps);
        lemma_resolve_concat(summary@.prefix + summary@.numbered, summary@.suffix, root@, files, ps);
    }
    let r1 = load_items(&summary.prefix_chapters, root, store, &parents, &mut sections);
    if let Err(e) = r1 {
        return Err(e);
    }
    let r2 = load_items(&summary.numbered_chapters, root, store, &parents, &mut sections);
    if let Err(e) = r2 {
        return Err(e);
    }
    let r3 = load_items(&summary.suffix_chapters, root, store, &parents, &mut sections);
    if let Err(e) = r3 {
        return Err(e);
    }
    Ok(Book { sections })
}

/// The items of `items` and, below each chapter, of its sub-items, each
/// parent before its children, in declaration order.
pub open spec fn preorder(items: Seq<BookItemModel>) -> Seq<BookItemModel>
    decreases items,
{
    if items.len() == 0 {
        Seq::empty()
    } else {
        preorder(items.drop_last()) + preorder_item(items.last())
    }
}

pub open spec fn preorder_item(item: BookItemModel) -> Seq<BookItemModel>
    decreases item,
{
    match item {
        BookItemModel::Chapter { sub_items, .. } => seq![item] + preorder(sub_items),
        BookItemModel::VirtualChapter { sub_items, .. } => seq![item] + preorder(sub_items),
        BookItemModel::Separator => seq![item],
    }
}

pub proof fn lemma_preorder_concat(a: Seq<BookItemModel>, b: Seq<BookItemModel>)
    ensures
        preorder(a + b) == preorder(a) + preorder(b),
    decreases b.len(),
{
    if b.len() == 0 {
        assert(a + b =~= a);
        assert(preorder(a) + preorder(b) =~= preorder(a));
    } else {
        lemma_preorder_concat(a, b.drop_last());
        assert((a + b).drop_last() =~= a + b.drop_last());
        assert(preorder(a + b) =~= preorder(a) + preorder(b));
    }
}

proof fn lemma_preorder_single(x: BookItemModel)
    ensures
        preorder(seq![x]) == preorder_item(x),
{
    assert(seq![x].drop_last() =~= Seq::<BookItemModel>::empty());
    assert(seq![x].last() == x);
    assert(preorder(Seq::<BookItemModel>::empty()) =~= Seq::<BookItemModel>::empty());
    assert(preorder(seq![x]) =~= preorder_item(x));
}

pub open spec fn refs_model(s: Seq<&BookItem>) -> Seq<BookItemModel> {
    Seq::new(s.len(), |k: int| book_item_model(*s[k]))
}

/// Pushes `items` on `stack` last first, so that they come off it in order.
fn push_reversed<'a>(stack: &mut Vec<&'a BookItem>, items: &'a Vec<BookItem>)
    ensures
        refs_model(final(stack)@).reverse() == book_items_model(items@) + refs_model(
            old(stack)@,
        ).reverse(),
{
    let ghost base = stack@;
    let n = items.len();
    let mut j: usize = n;
    while j > 0
        invariant
            j <= n == items@.len(),
            stack@.len() == base.len() + (n - j),
            forall|k: int| 0 <= k < base.len() ==> stack@[k] == base[k],
            forall|k: int|
                base.len() <= k < stack@.len() ==> *#[trigger] stack@[k] == items@[n - 1 - (k
                    - base.len())],
            base == old(stack)@,
        decreases j,
    {
        j = j - 1;
        stack.push(&items[j]);
    }
    assert(refs_model(stack@).reverse() =~= book_items_model(items@) + refs_model(base).reverse());
}

/// One step of the walk: the head of the pending items is taken off.
proof fn lemma_walk_step(x: BookItemModel, rest: Seq<BookItemModel>)
    ensures
        preorder(seq![x] + rest) == preorder_item(x) + preorder(rest),
{
    lemma_preorder_concat(seq![x], rest);
    lemma_preorder_single(x);
}

impl Book {
    /// Every item of the book, depth first: each chapter or virtual chapter
    /// before its sub-items, in declaration order.
    pub fn iter(&self) -> (r: Vec<&BookItem>)
        ensures
            refs_model(r@) == preorder(self@),
    {
        let mut out: Vec<&BookItem> = Vec::new();
        let mut stack: Vec<&BookItem> = Vec::new();
        push_reversed(&mut stack, &self.sections);
        assert(refs_model(stack@).reverse() =~= self@);
        assert(refs_model(out@) + preorder(self@) =~= preorder(self@));
        while stack.len() > 0
            invariant
                refs_model(out@) + preorder(refs_model(stack@).reverse()) == preorder(self@),
            decreases preorder(refs_model(stack@).reverse()).len(),
        {
            let ghost before = refs_model(stack@);
            let ghost out0 = refs_model(out@);
            let item = stack.pop().unwrap();
            let ghost x = book_item_model(*item);
            let ghost rest = refs_model(stack@);
            assert(before.reverse() =~= seq![x] + rest.reverse());
            proof {
                lemma_walk_step(x, rest.reverse());
            }
            out.push(item);
            assert(refs_model(out@) =~= out0.push(x));
            match item {
                BookItem::Chapter(ch) => {
                    proof {
                        lemma_chapter_model(*ch);
                    }
                    push_reversed(&mut stack, &ch.sub_items);
                    proof {
                        lemma_preorder_concat(book_items_model(ch.sub_items@), rest.reverse());
                    }
                    assert(preorder_item(x) =~= seq![x] + preorder(book_items_model(ch.sub_items@)));
                },
                BookItem::VirtualChapter(ch) => {
                    proof {
                        lemma_virtual_chapter_model(*ch);
                    }
                    push_reversed(&mut stack, &ch.sub_items);
                    proof {
                        lemma_preorder_concat(book_items_model(ch.sub_items@), rest.reverse());
                    }
                    assert(preorder_item(x) =~= seq![x] + preorder(book_items_model(ch.sub_items@)));
                },
                BookItem::Separator => {
                    assert(preorder_item(x) =~= seq![x]);
                },
            }
            assert(refs_model(out@) + preorder(refs_model(stack@).reverse()) =~= preorder(self@));
        }
        assert(refs_model(stack@).reverse() =~= Seq::<BookItemModel>::empty());
        assert(refs_model(out@) =~= preorder(self@));
        out
    }
}

/// `after` holds, item by item, what walking `before` with a callback of
/// type `F` leaves. Each item of `after` is what one call of the callback
/// returned for the matching item of `before` once that item's sub-items, if
/// any, had been walked in the same way: the call received the item with only
/// its sub-items replaced by their walked forms.
pub open spec fn walked<F: FnMut(BookItem) -> BookItem>(
    before: Seq<BookItem>,
    after: Seq<BookItem>,
) -> bool
    decreases before,
{
    if before.len() == 0 {
        after.len() == 0
    } else {
        &&& after.len() == before.len()
        &&& walked::<F>(before.drop_last(), after.drop_last())
        &&& exists|f: F, mid: BookItem|
            #[trigger] call_ensures(f, (mid,), after.last()) && match before.last() {
                BookItem::Chapter(c) => {
                    &&& mid is Chapter
                    &&& walked::<F>(c.sub_items@, mid->Chapter_0.sub_items@)
                    &&& mid->Chapter_0 == Chapter { sub_items: mid->Chapter_0.sub_items, ..c }
                },
                BookItem::VirtualChapter(c) => {
                    &&& mid is VirtualChapter
                    &&& walked::<F>(c.sub_items@, mid->VirtualChapter_0.sub_items@)
                    &&& mid->VirtualChapter_0 == VirtualChapter {
                        sub_items: mid->VirtualChapter_0.sub_items,
                        ..c
                    }
                },
                BookItem::Separator => mid == before.last(),
            }
    }
}

/// `after` is what one call of a callback of type `F` returned for `before`
/// once the sub-items of `before` had been walked (the items of `walked`).
pub open spec fn walked_once<F: FnMut(BookItem) -> BookItem>(before: BookItem, after: BookItem) -> bool {
    exists|f: F, mid: BookItem|
        #[trigger] call_ensures(f, (mid,), after) && match before {
            BookItem::Chapter(c) => {
                &&& mid is Chapter
                &&& walked::<F>(c.sub_items@, mid->Chapter_0.sub_items@)
                &&& mid->Chapter_0 == Chapter { sub_items: mid->Chapter_0.sub_items, ..c }
            },
            BookItem::VirtualChapter(c) => {
                &&& mid is VirtualChapter
                &&& walked::<F>(c.sub_items@, mid->VirtualChapter_0.sub_items@)
                &&& mid->VirtualChapter_0 == VirtualChapter {
                    sub_items: mid->VirtualChapter_0.sub_items,
                    ..c
                }
            },
            BookItem::Separator => mid == before,
        }
}

proof fn lemma_walked_push<F: FnMut(BookItem) -> BookItem>(
    a: Seq<BookItem>,
    b: Seq<BookItem>,
    x: BookItem,
    y: BookItem,
)
    requires
        walked::<F>(a, b),
        walked_once::<F>(x, y),
    ensures
        walked::<F>(a.push(x), b.push(y)),
{
    assert(a.push(x).drop_last() =~= a);
    assert(b.push(y).drop_last() =~= b);
    assert(a.push(x).last() == x);
    assert(b.push(y).last() == y);
}

proof fn lemma_walked_empty<F: FnMut(BookItem) -> BookItem>()
    ensures
        walked::<F>(Seq::empty(), Seq::empty()),
{
}

/// Replaces every item of `items` and of their sub-items, at every depth, by
/// what one call of `func` returns for it; an item's sub-items are walked
/// before the item itself is handed to `func`.
pub fn for_each_mut<F: FnMut(BookItem) -> BookItem>(func: &mut F, items: &mut Vec<BookItem>)
    requires
        forall|f: F, x: BookItem| call_requires(f, (x,)),
    ensures
        walked::<F>(old(items)@, final(items)@),
    decreases *old(items),
{
    let n = items.len();
    let mut i: usize = 0;
    proof {
        lemma_walked_empty::<F>();
        assert(old(items)@.take(0) =~= Seq::<BookItem>::empty());
        assert(items@.take(0) =~= Seq::<BookItem>::empty());
    }
    while i < n
        invariant
            items@.len() == n,
            i <= n,
            n == old(items)@.len(),
            forall|k: int| i <= k < n ==> items@[k] == old(items)@[k],
            walked::<F>(old(items)@.take(i as int), items@.take(i as int)),
            forall|f: F, x: BookItem| call_requires(f, (x,)),
        decreases n - i,
    {
        let ghost before = items@[i as int];
        let ghost done = items@.take(i as int);
        let mut item = BookItem::Separator;
        std::mem::swap(&mut items[i], &mut item);
        assert(item == before);
        assert(decreases_to!(*old(items) => old(items)@[i as int]));
        let mid = match item {
            BookItem::Chapter(mut c) => {
                for_each_mut(func, &mut c.sub_items);
                BookItem::Chapter(c)
            },
            BookItem::VirtualChapter(mut c) => {
                for_each_mut(func, &mut c.sub_items);
                BookItem::VirtualChapter(c)
            },
            BookItem::Separator => BookItem::Separator,
        };
        let ghost f0 = *func;
        let new = func(mid);
        assert(call_ensures(f0, (mid,), new));
        items.set(i, new);
        assert(walked_once::<F>(before, new));
        proof {
            lemma_walked_push::<F>(old(items)@.take(i as int), done, before, new);
            assert(old(items)@.take(i + 1) =~= old(items)@.take(i as int).push(before));
            assert(items@.take(i + 1) =~= done.push(new));
        }
        i = i + 1;
    }
    assert(old(items)@.take(n as int) =~= old(items)@);
    assert(items@.take(n as int) =~= items@);
}

impl Book {
    /// Replaces every item of the book by what `func` returns for it (see
    /// `for_each_mut`).
    pub fn for_each_mut<F: FnMut(BookItem) -> BookItem>(&mut self, mut func: F)
        requires
            forall|f: F, x: BookItem| call_requires(f, (x,)),
        ensures
            walked::<F>(old(self).sections@, final(self).sections@),
    {
        for_each_mut(&mut func, &mut self.sections);
    }
}

/// The text given to a chapter file that was missing: a heading with the
/// chapter's name.
pub open spec fn stub_of(name: Seq<char>) -> Seq<char> {
    seq!['#', ' '] + name + seq!['\n']
}

/// The files after creating, for `item` and each link nested in it, a stub
/// where its location has none, parent before children.
pub open spec fn materialize_item(
    item: ItemModel,
    root: Seq<char>,
    files: Seq<(Seq<char>, Seq<char>)>,
) -> Seq<(Seq<char>, Seq<char>)>
    decreases item,
{
    match item {
        ItemModel::Separator => files,
        ItemModel::Link { name, location, number: _, nested } => {
            let full = join_path(root, location);
            let f1 = if lookup(files, full) is None {
                files.push((full, stub_of(name)))
            } else {
                files
            };
            materialize_items(nested, root, f1)
        },
    }
}

pub open spec fn materialize_items(
    items: Seq<ItemModel>,
    root: Seq<char>,
    files: Seq<(Seq<char>, Seq<char>)>,
) -> Seq<(Seq<char>, Seq<char>)>
    decreases items,
{
    if items.len() == 0 {
        files
    } else {
        materialize_item(items.last(), root, materialize_items(items.drop_last(), root, files))
    }
}

pub open spec fn materialize_book(
    s: crate::summary::SummaryModel,
    root: Seq<char>,
    files: Seq<(Seq<char>, Seq<char>)>,
) -> Seq<(Seq<char>, Seq<char>)> {
    materialize_items(s.prefix + s.numbered + s.suffix, root, files)
}

pub open spec fn pairs_model(v: Seq<(String, String)>) -> Seq<(Seq<char>, Seq<char>)> {
    v.map_values(|f: (String, String)| (f.0@, f.1@))
}

fn stub(name: &String) -> (r: String)
    ensures
        r@ == stub_of(name@),
{
    let mut r = String::from_str("# ");
    proof {
        reveal_strlit("# ");
        reveal_strlit("\n");
    }
    r.append(name.as_str());
    r.append("\n");
    assert(r@ =~= stub_of(name@));
    r
}

fn create_missing_item(item: &SummaryItem, root: &str, store: &mut ContentStore)
    ensures
        final(store)@ == materialize_item(item_model(*item), root@, old(store)@),
    decreases item,
{
    match item {
        SummaryItem::Separator => {},
        SummaryItem::Link(link) => {
            proof {
                lemma_link_model(*link);
            }
            let full = join(root, link.location.as_str());
            if store.read(&full).is_none() {
                store.insert(full, stub(&link.name));
            }
            create_missing_items(&link.nested_items, root, store);
        },
    }
}

fn create_missing_items(items: &Vec<SummaryItem>, root: &str, store: &mut ContentStore)
    ensures
        final(store)@ == materialize_items(items_model(items@), root@, old(store)@),
    decreases items,
{
    let ghost s = items_model(items@);
    let mut i: usize = 0;
    while i < items.len()
        invariant
            i <= items@.len(),
            s == items_model(items@),
            store@ == materialize_items(s.take(i as int), root@, old(store)@),
        decreases items.len() - i,
    {
        assert(s.take(i + 1).drop_last() =~= s.take(i as int));
        assert(s.take(i + 1).last() == item_model(items@[i as int]));
        create_missing_item(&items[i], root, store);
        i = i + 1;
    }
    assert(s.take(s.len() as int) =~= s);
}

pub proof fn lemma_materialize_item_extends(
    item: ItemModel,
    root: Seq<char>,
    files: Seq<(Seq<char>, Seq<char>)>,
)
    ensures
        materialize_item(item, root, files).len() >= files.len(),
        materialize_item(item, root, files).take(files.len() as int) == files,
    decreases item,
{
    match item {
        ItemModel::Separator => {
            assert(files.take(files.len() as int) =~= files);
        },
        ItemModel::Link { name, location, number: _, nested } => {
            let full = join_path(root, location);
            let f1 = if lookup(files, full) is None {
                files.push((full, stub_of(name)))
            } else {
                files
            };
            lemma_materialize_items_extends(nested, root, f1);
            assert(f1.take(files.len() as int) =~= files);
            assert(materialize_items(nested, root, f1).take(files.len() as int) =~= materialize_items(
                nested,
                root,
                f1,
            ).take(f1.len() as int).take(files.len() as int));
        },
    }
}

pub proof fn lemma_materialize_items_extends(
    items: Seq<ItemModel>,
    root: Seq<char>,
    files: Seq<(Seq<char>, Seq<char>)>,
)
    ensures
        materialize_items(items, root, files).len() >= files.len(),
        materialize_items(items, root, files).take(files.len() as int) == files,
    decreases items,
{
    if items.len() == 0 {
        assert(files.take(files.len() as int) =~= files);
    } else {
        let g = materialize_items(items.drop_last(), root, files);
        lemma_materialize_items_extends(items.drop_last(), root, files);
        lemma_materialize_item_extends(items.last(), root, g);
        assert(materialize_item(items.last(), root, g).take(files.len() as int) =~= materialize_item(
            items.last(),
            root,
            g,
        ).take(g.len() as int).take(files.len() as int));
    }
}

impl ContentStore {
    /// Copies of the files from index `from` on.
    pub fn files_from(&self, from: usize) -> (r: Vec<(String, String)>)
        requires
            from <= self@.len(),
        ensures
            pairs_model(r@) == self@.skip(from as int),
    {
        let mut r: Vec<(String, String)> = Vec::new();
        let mut i = from;
        while i < self.files.len()
            invariant
                from <= i <= self.files@.len(),
                pairs_model(r@) == self@.subrange(from as int, i as int),
            decreases self.files.len() - i,
        {
            let f = &self.files[i];
            let a = f.0.clone();
            let b = f.1.clone();
            assert(self@[i as int] == (a@, b@));
            let ghost r0 = r@;
            r.push((a, b));
            assert(pairs_model(r@) =~= pairs_model(r0).push(self@[i as int]));
            assert(self@.subrange(from as int, i + 1) =~= self@.subrange(from as int, i as int).push(self@[i as int]));
            i = i + 1;
        }
        assert(self@.subrange(from as int, self@.len() as int) =~= self@.skip(from as int));
        r
    }
}

/// Creates in `store` a stub for every link of the outline whose location
/// has no file yet, and returns the files created, in the order of creation.
pub fn create_missing(summary: &Summary, root: &str, store: &mut ContentStore) -> (created: Vec<
    (String, String),
>)
    ensures
        final(store)@ == materialize_book(summary@, root@, old(store)@),
        final(store)@ == old(store)@ + pairs_model(created@),
{
    let start = store.files.len();
    let ghost s0 = store@;
    let ghost p = summary@.prefix;
    let ghost n = summary@.numbered;
    let ghost x = summary@.suffix;
    proof {
        lemma_materialize_concat(p, n, root@, s0);
        lemma_materialize_concat(p + n, x, root@, s0);
    }
    create_missing_items(&summary.prefix_chapters, root, store);
    create_missing_items(&summary.numbered_chapters, root, store);
    create_missing_items(&summary.suffix_chapters, root, store);
    proof {
        lemma_materialize_items_extends(p + n + x, root@, s0);
    }
    let created = store.files_from(start);
    assert(store@ =~= s0 + pairs_model(created@));
    created
}

proof fn lemma_materialize_concat(
    a: Seq<ItemModel>,
    b: Seq<ItemModel>,
    root: Seq<char>,
    files: Seq<(Seq<char>, Seq<char>)>,
)
    ensures
        materialize_items(a + b, root, files) == materialize_items(
            b,
            root,
            materialize_items(a, root, files),
        ),
    decreases b.len(),
{
    if b.len() == 0 {
        assert(a + b =~= a);
    } else {
        lemma_materialize_concat(a, b.drop_last(), root, files);
        assert((a + b).drop_last() =~= a + b.drop_last());
        assert((a + b).last() == b.last());
    }
}

/// The full locations of the links of `item` and of those nested in it,
/// each before its children.
pub open spec fn link_files_item(item: ItemModel, root: Seq<char>) -> Seq<Seq<char>>
    decreases item,
{
    match item {
        ItemModel::Separator => Seq::empty(),
        ItemModel::Link { location, nested, .. } => seq![join_path(root, location)] + link_files(
            nested,
            root,
        ),
    }
}

pub open spec fn link_files(items: Seq<ItemModel>, root: Seq<char>) -> Seq<Seq<char>>
    decreases items,
{
    if items.len() == 0 {
        Seq::empty()
    } else {
        link_files(items.drop_last(), root) + link_files_item(items.last(), root)
    }
}

fn collect_files_item(item: &SummaryItem, root: &str, out: &mut Vec<String>)
    ensures
        names_model(final(out)@) == names_model(old(out)@) + link_files_item(item_model(*item), root@),
    decreases item,
{
    match item {
        SummaryItem::Separator => {
            assert(names_model(out@) + Seq::<Seq<char>>::empty() =~= names_model(out@));
        },
        SummaryItem::Link(link) => {
            proof {
                lemma_link_model(*link);
            }
            let full = join(root, link.location.as_str());
            let ghost f = full@;
            out.push(full);
            assert(names_model(out@) =~= names_model(old(out)@).push(f));
            collect_files(&link.nested_items, root, out);
            assert(names_model(out@) =~= names_model(old(out)@) + link_files_item(item_model(*item), root@));
        },
    }
}

fn collect_files(items: &Vec<SummaryItem>, root: &str, out: &mut Vec<String>)
    ensures
        names_model(final(out)@) == names_model(old(out)@) + link_files(items_model(items@), root@),
    decreases items,
{
    let ghost s = items_model(items@);
    let mut i: usize = 0;
    assert(names_model(out@) + Seq::<Seq<char>>::empty() =~= names_model(out@));
    while i < items.len()
        invariant
            i <= items@.len(),
            s == items_model(items@),
            names_model(out@) == names_model(old(out)@) + link_files(s.take(i as int), root@),
        decreases items.len() - i,
    {
        assert(s.take(i + 1).drop_last() =~= s.take(i as int));
        assert(s.take(i + 1).last() == item_model(items@[i as int]));
        collect_files_item(&items[i], root, out);
        i = i + 1;
        assert(names_model(out@) =~= names_model(old(out)@) + link_files(s.take(i as int), root@));
    }
    assert(s.take(s.len() as int) =~= s);
}

proof fn lemma_link_files_concat(a: Seq<ItemModel>, b: Seq<ItemModel>, root: Seq<char>)
    ensures
        link_files(a + b, root) == link_files(a, root) + link_files(b, root),
    decreases b.len(),
{
    if b.len() == 0 {
        assert(a + b =~= a);
        assert(link_files(a, root) + link_files(b, root) =~= link_files(a, root));
    } else {
        lemma_link_files_concat(a, b.drop_last(), root);
        assert((a + b).drop_last() =~= a + b.drop_last());
        assert((a + b).last() == b.last());
        assert(link_files(a + b, root) =~= link_files(a, root) + link_files(b, root));
    }
}

/// The full locations of every link of the outline, in reading order: the
/// files that resolving it reads.
pub fn chapter_files(summary: &Summary, root: &str) -> (r: Vec<String>)
    ensures
        names_model(r@) == link_files(summary@.prefix + summary@.numbered + summary@.suffix, root@),
{
    let mut out: Vec<String> = Vec::new();
    assert(names_model(out@) =~= Seq::<Seq<char>>::empty());
    collect_files(&summary.prefix_chapters, root, &mut out);
    collect_files(&summary.numbered_chapters, root, &mut out);
    collect_files(&summary.suffix_chapters, root, &mut out);
    proof {
        lemma_link_files_concat(summary@.prefix, summary@.numbered, root@);
        lemma_link_files_concat(summary@.prefix + summary@.numbered, summary@.suffix, root@);
    }
    assert(names_model(out@) =~= link_files(summary@.prefix + summary@.numbered + summary@.suffix, root@));
    out
}

impl Book {
    /// An empty book.
    pub fn new() -> (r: Book)
        ensures
            r@ == Seq::<BookItemModel>::empty(),
    {
        let r = Book { sections: Vec::new() };
        assert(r@ =~= Seq::<BookItemModel>::empty());
        r
    }

    /// Appends an item at the end of the book.
    pub fn push_item(&mut self, item: BookItem)
        ensures
            final(self)@ == old(self)@.push(book_item_model(item)),
    {
        proof {
            lemma_book_items_push(self.sections@, item);
        }
        self.sections.push(item);
    }
}

impl Chapter {
    /// A chapter with no number and no sub-items.
    pub fn new(name: &str, content: String, path: &str, parent_names: Vec<String>) -> (r: Chapter)
        ensures
            book_item_model(BookItem::Chapter(r)) == (BookItemModel::Chapter {
                name: name@,
                content: content@,
                number: None,
                sub_items: Seq::empty(),
                path: path@,
                parent_names: names_model(parent_names@),
            }),
    {
        let c = Chapter {
            name: String::from_str(name),
            content,
            number: None,
            sub_items: Vec::new(),
            path: String::from_str(path),
            parent_names,
        };
        proof {
            lemma_chapter_model(c);
        }
        assert(book_items_model(c.sub_items@) =~= Seq::<BookItemModel>::empty());
        c
    }
}

impl Chapter {
    /// The chapter's heading: its section number and a space, if it has
    /// one, then its name.
    pub fn display(&self) -> (r: String)
        ensures
            r@ == match number_model(self.number) {
                Some(n) => dotted(n) + seq![' '] + self.name@,
                None => self.name@,
            },
    {
        match &self.number {
            Some(n) => {
                let mut r = n.render();
                proof {
                    reveal_strlit(" ");
                }
                r.append(" ");
                r.append(self.name.as_str());
                r
            },
            None => self.name.clone(),
        }
    }
}

impl VirtualChapter {
    /// A virtual chapter with no number and no sub-items.
    pub fn new(name: &str, content: String) -> (r: VirtualChapter)
        ensures
            r.name@ == name@,
            r.content@ == content@,
            r.number is None,
            r.sub_items@.len() == 0,
    {
        VirtualChapter {
            name: String::from_str(name),
            content,
            number: None,
            sub_items: Vec::new(),
        }
    }
}

impl From<Chapter> for BookItem {
    fn from(other: Chapter) -> (r: BookItem) {
        BookItem::Chapter(other)
    }
}

impl vstd::std_specs::convert::FromSpecImpl<Chapter> for BookItem {
    open spec fn obeys_from_spec() -> bool {
        true
    }

    open spec fn from_spec(v: Chapter) -> BookItem {
        BookItem::Chapter(v)
    }
}

impl From<VirtualChapter> for BookItem {
    fn from(other: VirtualChapter) -> (r: BookItem) {
        BookItem::VirtualChapter(other)
    }
}

impl vstd::std_specs::convert::FromSpecImpl<VirtualChapter> for BookItem {
    open spec fn obeys_from_spec() -> bool {
        true
    }

    open spec fn from_spec(v: VirtualChapter) -> BookItem {
        BookItem::VirtualChapter(v)
    }
}

} // verus!
