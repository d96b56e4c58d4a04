//! Tags and categories: the pages of a site by what they have in common.

use vstd::prelude::*;

use crate::content::{Page, PageModel};
use crate::order::{arranged, order_sorts, sorted_positions};
use crate::path::{paths, FilePath};
use crate::text::same_text;

verus! {

/// The two ways of grouping pages.
#[derive(Clone, Copy, Debug, PartialEq, Eq, Structural)]
pub enum RenderList {
    Tags,
    Categories,
}

/// A tag or category
#[derive(Debug, PartialEq)]
pub struct ListItem {
    pub name: String,
    pub slug: String,
    pub count: usize,
}

/// One tag or category with the files of its pages.
#[derive(Debug)]
pub struct Term {
    pub name: String,
    pub pages: Vec<FilePath>,
}

/// All the tags, or all the categories, of a site. No name occurs twice.
#[derive(Debug)]
pub struct Taxonomy {
    pub terms: Vec<Term>,
}

pub ghost struct ListItemModel {
    pub name: Seq<char>,
    pub slug: Seq<char>,
    pub count: int,
}

#[verifier::ext_equal]
pub ghost struct TermModel {
    pub name: Seq<char>,
    pub pages: Seq<Seq<Seq<char>>>,
}

impl View for ListItem {
    type V = ListItemModel;

    open spec fn view(&self) -> ListItemModel {
        ListItemModel { name: self.name@, slug: self.slug@, count: self.count as int }
    }
}

impl View for Term {
    type V = TermModel;

    open spec fn view(&self) -> TermModel {
        TermModel { name: self.name@, pages: paths(self.pages@) }
    }
}

impl View for Taxonomy {
    type V = Seq<TermModel>;

    open spec fn view(&self) -> Seq<TermModel> {
        self.terms@.map_values(|t: Term| t@)
    }
}

/// The items of a sequence.
pub open spec fn item_models(items: Seq<ListItem>) -> Seq<ListItemModel> {
    items.map_values(|i: ListItem| i@)
}

/// Whether a character may stand in a slug.
pub open spec fn is_slug_char(c: char) -> bool {
    'a' <= c <= 'z' || '0' <= c <= '9' || c == '-'
}

/// Whether a text is made of letters from `a` to `z`, digits, and dashes that stand alone between
/// them.
pub open spec fn is_slug(s: Seq<char>) -> bool {
    &&& forall|i: int| 0 <= i < s.len() ==> is_slug_char(#[trigger] s[i])
    &&& forall|i: int, j: int|
        0 <= i < s.len() && j == i + 1 && j < s.len() && #[trigger] s[i] == '-' ==> #[trigger] s[j]
            != '-'
    &&& s.len() > 0 ==> s[0] != '-' && s.last() != '-'
}

/// The slug that `slug::slugify` makes of a text.
pub uninterp spec fn slug_of(text: Seq<char>) -> Seq<char>;

/// `slug::slugify`: the slug depends on the text alone, and holds only letters from `a` to `z`,
/// digits, and single dashes between them.
#[verifier::external_body]
pub(crate) fn slugify(text: &str) -> (slug: String)
    ensures
        slug@ == slug_of(text@),
        is_slug(slug@),
{
    slug::slugify(text)
}

/// Whether `name` is among the terms.
pub open spec fn is_listed(terms: Seq<TermModel>, name: Seq<char>) -> bool {
    exists|i: int| 0 <= i < terms.len() && #[trigger] terms[i].name == name
}

/// Whether no two terms have the same name.
pub open spec fn distinct_names(terms: Seq<TermModel>) -> bool {
    forall|i: int, j: int|
        0 <= i < j < terms.len() ==> #[trigger] terms[i].name != #[trigger] terms[j].name
}

/// A term with one more page.
pub open spec fn with_page(term: TermModel, page: Seq<Seq<char>>) -> TermModel {
    TermModel { name: term.name, pages: term.pages.push(page) }
}

/// The terms after a page is filed under `name`: the page comes last there; a name that was not
/// listed is listed last.
pub open spec fn filed(
    terms: Seq<TermModel>,
    name: Seq<char>,
    page: Seq<Seq<char>>,
) -> Seq<TermModel> {
    if is_listed(terms, name) {
        terms.map_values(|t: TermModel| if t.name == name { with_page(t, page) } else { t })
    } else {
        terms.push(TermModel { name, pages: seq![page] })
    }
}

/// The terms after a page is filed under each of `names`.
pub open spec fn filed_under_all(
    terms: Seq<TermModel>,
    names: Seq<Seq<char>>,
    page: Seq<Seq<char>>,
) -> Seq<TermModel>
    decreases names.len(),
{
    if names.len() == 0 {
        terms
    } else {
        filed(filed_under_all(terms, names.drop_last(), page), names.last(), page)
    }
}

/// The terms after each of `pages` is filed under its category.
pub open spec fn categorized(terms: Seq<TermModel>, pages: Seq<PageModel>) -> Seq<TermModel>
    decreases pages.len(),
{
    if pages.len() == 0 {
        terms
    } else {
        let before = categorized(terms, pages.drop_last());
        match pages.last().category {
            Some(name) => filed(before, name, pages.last().file_path),
            None => before,
        }
    }
}

/// The terms after each of `pages` is filed under all its tags.
pub open spec fn tagged(terms: Seq<TermModel>, pages: Seq<PageModel>) -> Seq<TermModel>
    decreases pages.len(),
{
    if pages.len() == 0 {
        terms
    } else {
        let before = tagged(terms, pages.drop_last());
        match pages.last().tags {
            Some(names) => filed_under_all(before, names, pages.last().file_path),
            None => before,
        }
    }
}

/// The item that lists a term.
pub open spec fn item_of(term: TermModel) -> ListItemModel {
    ListItemModel { name: term.name, slug: slug_of(term.name), count: term.pages.len() as int }
}

/// The items that list the terms: those with the most pages first.
pub open spec fn sorted_items(terms: Seq<TermModel>) -> Seq<ListItemModel> {
    arranged(
        terms.map_values(|t: TermModel| item_of(t)),
        terms.map_values(|t: TermModel| -(t.pages.len() as int)),
    )
}

impl ListItem {
    pub fn new(name: &str, count: usize) -> (item: ListItem)
        ensures
            item.name@ == name@,
            item.slug@ == slug_of(name@),
            is_slug(item.slug@),
            item.count == count,
    {
        ListItem { name: name.to_owned(), slug: slugify(name), count }
    }
}

impl Taxonomy {
    /// Whether no name occurs twice.
    pub open spec fn well_formed(&self) -> bool {
        distinct_names(self@)
    }

    /// No terms.
    pub fn new() -> (taxonomy: Taxonomy)
        ensures
            taxonomy@ == Seq::<TermModel>::empty(),
            taxonomy.well_formed(),
    {
        let taxonomy = Taxonomy { terms: Vec::new() };
        assert(taxonomy@ == Seq::<TermModel>::empty());
        taxonomy
    }

    /// Where a name is listed.
    fn find(&self, name: &str) -> (found: Option<usize>)
        ensures
            found is Some <==> is_listed(self@, name@),
            found matches Some(i) ==> i < self@.len() && self@[i as int].name == name@,
    {
        for i in 0..self.terms.len()
            invariant
                forall|j: int| 0 <= j < i ==> #[trigger] self@[j].name != name@,
        {
            assert(self@[i as int] == self.terms@[i as int]@);
            if same_text(&self.terms[i].name, name) {
                assert(self@[i as int].name == name@);
                return Some(i);
            }
        }
        None
    }

    /// Files a page under a name.
    pub fn file(&mut self, name: &str, page: &FilePath)
        requires
            old(self).well_formed(),
        ensures
            final(self)@ == filed(old(self)@, name@, page@),
            final(self).well_formed(),
    {
        let ghost before = self@;
        let ghost held = self.terms@;
        match self.find(name) {
            Some(i) => {
                let ghost term = self.terms@[i as int];
                self.terms[i].pages.push(page.clone());
                proof {
                    let now = self.terms@[i as int];
                    assert(paths(now.pages@) == paths(term.pages@).push(page@));
                    assert forall|j: int| 0 <= j < before.len() implies self@[j] == filed(
                        before,
                        name@,
                        page@,
                    )[j] by {
                        if j == i {
                            assert(self@[j] == now@);
                        } else {
                            assert(before[j].name != name@);
                            assert(self.terms@[j] == held[j]);
                        }
                    }
                    assert(self@ == filed(before, name@, page@));
                }
            },
            None => {
                let mut pages: Vec<FilePath> = Vec::new();
                pages.push(page.clone());
                assert(paths(pages@) == seq![page@]);
                let term = Term { name: name.to_owned(), pages };
                let ghost model = term@;
                self.terms.push(term);
                assert(self@ == before.push(model));
            },
        }
    }

    /// The items that list the terms: those with the most pages first.
    pub fn sorted_items(&self) -> (items: Vec<ListItem>)
        ensures
            item_models(items@) == sorted_items(self@),
    {
        let mut keys: Vec<i128> = Vec::new();
        for i in 0..self.terms.len()
            invariant
                keys.len() == i,
                forall|j: int| 0 <= j < i ==> keys@[j] == -(self.terms@[j].pages.len() as int),
        {
            keys.push(-(self.terms[i].pages.len() as i128));
        }
        let positions = sorted_positions(&keys);
        let ghost order_keys = self@.map_values(|t: TermModel| -(t.pages.len() as int));
        proof {
            assert(keys@.map_values(|k: i128| k as int) == order_keys);
            order_sorts(order_keys);
        }
        let ghost sorted = crate::order::order(order_keys);
        let mut items: Vec<ListItem> = Vec::new();
        for i in 0..positions.len()
            invariant
                positions@.map_values(|i: usize| i as int) == sorted,
                sorted == crate::order::order(order_keys),
                order_keys.len() == self.terms.len(),
                sorted.len() == self.terms.len(),
                forall|i: int| 0 <= i < sorted.len() ==> 0 <= #[trigger] sorted[i] < self.terms.len(),
                items.len() == i,
                forall|j: int|
                    0 <= j < i ==> #[trigger] items@[j]@ == item_of(self@[sorted[j]]),
        {
            assert(sorted[i as int] == positions@[i as int] as int);
            let term = &self.terms[positions[i]];
            assert(term@ == self@[sorted[i as int]]);
            items.push(ListItem::new(&term.name, term.pages.len()));
        }
        assert(item_models(items@) == sorted_items(self@));
        items
    }
}

/// Files each of the pages under its category.
pub(crate) fn file_categories(categories: &mut Taxonomy, pages: &Vec<Page>)
    requires
        old(categories).well_formed(),
    ensures
        final(categories)@ == categorized(old(categories)@, crate::content::page_models(pages@)),
        final(categories).well_formed(),
{
    let ghost all = crate::content::page_models(pages@);
    assert(all.take(0) == Seq::<PageModel>::empty());
    for i in 0..pages.len()
        invariant
            all == crate::content::page_models(pages@),
            categories.well_formed(),
            categories@ == categorized(old(categories)@, all.take(i as int)),
    {
        proof {
            assert(all.take(i + 1).drop_last() == all.take(i as int));
            assert(all.take(i + 1).last() == pages@[i as int]@);
        }
        if let Some(category) = &pages[i].meta.category {
            categories.file(category, &pages[i].file_path);
        }
    }
    assert(all.take(pages.len() as int) == all);
}

/// Files each of the pages under all its tags.
pub(crate) fn file_tags(tags: &mut Taxonomy, pages: &Vec<Page>)
    requires
        old(tags).well_formed(),
    ensures
        final(tags)@ == tagged(old(tags)@, crate::content::page_models(pages@)),
        final(tags).well_formed(),
{
    let ghost all = crate::content::page_models(pages@);
    assert(all.take(0) == Seq::<PageModel>::empty());
    for i in 0..pages.len()
        invariant
            all == crate::content::page_models(pages@),
            tags.well_formed(),
            tags@ == tagged(old(tags)@, all.take(i as int)),
    {
        proof {
            assert(all.take(i + 1).drop_last() == all.take(i as int));
            assert(all.take(i + 1).last() == pages@[i as int]@);
        }
        if let Some(names) = &pages[i].meta.tags {
            let ghost before = tags@;
            let ghost page = pages@[i as int].file_path@;
            let ghost texts = crate::text::texts(names@);
            assert(texts.take(0) == Seq::<Seq<char>>::empty());
            for j in 0..names.len()
                invariant
                    texts == crate::text::texts(names@),
                    i < pages.len(),
                    page == pages@[i as int].file_path@,
                    tags.well_formed(),
                    tags@ == filed_under_all(before, texts.take(j as int), page),
            {
                proof {
                    assert(texts.take(j + 1).drop_last() == texts.take(j as int));
                    assert(texts.take(j + 1).last() == names@[j as int]@);
                }
                tags.file(&names[j], &pages[i].file_path);
            }
            assert(texts.take(names.len() as int) == texts);
        }
    }
    assert(all.take(pages.len() as int) == all);
}

} // verus!
