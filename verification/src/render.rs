//! What is rendered for a site: which templates, and what each of them is given.
//!
//! The templates are not run here. They are programs of the site's author: one that includes itself
//! never ends, one that calls `super()` where there is nothing above it makes `tera` panic, and
//! nothing about a request tells whether its template does. What was rendered comes back as a text,
//! or as none, to the functions of `stages`.

use tera::{Context, Value};
use vstd::prelude::*;

use crate::content::{
    page_models, push_page, section_models, Page, PageModel, Section, SectionModel,
};
use crate::path::{paths, FilePath};
use crate::site::{by_rank, sorted_pages, Site, SiteModel};
use crate::taxonomy::{
    item_models, slug_of, slugify, sorted_items, ListItem, ListItemModel, RenderList, Taxonomy,
    Term, TermModel,
};
use crate::template::{
    add_entry, clone_value, context_entries, data_of, datum, fields_of, no_entries, value_of_count,
    value_of_fields, value_of_list, value_of_text, Datum,
};
use crate::text::{chars_of, concat, texts};

verus! {

/// A template to render, with what it is given.
#[derive(Debug)]
pub struct Request {
    pub template: String,
    pub context: Context,
}

#[verifier::ext_equal]
pub ghost struct RequestModel {
    pub template: Seq<char>,
    pub context: Map<Seq<char>, Datum>,
}

impl View for Request {
    type V = RequestModel;

    open spec fn view(&self) -> RequestModel {
        RequestModel { template: self.template@, context: context_entries(&self.context) }
    }
}

/// The requests of a sequence.
pub open spec fn request_models(requests: Seq<Request>) -> Seq<RequestModel> {
    requests.map_values(|r: Request| r@)
}

/// The directory of the pages of a taxonomy in the built site, and the name that its list page has
/// the terms under.
pub open spec fn list_name(kind: RenderList) -> Seq<char> {
    match kind {
        RenderList::Categories => "categories"@,
        RenderList::Tags => "tags"@,
    }
}

/// The template of the list page of a taxonomy.
pub open spec fn list_template(kind: RenderList) -> Seq<char> {
    match kind {
        RenderList::Categories => "categories.html"@,
        RenderList::Tags => "tags.html"@,
    }
}

/// The template of the page of one term.
pub open spec fn term_template(kind: RenderList) -> Seq<char> {
    match kind {
        RenderList::Categories => "category.html"@,
        RenderList::Tags => "tag.html"@,
    }
}

/// The name that the page of one term has the term under.
pub open spec fn term_variable(kind: RenderList) -> Seq<char> {
    match kind {
        RenderList::Categories => "category"@,
        RenderList::Tags => "tag"@,
    }
}

/// The terms of a taxonomy of a site.
pub open spec fn terms_of(site: SiteModel, kind: RenderList) -> Seq<TermModel> {
    match kind {
        RenderList::Categories => site.categories,
        RenderList::Tags => site.tags,
    }
}

/// The path of the page of a term in the built site.
pub open spec fn term_path(kind: RenderList, term: TermModel) -> Seq<char> {
    list_name(kind) + "/"@ + slug_of(term.name)
}

/// The paths of the pages of a taxonomy in the built site: that of the list page, then one for each
/// term. A taxonomy without terms has no pages.
pub open spec fn taxonomy_paths(kind: RenderList, terms: Seq<TermModel>) -> Seq<Seq<char>> {
    if terms.len() == 0 {
        Seq::empty()
    } else {
        seq![list_name(kind)] + terms.map_values(|t: TermModel| term_path(kind, t))
    }
}

/// How many pages a taxonomy has in the built site.
pub open spec fn taxonomy_size(terms: Seq<TermModel>) -> nat {
    if terms.len() == 0 {
        0
    } else {
        terms.len() + 1
    }
}

/// Pages as templates see them.
pub open spec fn page_data(pages: Seq<PageModel>) -> Datum {
    Datum::List(pages.map_values(|p: PageModel| p.data))
}

/// Sections as templates see them.
pub open spec fn section_data(sections: Seq<SectionModel>) -> Datum {
    Datum::List(sections.map_values(|s: SectionModel| s.data))
}

/// Texts as templates see them.
pub open spec fn text_data(list: Seq<Seq<char>>) -> Datum {
    Datum::List(list.map_values(|t: Seq<char>| Datum::Text(t)))
}

/// A tag or category as templates see it.
pub open spec fn item_datum(item: ListItemModel) -> Datum {
    Datum::Record(
        map![
            "name"@ => Datum::Text(item.name),
            "slug"@ => Datum::Text(item.slug),
            "count"@ => Datum::Whole(item.count),
        ],
    )
}

/// Tags or categories as templates see them.
pub open spec fn item_data(items: Seq<ListItemModel>) -> Datum {
    Datum::List(items.map_values(|i: ListItemModel| item_datum(i)))
}

/// The pages of a term, in order.
pub open spec fn pages_of_term(pages: Seq<PageModel>, term: TermModel) -> Seq<PageModel> {
    by_rank(pages.filter(|p: PageModel| term.pages.contains(p.file_path)))
}

/// What the list page of a taxonomy is rendered from.
pub open spec fn list_request(site: SiteModel, kind: RenderList, url: Seq<char>) -> RequestModel {
    RequestModel {
        template: list_template(kind),
        context: no_entries().insert(
            list_name(kind),
            item_data(sorted_items(terms_of(site, kind))),
        ).insert("config"@, site.config.data).insert("current_url"@, Datum::Text(url)).insert(
            "current_path"@,
            Datum::Text("/"@ + list_name(kind)),
        ),
    }
}

/// What the page of a term is rendered from.
pub open spec fn term_request(
    site: SiteModel,
    kind: RenderList,
    term: TermModel,
    url: Seq<char>,
) -> RequestModel {
    RequestModel {
        template: term_template(kind),
        context: no_entries().insert(term_variable(kind), Datum::Text(term.name)).insert(
            term_variable(kind) + "_slug"@,
            Datum::Text(slug_of(term.name)),
        ).insert("pages"@, page_data(pages_of_term(site.pages, term))).insert(
            "config"@,
            site.config.data,
        ).insert("current_url"@, Datum::Text(url)).insert(
            "current_path"@,
            Datum::Text("/"@ + term_path(kind, term)),
        ),
    }
}

/// What the pages of a taxonomy are rendered from, in the order of their paths; `urls` are the
/// permalinks of these paths.
pub open spec fn taxonomy_requests(
    site: SiteModel,
    kind: RenderList,
    urls: Seq<Seq<char>>,
) -> Seq<RequestModel> {
    let terms = terms_of(site, kind);
    if terms.len() == 0 {
        Seq::empty()
    } else {
        seq![list_request(site, kind, urls[0])] + Seq::new(
            terms.len(),
            |i: int| term_request(site, kind, terms[i], urls[i + 1]),
        )
    }
}

/// What the index page is rendered from; `linked` are the pages of the site in order, each with its
/// neighbours.
pub open spec fn index_request(site: SiteModel, linked: Seq<PageModel>) -> RequestModel {
    RequestModel {
        template: "index.html"@,
        context: no_entries().insert("pages"@, page_data(linked)).insert(
            "sections"@,
            section_data(site.sections),
        ).insert("config"@, site.config.data).insert(
            "current_url"@,
            Datum::Text(site.config.base_url),
        ).insert("current_path"@, Datum::Text(""@)),
    }
}

/// The permalinks of a taxonomy that the sitemap lists: all, if the pages are generated, or none.
pub open spec fn sitemap_urls(generated: bool, urls: Seq<Seq<char>>) -> Seq<Seq<char>> {
    if generated {
        urls
    } else {
        Seq::empty()
    }
}

/// What the sitemap is rendered from; `category_urls` and `tag_urls` are the permalinks of the
/// pages of the categories and the tags.
pub open spec fn sitemap_request(
    site: SiteModel,
    category_urls: Seq<Seq<char>>,
    tag_urls: Seq<Seq<char>>,
) -> RequestModel {
    RequestModel {
        template: "sitemap.xml"@,
        context: no_entries().insert("pages"@, page_data(site.pages)).insert(
            "sections"@,
            section_data(site.sections),
        ).insert(
            "categories"@,
            text_data(
                sitemap_urls(site.config.generate_categories_pages == Some(true), category_urls),
            ),
        ).insert(
            "tags"@,
            text_data(sitemap_urls(site.config.generate_tags_pages == Some(true), tag_urls)),
        ),
    }
}

/// How many pages the feed holds at most.
pub const FEED_LIMIT: usize = 15;

/// The pages that have a date.
pub open spec fn dated(pages: Seq<PageModel>) -> Seq<PageModel> {
    pages.filter(|p: PageModel| p.date is Some)
}

/// The first `n` elements, or all if there are fewer.
pub open spec fn at_most<A>(s: Seq<A>, n: int) -> Seq<A> {
    if s.len() <= n {
        s
    } else {
        s.take(n)
    }
}

/// The pages of the feed: of those that have a date, the ones that come first in order.
pub open spec fn feed_pages(pages: Seq<PageModel>) -> Seq<PageModel> {
    at_most(by_rank(dated(pages)), FEED_LIMIT as int)
}

/// The address of the feed.
pub open spec fn feed_url(base_url: Seq<char>) -> Seq<char> {
    if base_url.len() > 0 && base_url.last() == '/' {
        base_url + "feed.xml"@
    } else {
        base_url + "/"@ + "feed.xml"@
    }
}

/// What the feed is rendered from. There is no feed if no page has a date.
pub open spec fn rss_request(site: SiteModel) -> Option<RequestModel> {
    let pages = feed_pages(site.pages);
    if dated(site.pages).len() == 0 {
        None
    } else {
        Some(
            RequestModel {
                template: "rss.xml"@,
                context: no_entries().insert("pages"@, page_data(pages)).insert(
                    "last_build_date"@,
                    Datum::Text(pages[0].date->0),
                ).insert("config"@, site.config.data).insert(
                    "feed_url"@,
                    Datum::Text(feed_url(site.config.base_url)),
                ),
            },
        )
    }
}

/// What the file for robots is rendered from.
pub open spec fn robots_request() -> RequestModel {
    RequestModel { template: "robots.txt"@, context: no_entries() }
}

/// The request that an option holds.
pub open spec fn optional_request(request: Option<Request>) -> Option<RequestModel> {
    match request {
        Some(r) => Some(r@),
        None => None,
    }
}

fn value_of_pages(pages: &Vec<Page>) -> (value: Value)
    ensures
        datum(&value) == page_data(page_models(pages@)),
{
    let mut values: Vec<Value> = Vec::new();
    for i in 0..pages.len()
        invariant
            values.len() == i,
            forall|j: int| 0 <= j < i ==> datum(&#[trigger] values@[j]) == pages@[j]@.data,
    {
        values.push(clone_value(&pages[i].data));
    }
    assert(data_of(values@) == page_models(pages@).map_values(|p: PageModel| p.data));
    value_of_list(values)
}

fn value_of_sections(sections: &Vec<Section>) -> (value: Value)
    ensures
        datum(&value) == section_data(section_models(sections@)),
{
    let mut values: Vec<Value> = Vec::new();
    for i in 0..sections.len()
        invariant
            values.len() == i,
            forall|j: int| 0 <= j < i ==> datum(&#[trigger] values@[j]) == sections@[j]@.data,
    {
        values.push(clone_value(&sections[i].data));
    }
    assert(data_of(values@) == section_models(sections@).map_values(|s: SectionModel| s.data));
    value_of_list(values)
}

fn value_of_texts(list: &Vec<String>) -> (value: Value)
    ensures
        datum(&value) == text_data(texts(list@)),
{
    let mut values: Vec<Value> = Vec::new();
    for i in 0..list.len()
        invariant
            values.len() == i,
            forall|j: int| 0 <= j < i ==> datum(&#[trigger] values@[j]) == Datum::Text(list@[j]@),
    {
        values.push(value_of_text(&list[i]));
    }
    assert(data_of(values@) == texts(list@).map_values(|t: Seq<char>| Datum::Text(t)));
    value_of_list(values)
}

fn value_of_item(item: &ListItem) -> (value: Value)
    ensures
        datum(&value) == item_datum(item@),
{
    let mut fields: Vec<(String, Value)> = Vec::new();
    fields.push(("name".to_owned(), value_of_text(&item.name)));
    fields.push(("slug".to_owned(), value_of_text(&item.slug)));
    fields.push(("count".to_owned(), value_of_count(item.count)));
    proof {
        let all = fields@;
        reveal_with_fuel(fields_of, 4);
        assert(all.drop_last().drop_last().drop_last() == Seq::<(String, Value)>::empty());
        assert(item_datum(item@)->Record_0 =~= fields_of(all));
    }
    value_of_fields(fields)
}

fn value_of_items(items: &Vec<ListItem>) -> (value: Value)
    ensures
        datum(&value) == item_data(item_models(items@)),
{
    let mut values: Vec<Value> = Vec::new();
    for i in 0..items.len()
        invariant
            values.len() == i,
            forall|j: int| 0 <= j < i ==> datum(&#[trigger] values@[j]) == item_datum(items@[j]@),
    {
        values.push(value_of_item(&items[i]));
    }
    assert(data_of(values@) == item_models(items@).map_values(|i: ListItemModel| item_datum(i)));
    value_of_list(values)
}

fn add_text(context: &mut Context, key: &str, text: &str)
    ensures
        context_entries(final(context)) == context_entries(old(context)).insert(
            key@,
            Datum::Text(text@),
        ),
{
    let value = value_of_text(text);
    add_entry(context, key, &value);
}

/// Whether a file is among those of a term.
fn is_in_term(term: &Term, file: &FilePath) -> (found: bool)
    ensures
        found == term@.pages.contains(file@),
{
    for i in 0..term.pages.len()
        invariant
            forall|j: int| 0 <= j < i ==> #[trigger] term@.pages[j] != file@,
    {
        assert(term@.pages[i as int] == term.pages@[i as int]@);
        if term.pages[i].same(file) {
            return true;
        }
    }
    false
}

/// The pages of a term, in order.
fn collect_term_pages(pages: &Vec<Page>, term: &Term) -> (found: Vec<Page>)
    ensures
        page_models(found@) == pages_of_term(page_models(pages@), term@),
{
    let ghost all = page_models(pages@);
    let ghost model = term@;
    let ghost pred = |p: PageModel| model.pages.contains(p.file_path);
    let mut found: Vec<Page> = Vec::new();
    assert(all.take(0) == Seq::<PageModel>::empty());
    assert(page_models(found@) == Seq::<PageModel>::empty());
    for i in 0..pages.len()
        invariant
            all == page_models(pages@),
            model == term@,
            pred == (|p: PageModel| model.pages.contains(p.file_path)),
            page_models(found@) == all.take(i as int).filter(pred),
    {
        proof {
            reveal(Seq::filter);
            assert(all.take(i + 1).drop_last() == all.take(i as int));
            assert(all.take(i + 1).last() == pages@[i as int]@);
        }
        if is_in_term(term, &pages[i].file_path) {
            push_page(&mut found, pages[i].clone());
        }
    }
    assert(all.take(pages.len() as int) == all);
    sorted_pages(&found)
}

fn name_of_list(kind: RenderList) -> (name: String)
    ensures
        name@ == list_name(kind),
{
    match kind {
        RenderList::Categories => "categories".to_owned(),
        RenderList::Tags => "tags".to_owned(),
    }
}

impl Site {
    /// The tags or the categories.
    pub fn taxonomy(&self, kind: RenderList) -> (taxonomy: &Taxonomy)
        ensures
            taxonomy@ == terms_of(self@, kind),
    {
        match kind {
            RenderList::Categories => &self.categories,
            RenderList::Tags => &self.tags,
        }
    }

    /// The paths of the pages of a taxonomy in the built site: that of the list page, then one for
    /// each term.
    pub fn taxonomy_paths(&self, kind: RenderList) -> (list: Vec<String>)
        ensures
            texts(list@) == taxonomy_paths(kind, terms_of(self@, kind)),
            list.len() == taxonomy_size(terms_of(self@, kind)),
    {
        let taxonomy = self.taxonomy(kind);
        let ghost terms = terms_of(self@, kind);
        let ghost all = taxonomy_paths(kind, terms);
        let mut list: Vec<String> = Vec::new();
        if taxonomy.terms.len() > 0 {
            let name = name_of_list(kind);
            list.push(name.clone());
            let prefix = concat(&name, "/");
            for i in 0..taxonomy.terms.len()
                invariant
                    terms == taxonomy@,
                    prefix@ == list_name(kind) + "/"@,
                    all == taxonomy_paths(kind, terms),
                    list.len() == i + 1,
                    list@[0]@ == list_name(kind),
                    forall|j: int| 0 <= j <= i ==> #[trigger] list@[j]@ == all[j],
            {
                let term = &taxonomy.terms[i];
                assert(term@ == terms[i as int]);
                list.push(concat(&prefix, &slugify(&term.name)));
                assert(list@[i + 1]@ == all[i + 1]);
            }
        }
        assert(texts(list@) == all);
        list
    }

    fn list_request(&self, kind: RenderList, url: &str) -> (request: Request)
        ensures
            request@ == list_request(self@, kind, url@),
    {
        let template = match kind {
            RenderList::Categories => "categories.html",
            RenderList::Tags => "tags.html",
        };
        let name = name_of_list(kind);
        let items = self.taxonomy(kind).sorted_items();
        let items_value = value_of_items(&items);
        let mut context = Context::new();
        add_entry(&mut context, &name, &items_value);
        add_entry(&mut context, "config", &self.config.data);
        add_text(&mut context, "current_url", url);
        add_text(&mut context, "current_path", &concat("/", &name));
        Request { template: template.to_owned(), context }
    }

    /// The pages of a term, in order.
    pub fn term_pages(&self, term: &Term) -> (pages: Vec<Page>)
        ensures
            page_models(pages@) == pages_of_term(self@.pages, term@),
    {
        collect_term_pages(&self.pages, term)
    }

    fn term_request(&self, kind: RenderList, term: &Term, url: &str) -> (request: Request)
        ensures
            request@ == term_request(self@, kind, term@, url@),
    {
        let (template, variable) = match kind {
            RenderList::Categories => ("category.html", "category"),
            RenderList::Tags => ("tag.html", "tag"),
        };
        let slug = slugify(&term.name);
        let path = concat(&concat(&name_of_list(kind), "/"), &slug);
        let pages = value_of_pages(&self.term_pages(term));
        let mut context = Context::new();
        add_text(&mut context, variable, &term.name);
        add_text(&mut context, &concat(variable, "_slug"), &slug);
        add_entry(&mut context, "pages", &pages);
        add_entry(&mut context, "config", &self.config.data);
        add_text(&mut context, "current_url", url);
        add_text(&mut context, "current_path", &concat("/", &path));
        Request { template: template.to_owned(), context }
    }

    /// What the pages of a taxonomy are rendered from; `urls` are the permalinks of the paths that
    /// `taxonomy_paths` gives.
    pub fn taxonomy_requests(&self, kind: RenderList, urls: &Vec<String>) -> (requests: Vec<Request>)
        requires
            urls.len() == taxonomy_size(terms_of(self@, kind)),
        ensures
            request_models(requests@) == taxonomy_requests(self@, kind, texts(urls@)),
    {
        let taxonomy = self.taxonomy(kind);
        let ghost terms = terms_of(self@, kind);
        let ghost all = taxonomy_requests(self@, kind, texts(urls@));
        let mut requests: Vec<Request> = Vec::new();
        if taxonomy.terms.len() > 0 {
            requests.push(self.list_request(kind, &urls[0]));
            assert(requests@[0]@ == all[0]);
            for i in 0..taxonomy.terms.len()
                invariant
                    terms == taxonomy@,
                    terms == terms_of(self@, kind),
                    urls.len() == terms.len() + 1,
                    all == taxonomy_requests(self@, kind, texts(urls@)),
                    requests.len() == i + 1,
                    forall|j: int| 0 <= j <= i ==> #[trigger] requests@[j]@ == all[j],
            {
                assert(taxonomy.terms@[i as int]@ == terms[i as int]);
                assert(texts(urls@)[i + 1] == urls@[i + 1]@);
                requests.push(self.term_request(kind, &taxonomy.terms[i], &urls[i + 1]));
                assert(requests@[i + 1]@ == all[i + 1]);
            }
        }
        assert(request_models(requests@) == all);
        requests
    }

    /// The pages that the index page shows: all of them, in order.
    pub fn index_pages(&self) -> (pages: Vec<Page>)
        ensures
            page_models(pages@) == by_rank(self@.pages),
    {
        sorted_pages(&self.pages)
    }

    /// What the index page is rendered from; `linked` are the pages that `index_pages` gives, each
    /// with its neighbours.
    pub fn index_request(&self, linked: &Vec<Page>) -> (request: Request)
        ensures
            request@ == index_request(self@, page_models(linked@)),
    {
        let pages = value_of_pages(linked);
        let sections = value_of_sections(&self.sections);
        let mut context = Context::new();
        add_entry(&mut context, "pages", &pages);
        add_entry(&mut context, "sections", &sections);
        add_entry(&mut context, "config", &self.config.data);
        add_text(&mut context, "current_url", &self.config.base_url);
        add_text(&mut context, "current_path", "");
        Request { template: "index.html".to_owned(), context }
    }

    /// What the sitemap is rendered from; `category_urls` and `tag_urls` are the permalinks of the
    /// paths that `taxonomy_paths` gives.
    pub fn sitemap_request(&self, category_urls: &Vec<String>, tag_urls: &Vec<String>) -> (request:
        Request)
        requires
            self.config.generate_categories_pages is Some,
            self.config.generate_tags_pages is Some,
            category_urls.len() == taxonomy_size(self@.categories),
            tag_urls.len() == taxonomy_size(self@.tags),
        ensures
            request@ == sitemap_request(self@, texts(category_urls@), texts(tag_urls@)),
    {
        let none: Vec<String> = Vec::new();
        assert(texts(none@) == Seq::<Seq<char>>::empty());
        let pages = value_of_pages(&self.pages);
        let sections = value_of_sections(&self.sections);
        let categories = if self.config.generate_categories_pages.unwrap() {
            value_of_texts(category_urls)
        } else {
            value_of_texts(&none)
        };
        let tags = if self.config.generate_tags_pages.unwrap() {
            value_of_texts(tag_urls)
        } else {
            value_of_texts(&none)
        };
        let mut context = Context::new();
        add_entry(&mut context, "pages", &pages);
        add_entry(&mut context, "sections", &sections);
        add_entry(&mut context, "categories", &categories);
        add_entry(&mut context, "tags", &tags);
        Request { template: "sitemap.xml".to_owned(), context }
    }

    /// The address of the feed.
    fn feed_url(&self) -> (url: String)
        ensures
            url@ == feed_url(self@.config.base_url),
    {
        let base = &self.config.base_url;
        let chars = chars_of(base);
        if chars.len() > 0 && chars[chars.len() - 1] == '/' {
            concat(base, "feed.xml")
        } else {
            concat(&concat(base, "/"), "feed.xml")
        }
    }

    /// The pages that have a date.
    pub fn dated_pages(&self) -> (found: Vec<Page>)
        ensures
            page_models(found@) == dated(self@.pages),
    {
        let ghost all = self@.pages;
        let mut found: Vec<Page> = Vec::new();
        assert(all.take(0) == Seq::<PageModel>::empty());
        assert(page_models(found@) == Seq::<PageModel>::empty());
        for i in 0..self.pages.len()
            invariant
                all == self@.pages,
                page_models(found@) == dated(all.take(i as int)),
        {
            proof {
                reveal(Seq::filter);
                assert(all.take(i + 1).drop_last() == all.take(i as int));
                assert(all.take(i + 1).last() == self.pages@[i as int]@);
            }
            if self.pages[i].meta.date.is_some() {
                push_page(&mut found, self.pages[i].clone());
            }
        }
        assert(all.take(self.pages.len() as int) == all);
        found
    }

    /// What the feed is rendered from. There is none if no page has a date.
    pub fn rss_request(&self) -> (request: Option<Request>)
        ensures
            optional_request(request) == rss_request(self@),
    {
        let ghost all = self@.pages;
        let found = self.dated_pages();
        assert(page_models(found@).len() == found.len());
        // Don't generate a RSS feed if none of the pages has a date
        if found.len() == 0 {
            return None;
        }
        let mut pages = sorted_pages(&found);
        let ghost sorted = page_models(pages@);
        proof {
            let ranks = dated(all).map_values(|p: PageModel| p.rank);
            crate::order::order_sorts(ranks);
            let first = crate::order::order(ranks)[0];
            assert(sorted[0] == dated(all)[first]);
            all.lemma_filter_pred(|p: PageModel| p.date is Some, first);
            assert(sorted.len() == pages.len());
        }
        // limit to the last 15 elements, which come first in order
        pages.truncate(FEED_LIMIT);
        assert(page_models(pages@) == at_most(sorted, FEED_LIMIT as int));
        let pages_value = value_of_pages(&pages);
        let mut context = Context::new();
        add_entry(&mut context, "pages", &pages_value);
        assert(page_models(pages@)[0] == pages@[0]@);
        if let Some(date) = &pages[0].meta.date {
            add_text(&mut context, "last_build_date", date);
        }
        add_entry(&mut context, "config", &self.config.data);
        add_text(&mut context, "feed_url", &self.feed_url());
        Some(Request { template: "rss.xml".to_owned(), context })
    }

    /// What the file for robots is rendered from.
    pub fn robots_request(&self) -> (request: Request)
        ensures
            request@ == robots_request(),
    {
        Request { template: "robots.txt".to_owned(), context: Context::new() }
    }
}

} // verus!
