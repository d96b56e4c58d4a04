//! What the templates of a site are given, whatever is in the site.

use vstd::prelude::*;

use crate::content::{PageModel, SectionModel};
use crate::content_laws::has_tag;
use crate::output_laws::{category_pages_show_their_pages, tag_pages_show_their_pages};
use crate::render::{
    dated, feed_pages, feed_url, index_request, item_datum, pages_of_term, robots_request,
    rss_request, sitemap_request, taxonomy_paths, taxonomy_requests, term_path,
};
use crate::site::{by_rank, distinct_files, with_terms, SiteModel};
use crate::site_laws::{count, lemma_filter_count, sorting_keeps_every_page};
use crate::taxonomy::{slug_of, sorted_items, ListItemModel, RenderList, TermModel};
use crate::template::Datum;

verus! {

/// Whether a template sees `pages`: all of them, in this order.
pub open spec fn shows_pages(datum: Datum, pages: Seq<PageModel>) -> bool {
    &&& datum is List
    &&& datum->List_0.len() == pages.len()
    &&& forall|i: int| 0 <= i < pages.len() ==> #[trigger] datum->List_0[i] == pages[i].data
}

/// Whether a template sees `sections`: all of them, in this order.
pub open spec fn shows_sections(datum: Datum, sections: Seq<SectionModel>) -> bool {
    &&& datum is List
    &&& datum->List_0.len() == sections.len()
    &&& forall|i: int| 0 <= i < sections.len() ==> #[trigger] datum->List_0[i] == sections[i].data
}

/// Whether a template sees `texts`: all of them, in this order.
pub open spec fn shows_texts(datum: Datum, texts: Seq<Seq<char>>) -> bool {
    &&& datum is List
    &&& datum->List_0.len() == texts.len()
    &&& forall|i: int| 0 <= i < texts.len() ==> #[trigger] datum->List_0[i] == Datum::Text(texts[i])
}

/// Whether a template sees `item` as a record of its name, its slug and its count.
pub open spec fn shows_item(datum: Datum, item: ListItemModel) -> bool {
    &&& datum is Record
    &&& datum->Record_0.dom() == set!["name"@, "slug"@, "count"@]
    &&& datum->Record_0["name"@] == Datum::Text(item.name)
    &&& datum->Record_0["slug"@] == Datum::Text(item.slug)
    &&& datum->Record_0["count"@] == Datum::Whole(item.count)
}

/// Whether `shown` are those of `pages` whose files are among `files`, each as often, and in order.
pub open spec fn is_sorted_selection(
    shown: Seq<PageModel>,
    pages: Seq<PageModel>,
    files: Seq<Seq<Seq<char>>>,
) -> bool {
    &&& forall|p: PageModel| #[trigger]
        count(shown, p) == if files.contains(p.file_path) {
            count(pages, p)
        } else {
            0
        }
    &&& forall|i: int, j: int|
        0 <= i < j < shown.len() ==> (#[trigger] shown[i]).rank <= (#[trigger] shown[j]).rank
}

/// The terms of a site that a taxonomy has.
pub open spec fn own_terms(site: SiteModel, kind: RenderList) -> Seq<TermModel> {
    if kind == RenderList::Tags {
        site.tags
    } else {
        site.categories
    }
}

/// The name of a taxonomy.
pub open spec fn own_name(kind: RenderList) -> Seq<char> {
    if kind == RenderList::Tags {
        "tags"@
    } else {
        "categories"@
    }
}

/// The pages of a term are those of the site that are filed under it, all of them and no others, and
/// in order.
pub proof fn term_pages_are_its_own(pages: Seq<PageModel>, term: TermModel)
    ensures
        is_sorted_selection(pages_of_term(pages, term), pages, term.pages),
{
    let shown = pages_of_term(pages, term);
    let keep = |p: PageModel| term.pages.contains(p.file_path);
    let chosen = pages.filter(keep);
    assert(shown == by_rank(chosen));
    assert forall|p: PageModel| #[trigger] count(shown, p) == if term.pages.contains(p.file_path) {
        count(pages, p)
    } else {
        0
    } by {
        sorting_keeps_every_page(chosen, p);
        lemma_filter_count(pages, keep, p);
    }
    crate::content_laws::pages_are_sorted(chosen);
}

/// The pages with a date are those of the site that have one, all of them and no others.
pub proof fn dated_pages_are_all_dated(pages: Seq<PageModel>, page: PageModel)
    ensures
        count(dated(pages), page) == if page.date is Some {
            count(pages, page)
        } else {
            0
        },
{
    lemma_filter_count(pages, |p: PageModel| p.date is Some, page);
}

/// The list page of a taxonomy is given an item for each term, the configuration, and its own address
/// and path.
pub proof fn list_page_is_given_every_term(
    site: SiteModel,
    kind: RenderList,
    urls: Seq<Seq<char>>,
)
    requires
        own_terms(site, kind).len() > 0,
        urls.len() == own_terms(site, kind).len() + 1,
    ensures
        ({
            let request = taxonomy_requests(site, kind, urls)[0];
            let context = request.context;
            let name = own_name(kind);
            let items = sorted_items(own_terms(site, kind));
            &&& request.template == if kind == RenderList::Tags {
                "tags.html"@
            } else {
                "categories.html"@
            }
            &&& context.dom() == set![name, "config"@, "current_url"@, "current_path"@]
            &&& context[name] is List
            &&& context[name]->List_0.len() == own_terms(site, kind).len()
            &&& forall|i: int|
                0 <= i < items.len() ==> shows_item(#[trigger] context[name]->List_0[i], items[i])
            &&& context["config"@] == site.config.data
            &&& context["current_url"@] == Datum::Text(urls[0])
            &&& context["current_path"@] == Datum::Text("/"@ + name)
        }),
{
    reveal_strlit("tags");
    reveal_strlit("categories");
    reveal_strlit("config");
    reveal_strlit("current_url");
    reveal_strlit("current_path");
    reveal_strlit("name");
    reveal_strlit("slug");
    reveal_strlit("count");
    let context = taxonomy_requests(site, kind, urls)[0].context;
    let name = own_name(kind);
    assert("tags"@.len() == 4 && "categories"@.len() == 10 && "config"@.len() == 6);
    assert("current_url"@.len() == 11 && "current_path"@.len() == 12);
    assert("name"@[0] == 'n' && "slug"@[0] == 's' && "count"@[0] == 'c');
    let items = sorted_items(own_terms(site, kind));
    crate::order::order_sorts(
        own_terms(site, kind).map_values(|t: TermModel| -(t.pages.len() as int)),
    );
    assert(context.dom() =~= set![name, "config"@, "current_url"@, "current_path"@]);
    assert forall|i: int| 0 <= i < items.len() implies shows_item(
        #[trigger] context[name]->List_0[i],
        items[i],
    ) by {
        let datum = context[name]->List_0[i];
        assert(datum == item_datum(items[i]));
        assert(datum->Record_0.dom() =~= set!["name"@, "slug"@, "count"@]);
    }
}

/// The page of a term, be it a tag or a category, is given the term, its slug, the pages of the site
/// that are filed under the term and no others, in order, the configuration, and its own address and
/// path.
pub proof fn term_page_is_given_its_own_pages(
    site: SiteModel,
    kind: RenderList,
    urls: Seq<Seq<char>>,
    i: int,
)
    requires
        0 <= i < own_terms(site, kind).len(),
        urls.len() == own_terms(site, kind).len() + 1,
    ensures
        taxonomy_requests(site, kind, urls).len() == own_terms(site, kind).len() + 1,
        ({
            let request = taxonomy_requests(site, kind, urls)[i + 1];
            let context = request.context;
            let term = own_terms(site, kind)[i];
            let variable = if kind == RenderList::Tags {
                "tag"@
            } else {
                "category"@
            };
            let slug_variable = if kind == RenderList::Tags {
                "tag_slug"@
            } else {
                "category_slug"@
            };
            let name = own_name(kind);
            &&& request.template == if kind == RenderList::Tags {
                "tag.html"@
            } else {
                "category.html"@
            }
            &&& context.dom() == set![
                variable,
                slug_variable,
                "pages"@,
                "config"@,
                "current_url"@,
                "current_path"@,
            ]
            &&& context[variable] == Datum::Text(term.name)
            &&& context[slug_variable] == Datum::Text(slug_of(term.name))
            &&& exists|shown: Seq<PageModel>| #[trigger]
                shows_pages(context["pages"@], shown) && is_sorted_selection(
                    shown,
                    site.pages,
                    term.pages,
                )
            &&& context["config"@] == site.config.data
            &&& context["current_url"@] == Datum::Text(urls[i + 1])
            &&& context["current_path"@] == Datum::Text("/"@ + (name + "/"@ + slug_of(term.name)))
        }),
{
    lemma_term_keys();
    let request = taxonomy_requests(site, kind, urls)[i + 1];
    let context = request.context;
    let term = own_terms(site, kind)[i];
    let variable = if kind == RenderList::Tags {
        "tag"@
    } else {
        "category"@
    };
    let slug_variable = if kind == RenderList::Tags {
        "tag_slug"@
    } else {
        "category_slug"@
    };
    assert(variable + "_slug"@ == slug_variable);
    assert(context.dom() =~= set![
        variable,
        slug_variable,
        "pages"@,
        "config"@,
        "current_url"@,
        "current_path"@,
    ]);
    term_pages_are_its_own(site.pages, term);
    assert(shows_pages(context["pages"@], pages_of_term(site.pages, term)));
}

proof fn lemma_term_keys()
    ensures
        "tag"@ + "_slug"@ == "tag_slug"@,
        "category"@ + "_slug"@ == "category_slug"@,
        "tag"@.len() == 3,
        "category"@.len() == 8,
        "tag_slug"@.len() == 8,
        "category_slug"@.len() == 13,
        "pages"@.len() == 5,
        "config"@.len() == 6,
        "current_url"@.len() == 11,
        "current_path"@.len() == 12,
{
    reveal_strlit("tag");
    reveal_strlit("category");
    reveal_strlit("_slug");
    reveal_strlit("tag_slug");
    reveal_strlit("category_slug");
    reveal_strlit("pages");
    reveal_strlit("config");
    reveal_strlit("current_url");
    reveal_strlit("current_path");
    assert("tag"@ + "_slug"@ =~= "tag_slug"@);
    assert("category"@ + "_slug"@ =~= "category_slug"@);
}

/// On a site whose categories are found for the first time, the page of a category is given exactly
/// the pages that have the category, and in order.
pub proof fn category_page_is_given_its_pages(site: SiteModel, urls: Seq<Seq<char>>, i: int)
    requires
        distinct_files(site.pages),
        site.categories.len() == 0,
        0 <= i < with_terms(site).categories.len(),
        urls.len() == with_terms(site).categories.len() + 1,
    ensures
        exists|shown: Seq<PageModel>|
            {
                &&& #[trigger] shows_pages(
                    taxonomy_requests(with_terms(site), RenderList::Categories, urls)[i
                        + 1].context["pages"@],
                    shown,
                )
                &&& forall|p: PageModel| #[trigger]
                    shown.contains(p) <==> site.pages.contains(p) && p.category == Some(
                        with_terms(site).categories[i].name,
                    )
                &&& forall|x: int, y: int|
                    0 <= x < y < shown.len() ==> (#[trigger] shown[x]).rank <= (
                    #[trigger] shown[y]).rank
            },
{
    broadcast use vstd::seq_lib::group_to_multiset_ensures;

    let now = with_terms(site);
    let term = now.categories[i];
    term_page_is_given_its_own_pages(now, RenderList::Categories, urls, i);
    let datum = taxonomy_requests(now, RenderList::Categories, urls)[i + 1].context["pages"@];
    let shown = pages_of_term(site.pages, term);
    term_pages_are_its_own(site.pages, term);
    assert(shows_pages(datum, shown)) by {
        lemma_term_keys();
    }
    assert forall|p: PageModel| #[trigger] shown.contains(p) <==> site.pages.contains(p) && p.category
        == Some(term.name) by {
        assert(count(shown, p) <= count(site.pages, p));
        if site.pages.contains(p) {
            category_pages_show_their_pages(site, i, p);
        }
    }
}

/// On a site whose tags are found for the first time, the page of a tag is given exactly the pages
/// that have the tag, and in order.
pub proof fn tag_page_is_given_its_pages(site: SiteModel, urls: Seq<Seq<char>>, i: int)
    requires
        distinct_files(site.pages),
        site.tags.len() == 0,
        0 <= i < with_terms(site).tags.len(),
        urls.len() == with_terms(site).tags.len() + 1,
    ensures
        exists|shown: Seq<PageModel>|
            {
                &&& #[trigger] shows_pages(
                    taxonomy_requests(with_terms(site), RenderList::Tags, urls)[i
                        + 1].context["pages"@],
                    shown,
                )
                &&& forall|p: PageModel| #[trigger]
                    shown.contains(p) <==> site.pages.contains(p) && p.tags is Some
                        && p.tags->0.contains(with_terms(site).tags[i].name)
                &&& forall|x: int, y: int|
                    0 <= x < y < shown.len() ==> (#[trigger] shown[x]).rank <= (
                    #[trigger] shown[y]).rank
            },
{
    broadcast use vstd::seq_lib::group_to_multiset_ensures;

    let now = with_terms(site);
    let term = now.tags[i];
    term_page_is_given_its_own_pages(now, RenderList::Tags, urls, i);
    let datum = taxonomy_requests(now, RenderList::Tags, urls)[i + 1].context["pages"@];
    let shown = pages_of_term(site.pages, term);
    term_pages_are_its_own(site.pages, term);
    assert(shows_pages(datum, shown)) by {
        lemma_term_keys();
    }
    assert forall|p: PageModel| #[trigger] shown.contains(p) <==> site.pages.contains(p) && p.tags is Some
        && p.tags->0.contains(term.name) by {
        assert(count(shown, p) <= count(site.pages, p));
        if site.pages.contains(p) {
            tag_pages_show_their_pages(site, i, p);
            assert(has_tag(p, term.name) <==> p.tags is Some && p.tags->0.contains(term.name));
        }
    }
}

/// The pages of a taxonomy have one path each: that of the list page, then below it one for each
/// term, named by the slug of the term. Without terms there are none.
pub proof fn taxonomy_paths_are_named_by_slugs(kind: RenderList, terms: Seq<TermModel>)
    ensures
        terms.len() == 0 ==> taxonomy_paths(kind, terms).len() == 0,
        terms.len() > 0 ==> taxonomy_paths(kind, terms).len() == terms.len() + 1,
        terms.len() > 0 ==> taxonomy_paths(kind, terms)[0] == own_name(kind),
        forall|i: int|
            0 <= i < terms.len() ==> #[trigger] taxonomy_paths(kind, terms)[i + 1] == own_name(kind) + "/"@ + slug_of(terms[i].name),
{
    assert forall|i: int| 0 <= i < terms.len() implies #[trigger] taxonomy_paths(kind, terms)[i + 1]
        == term_path(kind, terms[i]) by {}
}

/// Nothing is rendered for a taxonomy without terms.
pub proof fn nothing_is_rendered_without_terms(
    site: SiteModel,
    kind: RenderList,
    urls: Seq<Seq<char>>,
)
    requires
        own_terms(site, kind).len() == 0,
    ensures
        taxonomy_requests(site, kind, urls).len() == 0,
{
}

/// The index page is given the pages it is to show, all the sections of the site in their order, the
/// configuration, and the address of the site.
pub proof fn index_page_is_given_all_sections(site: SiteModel, linked: Seq<PageModel>)
    ensures
        ({
            let request = index_request(site, linked);
            let context = request.context;
            &&& request.template == "index.html"@
            &&& context.dom() == set![
                "pages"@,
                "sections"@,
                "config"@,
                "current_url"@,
                "current_path"@,
            ]
            &&& shows_pages(context["pages"@], linked)
            &&& shows_sections(context["sections"@], site.sections)
            &&& context["config"@] == site.config.data
            &&& context["current_url"@] == Datum::Text(site.config.base_url)
            &&& context["current_path"@] == Datum::Text(Seq::empty())
        }),
{
    reveal_strlit("pages");
    reveal_strlit("sections");
    reveal_strlit("config");
    reveal_strlit("current_url");
    reveal_strlit("current_path");
    reveal_strlit("");
    assert("pages"@.len() == 5 && "sections"@.len() == 8 && "config"@.len() == 6);
    assert("current_url"@.len() == 11 && "current_path"@.len() == 12);
    assert(""@ =~= Seq::<char>::empty());
    assert(index_request(site, linked).context.dom() =~= set![
        "pages"@,
        "sections"@,
        "config"@,
        "current_url"@,
        "current_path"@,
    ]);
}

/// The sitemap is given every page of the site, however many there are, every section, and the
/// addresses of the tags and of the categories, each if they are generated.
pub proof fn sitemap_is_given_everything(
    site: SiteModel,
    category_urls: Seq<Seq<char>>,
    tag_urls: Seq<Seq<char>>,
)
    ensures
        ({
            let request = sitemap_request(site, category_urls, tag_urls);
            let context = request.context;
            let none = Seq::<Seq<char>>::empty();
            &&& request.template == "sitemap.xml"@
            &&& context.dom() == set!["pages"@, "sections"@, "categories"@, "tags"@]
            &&& shows_pages(context["pages"@], site.pages)
            &&& shows_sections(context["sections"@], site.sections)
            &&& site.config.generate_categories_pages == Some(true) ==> shows_texts(
                context["categories"@],
                category_urls,
            )
            &&& site.config.generate_categories_pages != Some(true) ==> shows_texts(
                context["categories"@],
                none,
            )
            &&& site.config.generate_tags_pages == Some(true) ==> shows_texts(
                context["tags"@],
                tag_urls,
            )
            &&& site.config.generate_tags_pages != Some(true) ==> shows_texts(
                context["tags"@],
                none,
            )
        }),
{
    reveal_strlit("pages");
    reveal_strlit("sections");
    reveal_strlit("categories");
    reveal_strlit("tags");
    assert("pages"@.len() == 5 && "sections"@.len() == 8);
    assert("categories"@.len() == 10 && "tags"@.len() == 4);
    assert(sitemap_request(site, category_urls, tag_urls).context.dom() =~= set![
        "pages"@,
        "sections"@,
        "categories"@,
        "tags"@,
    ]);
}

/// The feed, if there is one, is given its pages, the date of the first of them, the configuration,
/// and the address of the feed.
pub proof fn feed_is_given_its_pages(site: SiteModel)
    requires
        rss_request(site) is Some,
    ensures
        ({
            let request = rss_request(site)->0;
            let context = request.context;
            let pages = feed_pages(site.pages);
            &&& request.template == "rss.xml"@
            &&& context.dom() == set!["pages"@, "last_build_date"@, "config"@, "feed_url"@]
            &&& 0 < pages.len() <= 15
            &&& shows_pages(context["pages"@], pages)
            &&& pages[0].date is Some
            &&& context["last_build_date"@] == Datum::Text(pages[0].date->0)
            &&& context["config"@] == site.config.data
            &&& context["feed_url"@] == Datum::Text(feed_url(site.config.base_url))
        }),
{
    reveal_strlit("pages");
    reveal_strlit("last_build_date");
    reveal_strlit("config");
    reveal_strlit("feed_url");
    assert("pages"@.len() == 5 && "last_build_date"@.len() == 15);
    assert("config"@.len() == 6 && "feed_url"@.len() == 8);
    crate::output_laws::feed_holds_dated_pages(site.pages);
    assert(feed_pages(site.pages)[0].date is Some);
    assert(rss_request(site)->0.context.dom() =~= set![
        "pages"@,
        "last_build_date"@,
        "config"@,
        "feed_url"@,
    ]);
}

/// The address of the feed, written out.
pub proof fn feed_url_is_below_the_site(base_url: Seq<char>)
    ensures
        base_url.len() > 0 && base_url.last() == '/' ==> feed_url(base_url) == base_url
            + "feed.xml"@,
        base_url.len() == 0 || base_url.last() != '/' ==> feed_url(base_url) == base_url.push('/')
            + "feed.xml"@,
{
    reveal_strlit("/");
    assert(base_url + "/"@ =~= base_url.push('/'));
}

/// The file for robots is rendered from nothing but its template.
pub proof fn robots_need_nothing()
    ensures
        robots_request().template == "robots.txt"@,
        robots_request().context.dom() == Set::<Seq<char>>::empty(),
{
    assert(robots_request().context.dom() =~= Set::<Seq<char>>::empty());
}

} // verus!
