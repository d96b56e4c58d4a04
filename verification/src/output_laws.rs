//! What holds of the output of a site whatever its content is.

use vstd::prelude::*;

use crate::content::{PageModel, SectionModel};
use crate::content_laws::{
    categories_list_their_pages, files_in_category, files_in_category_are_of_its_pages,
    files_with_tag, files_with_tag_are_of_its_pages, has_tag, lemma_pages_under, pages_are_sorted,
    pages_under, tags_list_their_pages,
};
use crate::order::{order, order_sorts};
use crate::path::{
    appended_name_comes_last, appending_keeps_what_is_there, appending_nothing_changes_nothing,
    joined, parsed,
};
use crate::plan::{
    are_grounded, complete_plan, file_plan, followed_by, is_grounded, makes_directory, target,
    PlanModel, StepModel,
};
use crate::render::{
    dated, feed_pages, feed_url, index_request, list_name, page_data, pages_of_term,
    rss_request, sitemap_request, taxonomy_paths, taxonomy_requests, taxonomy_size, terms_of, text_data,
    RequestModel, FEED_LIMIT,
};
use crate::site::{by_rank, distinct_files, glob_below, has_page, with_terms, SiteModel};
use crate::stages::{
    build_stages, copy_steps, ensure_steps, feed_plan, injected, injected_option, is_static, nested,
    page_directory, page_plan, pages_plan, plan_if, reload_script, section_plan, sections_plan,
    site_plan, static_target, taxonomy_directory, taxonomy_plan, term_plan, terms_plan,
    RenderedModel, Stage,
};
use crate::taxonomy::{is_listed, is_slug, slug_of, RenderList, TermModel};
use crate::template::Datum;
use crate::text::{
    nothing_to_replace, occurs_at, replace_all, replaced_char_is_gone, split, split_pieces_join,
};

verus! {

/// As far as replacing has put nothing in, its result is the text that it was made from.
proof fn lemma_untouched_prefix(s: Seq<char>, from: Seq<char>, to: Seq<char>, n: int)
    requires
        from.len() > 0,
        to.len() > 0,
        0 <= n <= replace_all(s, from, to).len(),
        forall|i: int| 0 <= i < n ==> #[trigger] replace_all(s, from, to)[i] != to[0],
    ensures
        n <= s.len(),
        replace_all(s, from, to).take(n) == s.take(n),
    decreases s.len(),
{
    let out = replace_all(s, from, to);
    if n > 0 && s.len() >= from.len() {
        if s.take(from.len() as int) == from {
            assert(out[0] == to[0]);
        } else {
            let rest = replace_all(s.skip(1), from, to);
            assert forall|i: int| 0 <= i < n - 1 implies #[trigger] rest[i] != to[0] by {
                assert(out[i + 1] == rest[i]);
            }
            lemma_untouched_prefix(s.skip(1), from, to, n - 1);
            assert forall|i: int| 0 <= i < n implies out[i] == s[i] by {
                if i > 0 {
                    assert(rest.take(n - 1)[i - 1] == s.skip(1).take(n - 1)[i - 1]);
                }
            }
            assert(out.take(n) == s.take(n));
        }
    } else {
        assert(out.take(n) == s.take(n));
    }
}

proof fn lemma_shifted(s: Seq<char>, t: Seq<char>, part: Seq<char>, by: int, at: int)
    requires
        0 <= by <= t.len(),
        t.skip(by) == s,
        at >= by,
    ensures
        occurs_at(t, part, at) <==> occurs_at(s, part, at - by),
{
    if at <= t.len() - part.len() {
        assert(t.subrange(at, at + part.len()) == s.subrange(at - by, at - by + part.len()));
    }
}

proof fn lemma_script_before_end(html: Seq<char>, at: int)
    requires
        occurs_at(injected(true, html), "</body>"@, at),
    ensures
        occurs_at(
            injected(true, html),
            reload_script(),
            at + "</body>"@.len() - reload_script().len(),
        ),
    decreases html.len(),
{
    reveal_strlit("</body>");
    reveal_strlit("<script src=\"/livereload.js?port=1112&mindelay=10\"></script></body>");
    let from = "</body>"@;
    let to = reload_script();
    let out = injected(true, html);
    let n = from.len() as int;
    let m = to.len() as int;
    let found = out.subrange(at, at + n);
    assert(found[0] == out[at] && found[1] == out[at + 1] && found[2] == out[at + 2]);
    if html.len() < n {
    } else if html.take(n) == from {
        let rest = injected(true, html.skip(n));
        assert(out == to + rest);
        assert(out.skip(m) == rest);
        if at >= m {
            lemma_shifted(rest, out, from, m, at);
            lemma_script_before_end(html.skip(n), at - m);
            lemma_shifted(rest, out, to, m, at + n - m);
        } else {
            assert(out[at] == to[at]);
            assert(out[1] == to[1]);
            assert(out.subrange(0, m) == to);
        }
    } else {
        let rest = injected(true, html.skip(1));
        assert(out == seq![html[0]] + rest);
        assert(out.skip(1) == rest);
        if at >= 1 {
            lemma_shifted(rest, out, from, 1, at);
            lemma_script_before_end(html.skip(1), at - 1);
            lemma_shifted(rest, out, to, 1, at + n - m);
        } else {
            assert forall|i: int| 0 <= i < n - 1 implies #[trigger] rest[i] != to[0] by {
                assert(found[i + 1] == rest[i]);
            }
            lemma_untouched_prefix(html.skip(1), from, to, n - 1);
            assert forall|i: int| 0 <= i < n implies html.take(n)[i] == from[i] by {
                assert(found[i] == out[i]);
                if i > 0 {
                    assert(rest.take(n - 1)[i - 1] == html.skip(1).take(n - 1)[i - 1]);
                }
            }
            assert(html.take(n) == from);
        }
    }
}

/// In live reload mode every end of a body is that of the script that reloads the page. A text
/// without such an end, and every text when the mode is off, stays as it is.
pub proof fn script_is_injected(html: Seq<char>)
    ensures
        injected(false, html) == html,
        (forall|at: int| !occurs_at(html, "</body>"@, at)) ==> injected(true, html) == html,
        forall|at: int| #[trigger]
            occurs_at(injected(true, html), "</body>"@, at) ==> occurs_at(
                injected(true, html),
                reload_script(),
                at + "</body>"@.len() - reload_script().len(),
            ),
{
    reveal_strlit("</body>");
    if forall|at: int| !occurs_at(html, "</body>"@, at) {
        nothing_to_replace(html, "</body>"@, reload_script());
    }
    assert forall|at: int| #[trigger] occurs_at(injected(true, html), "</body>"@, at) implies occurs_at(
        injected(true, html),
        reload_script(),
        at + "</body>"@.len() - reload_script().len(),
    ) by {
        lemma_script_before_end(html, at);
    }
}

proof fn lemma_followed_contains(a: PlanModel, b: PlanModel, step: StepModel)
    requires
        a.complete,
        a.steps.contains(step) || b.steps.contains(step),
    ensures
        followed_by(a, b).steps.contains(step),
{
    let all = a.steps + b.steps;
    if a.steps.contains(step) {
        let i = choose|i: int| 0 <= i < a.steps.len() && a.steps[i] == step;
        assert(all[i] == step);
    } else {
        let i = choose|i: int| 0 <= i < b.steps.len() && b.steps[i] == step;
        assert(all[a.steps.len() + i] == step);
    }
}

/// The step that writes the page of a directory.
pub open spec fn index_step(
    directory: Seq<Seq<char>>,
    live: bool,
    html: Option<Seq<char>>,
) -> StepModel {
    StepModel::WriteFile {
        path: joined(directory, "index.html"@),
        text: injected(live, html->0),
    }
}

proof fn lemma_page_written(
    output: Seq<Seq<char>>,
    live: bool,
    page: PageModel,
    html: Option<Seq<char>>,
    asset: int,
)
    requires
        html is Some,
    ensures
        page_plan(output, live, page, html).steps.contains(
            index_step(page_directory(output, page), live, html),
        ),
        0 <= asset < page.assets.len() ==> page_plan(output, live, page, html).steps.contains(
            StepModel::CopyFile {
                from: page.assets[asset],
                to: joined(page_directory(output, page), page.assets[asset].last()),
            },
        ),
{
    let directory = page_directory(output, page);
    let first = complete_plan(
        ensure_steps(output, split(page.path, '/')).push(StepModel::CreateDirectory(directory)),
    );
    let second = file_plan(joined(directory, "index.html"@), injected_option(live, html));
    let third = complete_plan(copy_steps(directory, page.assets));
    let step = index_step(directory, live, html);
    assert(second.steps[0] == step);
    lemma_followed_contains(second, third, step);
    lemma_followed_contains(first, followed_by(second, third), step);
    if 0 <= asset < page.assets.len() {
        let copy = copy_steps(directory, page.assets)[asset];
        assert(third.steps[asset] == copy);
        lemma_followed_contains(second, third, copy);
        lemma_followed_contains(first, followed_by(second, third), copy);
    }
}

proof fn lemma_pages_written(
    output: Seq<Seq<char>>,
    live: bool,
    pages: Seq<PageModel>,
    htmls: Seq<Option<Seq<char>>>,
    i: int,
    asset: int,
)
    requires
        0 <= i < pages.len(),
        pages_plan(output, live, pages, htmls).complete,
    ensures
        pages_plan(output, live, pages, htmls).steps.contains(
            index_step(page_directory(output, pages[i]), live, htmls[i]),
        ),
        0 <= asset < pages[i].assets.len() ==> pages_plan(
            output,
            live,
            pages,
            htmls,
        ).steps.contains(
            StepModel::CopyFile {
                from: pages[i].assets[asset],
                to: joined(page_directory(output, pages[i]), pages[i].assets[asset].last()),
            },
        ),
    decreases pages.len(),
{
    let front = pages.drop_last();
    let before = pages_plan(output, live, front, htmls);
    let last = page_plan(output, live, pages.last(), htmls[pages.len() - 1]);
    let step = index_step(page_directory(output, pages[i]), live, htmls[i]);
    lemma_pages_plan_complete(output, live, pages, htmls);
    assert(htmls[i] is Some);
    if i < front.len() {
        lemma_pages_written(output, live, front, htmls, i, asset);
        assert(front[i] == pages[i]);
    } else {
        lemma_page_written(output, live, pages[i], htmls[i], asset);
    }
    lemma_followed_contains(before, last, step);
    if 0 <= asset < pages[i].assets.len() {
        lemma_followed_contains(
            before,
            last,
            StepModel::CopyFile {
                from: pages[i].assets[asset],
                to: joined(page_directory(output, pages[i]), pages[i].assets[asset].last()),
            },
        );
    }
}

proof fn lemma_terms_written(
    directory: Seq<Seq<char>>,
    live: bool,
    terms: Seq<TermModel>,
    htmls: Seq<Option<Seq<char>>>,
    i: int,
)
    requires
        0 <= i < terms.len(),
        terms_plan(directory, live, terms, htmls).complete,
    ensures
        terms_plan(directory, live, terms, htmls).steps.contains(
            index_step(joined(directory, slug_of(terms[i].name)), live, htmls[i + 1]),
        ),
    decreases terms.len(),
{
    let front = terms.drop_last();
    let n = terms.len() as int;
    let before = terms_plan(directory, live, front, htmls);
    let last = term_plan(directory, live, terms.last(), htmls[n]);
    let step = index_step(joined(directory, slug_of(terms[i].name)), live, htmls[i + 1]);
    if i < front.len() {
        lemma_terms_written(directory, live, front, htmls, i);
        assert(front[i] == terms[i]);
    } else {
        assert(htmls[n] is Some);
        assert(last.steps[1] == step);
    }
    lemma_followed_contains(before, last, step);
}

/// A build of the pages that is complete writes every page of the site, with what was rendered for
/// it, into the directory of the page, and copies the assets of the page there.
pub proof fn pages_are_written(site: SiteModel, rendered: RenderedModel, i: int, asset: int)
    requires
        site_plan(site, rendered).complete,
        0 <= i < site.pages.len(),
    ensures
        site_plan(site, rendered).steps.contains(
            index_step(
                page_directory(site.output_path, site.pages[i]),
                site.live_reload,
                rendered.pages[i],
            ),
        ),
        0 <= asset < site.pages[i].assets.len() ==> site_plan(site, rendered).steps.contains(
            StepModel::CopyFile {
                from: site.pages[i].assets[asset],
                to: joined(
                    page_directory(site.output_path, site.pages[i]),
                    site.pages[i].assets[asset].last(),
                ),
            },
        ),
{
    let output = site.output_path;
    let start = complete_plan(seq![StepModel::EnsureDirectory(output)]);
    let pages = pages_plan(output, site.live_reload, site.pages, rendered.pages);
    lemma_pages_written(output, site.live_reload, site.pages, rendered.pages, i, asset);
    let directory = page_directory(output, site.pages[i]);
    let step = index_step(directory, site.live_reload, rendered.pages[i]);
    lemma_followed_contains(start, pages, step);
    lemma_rest_contains(site, rendered, step);
    if 0 <= asset < site.pages[i].assets.len() {
        let copy = StepModel::CopyFile {
            from: site.pages[i].assets[asset],
            to: joined(directory, site.pages[i].assets[asset].last()),
        };
        lemma_followed_contains(start, pages, copy);
        lemma_rest_contains(site, rendered, copy);
    }
}

/// What is done for the pages is done in the whole.
proof fn lemma_rest_contains(site: SiteModel, rendered: RenderedModel, step: StepModel)
    requires
        site_plan(site, rendered).complete,
        followed_by(
            complete_plan(seq![StepModel::EnsureDirectory(site.output_path)]),
            pages_plan(site.output_path, site.live_reload, site.pages, rendered.pages),
        ).steps.contains(step),
    ensures
        site_plan(site, rendered).steps.contains(step),
{
    let pages = followed_by(
        complete_plan(seq![StepModel::EnsureDirectory(site.output_path)]),
        pages_plan(site.output_path, site.live_reload, site.pages, rendered.pages),
    );
    let categories = plan_if(
        site.config.generate_categories_pages == Some(true),
        taxonomy_plan(site, RenderList::Categories, rendered.categories),
    );
    let tags = plan_if(
        site.config.generate_tags_pages == Some(true),
        taxonomy_plan(site, RenderList::Tags, rendered.tags),
    );
    let index = file_plan(
        joined(site.output_path, "index.html"@),
        injected_option(site.live_reload, rendered.index),
    );
    lemma_followed_contains(pages, categories, step);
    lemma_followed_contains(followed_by(pages, categories), tags, step);
    lemma_followed_contains(followed_by(followed_by(pages, categories), tags), index, step);
}

/// A build of the pages that is complete builds the categories and the tags as well, each if it is
/// asked for.
pub proof fn wanted_taxonomies_are_built(site: SiteModel, rendered: RenderedModel, step: StepModel)
    requires
        site_plan(site, rendered).complete,
    ensures
        site.config.generate_categories_pages == Some(true) && taxonomy_plan(
            site,
            RenderList::Categories,
            rendered.categories,
        ).steps.contains(step) ==> site_plan(site, rendered).steps.contains(step),
        site.config.generate_tags_pages == Some(true) && taxonomy_plan(
            site,
            RenderList::Tags,
            rendered.tags,
        ).steps.contains(step) ==> site_plan(site, rendered).steps.contains(step),
{
    let pages = followed_by(
        complete_plan(seq![StepModel::EnsureDirectory(site.output_path)]),
        pages_plan(site.output_path, site.live_reload, site.pages, rendered.pages),
    );
    let categories = plan_if(
        site.config.generate_categories_pages == Some(true),
        taxonomy_plan(site, RenderList::Categories, rendered.categories),
    );
    let tags = plan_if(
        site.config.generate_tags_pages == Some(true),
        taxonomy_plan(site, RenderList::Tags, rendered.tags),
    );
    let index = file_plan(
        joined(site.output_path, "index.html"@),
        injected_option(site.live_reload, rendered.index),
    );
    if categories.steps.contains(step) {
        lemma_followed_contains(pages, categories, step);
    }
    if followed_by(pages, categories).steps.contains(step) || tags.steps.contains(step) {
        lemma_followed_contains(followed_by(pages, categories), tags, step);
        lemma_followed_contains(followed_by(followed_by(pages, categories), tags), index, step);
    }
}

/// A build of the pages that is complete ends with writing the index page.
pub proof fn index_page_is_written_last(site: SiteModel, rendered: RenderedModel)
    requires
        site_plan(site, rendered).complete,
    ensures
        site_plan(site, rendered).steps.len() > 0,
        site_plan(site, rendered).steps.last() == index_step(
            site.output_path,
            site.live_reload,
            rendered.index,
        ),
{
}

/// A build of a taxonomy that is complete writes its list page, with what was rendered for it, and
/// the page of every term into the directory that its slug names.
pub proof fn terms_are_written(
    site: SiteModel,
    kind: RenderList,
    htmls: Seq<Option<Seq<char>>>,
    i: int,
)
    requires
        taxonomy_plan(site, kind, htmls).complete,
        0 <= i < terms_of(site, kind).len(),
    ensures
        taxonomy_plan(site, kind, htmls).steps.contains(
            index_step(taxonomy_directory(site.output_path, kind), site.live_reload, htmls[0]),
        ),
        taxonomy_plan(site, kind, htmls).steps.contains(
            index_step(
                joined(
                    taxonomy_directory(site.output_path, kind),
                    slug_of(terms_of(site, kind)[i].name),
                ),
                site.live_reload,
                htmls[i + 1],
            ),
        ),
{
    let terms = terms_of(site, kind);
    let live = site.live_reload;
    let directory = taxonomy_directory(site.output_path, kind);
    let first = complete_plan(seq![StepModel::CreateDirectory(directory)]);
    let second = file_plan(joined(directory, "index.html"@), injected_option(live, htmls[0]));
    let third = terms_plan(directory, live, terms, htmls);
    let list = index_step(directory, live, htmls[0]);
    let single = index_step(joined(directory, slug_of(terms[i].name)), live, htmls[i + 1]);
    assert(second.steps[0] == list);
    lemma_terms_written(directory, live, terms, htmls, i);
    lemma_followed_contains(second, third, list);
    lemma_followed_contains(second, third, single);
    lemma_followed_contains(first, followed_by(second, third), list);
    lemma_followed_contains(first, followed_by(second, third), single);
}

/// A build of the sections that is complete writes the page of every section, with what was rendered
/// for it, into the directory that the components of the section lead to.
pub proof fn sections_are_written(
    output: Seq<Seq<char>>,
    live: bool,
    sections: Seq<SectionModel>,
    htmls: Seq<Option<Seq<char>>>,
    i: int,
)
    requires
        sections_plan(output, live, sections, htmls).complete,
        0 <= i < sections.len(),
    ensures
        sections_plan(output, live, sections, htmls).steps.contains(
            index_step(nested(output, sections[i].components), live, htmls[i]),
        ),
    decreases sections.len(),
{
    let front = sections.drop_last();
    let n = sections.len() - 1;
    let before = sections_plan(output, live, front, htmls);
    let last = section_plan(output, live, sections[n], htmls[n]);
    let step = index_step(nested(output, sections[i].components), live, htmls[i]);
    if i < n {
        sections_are_written(output, live, front, htmls, i);
        assert(front[i] == sections[i]);
    } else {
        let first = complete_plan(ensure_steps(output, sections[n].components));
        let second = file_plan(
            joined(nested(output, sections[n].components), "index.html"@),
            injected_option(live, htmls[n]),
        );
        assert(second.steps[0] == step);
        lemma_followed_contains(first, second, step);
    }
    lemma_followed_contains(before, last, step);
}

/// Different static files are copied to different places.
pub proof fn static_targets_differ(a: Seq<Seq<char>>, b: Seq<Seq<char>>)
    requires
        is_static(a),
        is_static(b),
        static_target(a) == static_target(b),
    ensures
        a == b,
{
    let root = parsed("public"@);
    assert(static_target(a).skip(root.len() as int) == a.skip(1));
    assert(static_target(b).skip(root.len() as int) == b.skip(1));
    assert(a == seq![a[0]] + a.skip(1));
    assert(b == seq![b[0]] + b.skip(1));
}

/// A build deletes what was built before anything else is done, copies the static files at the end,
/// and goes through no stage twice. The feed is written if and only if it is asked for.
pub proof fn build_starts_fresh(with_feed: bool)
    ensures
        build_stages(with_feed)[0] == Stage::Clean,
        build_stages(with_feed).last() == Stage::StaticFiles,
        build_stages(with_feed).no_duplicates(),
        build_stages(with_feed).contains(Stage::RssFeed) <==> with_feed,
        build_stages(with_feed).contains(Stage::Pages),
        build_stages(with_feed).contains(Stage::Sitemap),
        build_stages(with_feed).contains(Stage::Robots),
        build_stages(with_feed).contains(Stage::Sections),
{
    let stages = build_stages(with_feed);
    assert(stages[1] == Stage::Pages);
    assert(stages[2] == Stage::Sitemap);
    if with_feed {
        assert(stages[3] == Stage::RssFeed);
        assert(stages[4] == Stage::Robots);
        assert(stages[5] == Stage::Sections);
    } else {
        assert(stages[3] == Stage::Robots);
        assert(stages[4] == Stage::Sections);
    }
}

proof fn lemma_pages_plan_complete(
    output: Seq<Seq<char>>,
    live: bool,
    pages: Seq<PageModel>,
    htmls: Seq<Option<Seq<char>>>,
)
    ensures
        pages_plan(output, live, pages, htmls).complete <==> forall|i: int|
            0 <= i < pages.len() ==> #[trigger] htmls[i] is Some,
    decreases pages.len(),
{
    if pages.len() > 0 {
        lemma_pages_plan_complete(output, live, pages.drop_last(), htmls);
        assert(page_plan(output, live, pages.last(), htmls[pages.len() - 1]).complete <==> htmls[
            pages.len() - 1] is Some);
    }
}

proof fn lemma_terms_plan_complete(
    directory: Seq<Seq<char>>,
    live: bool,
    terms: Seq<TermModel>,
    htmls: Seq<Option<Seq<char>>>,
)
    ensures
        terms_plan(directory, live, terms, htmls).complete <==> forall|i: int|
            1 <= i <= terms.len() ==> #[trigger] htmls[i] is Some,
    decreases terms.len(),
{
    if terms.len() > 0 {
        lemma_terms_plan_complete(directory, live, terms.drop_last(), htmls);
        assert(term_plan(directory, live, terms.last(), htmls[terms.len() as int]).complete
            <==> htmls[terms.len() as int] is Some);
    }
}

/// The plan for the pages of a taxonomy is complete if and only if all of them were rendered.
pub proof fn taxonomy_plan_is_complete(
    site: SiteModel,
    kind: RenderList,
    htmls: Seq<Option<Seq<char>>>,
)
    ensures
        taxonomy_plan(site, kind, htmls).complete <==> forall|i: int|
            0 <= i < taxonomy_size(terms_of(site, kind)) ==> #[trigger] htmls[i] is Some,
{
    let terms = terms_of(site, kind);
    let directory = taxonomy_directory(site.output_path, kind);
    lemma_terms_plan_complete(directory, site.live_reload, terms, htmls);
    if terms.len() > 0 {
        if taxonomy_plan(site, kind, htmls).complete {
            assert forall|i: int| 0 <= i < terms.len() + 1 implies #[trigger] htmls[i] is Some by {
                if i == 0 {
                    assert(injected_option(site.live_reload, htmls[0]) is Some);
                }
            }
        }
    }
}

/// The plan for the pages of a site is complete if and only if everything that it writes was
/// rendered.
pub proof fn site_plan_is_complete(site: SiteModel, rendered: RenderedModel)
    ensures
        site_plan(site, rendered).complete <==> {
            &&& forall|i: int| 0 <= i < site.pages.len() ==> #[trigger] rendered.pages[i] is Some
            &&& site.config.generate_categories_pages == Some(true) ==> taxonomy_plan(
                site,
                RenderList::Categories,
                rendered.categories,
            ).complete
            &&& site.config.generate_tags_pages == Some(true) ==> taxonomy_plan(
                site,
                RenderList::Tags,
                rendered.tags,
            ).complete
            &&& rendered.index is Some
        },
{
    lemma_pages_plan_complete(site.output_path, site.live_reload, site.pages, rendered.pages);
}

/// The plan for the pages of the sections is complete if and only if all of them were rendered.
pub proof fn sections_plan_is_complete(
    output: Seq<Seq<char>>,
    live: bool,
    sections: Seq<SectionModel>,
    htmls: Seq<Option<Seq<char>>>,
)
    ensures
        sections_plan(output, live, sections, htmls).complete <==> forall|i: int|
            0 <= i < sections.len() ==> #[trigger] htmls[i] is Some,
    decreases sections.len(),
{
    if sections.len() > 0 {
        sections_plan_is_complete(output, live, sections.drop_last(), htmls);
        assert(section_plan(output, live, sections.last(), htmls[sections.len() - 1]).complete
            <==> htmls[sections.len() - 1] is Some);
    }
}

proof fn lemma_makes_more(a: Seq<StepModel>, b: Seq<StepModel>, path: Seq<Seq<char>>)
    requires
        makes_directory(a, path) || makes_directory(b, path),
    ensures
        makes_directory(a + b, path),
{
    if makes_directory(a, path) {
        let i = choose|i: int|
            0 <= i < a.len() && (#[trigger] a[i] == StepModel::EnsureDirectory(path) || a[i]
                == StepModel::CreateDirectory(path));
        assert((a + b)[i] == a[i]);
    } else {
        let i = choose|i: int|
            0 <= i < b.len() && (#[trigger] b[i] == StepModel::EnsureDirectory(path) || b[i]
                == StepModel::CreateDirectory(path));
        assert((a + b)[a.len() + i] == b[i]);
    }
}

proof fn lemma_makes_one(a: Seq<StepModel>, b: Seq<StepModel>, path: Seq<Seq<char>>)
    requires
        makes_directory(a + b, path),
    ensures
        makes_directory(a, path) || makes_directory(b, path),
{
    let all = a + b;
    let i = choose|i: int|
        0 <= i < all.len() && (#[trigger] all[i] == StepModel::EnsureDirectory(path) || all[i]
            == StepModel::CreateDirectory(path));
    if i < a.len() {
        assert(a[i] == all[i]);
    } else {
        assert(b[i - a.len()] == all[i]);
    }
}

proof fn lemma_grounded_append(
    output: Seq<Seq<char>>,
    before: Seq<StepModel>,
    a: Seq<StepModel>,
    b: Seq<StepModel>,
)
    requires
        are_grounded(output, before, a),
        are_grounded(output, before + a, b),
    ensures
        are_grounded(output, before, a + b),
{
    let all = a + b;
    assert forall|i: int| 0 <= i < all.len() implies is_grounded(
        output,
        before + all.take(i),
        #[trigger] all[i],
    ) by {
        if i < a.len() {
            assert(all.take(i) == a.take(i));
            assert(all[i] == a[i]);
        } else {
            assert(before + all.take(i) == before + a + b.take(i - a.len()));
            assert(all[i] == b[i - a.len()]);
        }
    }
}

proof fn lemma_grounded_one(output: Seq<Seq<char>>, before: Seq<StepModel>, step: StepModel)
    requires
        is_grounded(output, before, step),
    ensures
        are_grounded(output, before, seq![step]),
{
    assert(before + seq![step].take(0) == before);
}

proof fn lemma_grounded_followed(
    output: Seq<Seq<char>>,
    before: Seq<StepModel>,
    a: PlanModel,
    b: PlanModel,
)
    requires
        are_grounded(output, before, a.steps),
        a.complete ==> are_grounded(output, before + a.steps, b.steps),
    ensures
        are_grounded(output, before, followed_by(a, b).steps),
{
    if a.complete {
        lemma_grounded_append(output, before, a.steps, b.steps);
    }
}

/// What a piece without slashes does to a path.
proof fn lemma_piece(path: Seq<Seq<char>>, piece: Seq<char>)
    requires
        !piece.contains('/'),
    ensures
        joined(path, piece) == path || (joined(path, piece).len() > 0 && joined(
            path,
            piece,
        ).drop_last() == path),
        path.is_prefix_of(joined(path, piece)),
{
    if piece.len() > 0 {
        assert(piece.contains(piece[0]));
    }
    appending_keeps_what_is_there(path, piece);
    if piece.len() == 0 {
        assert(piece == Seq::<char>::empty());
        appending_nothing_changes_nothing(path);
    } else if piece == "."@ {
        crate::text::split_without_separator(piece, '/');
        let pieces = split(piece, '/');
        assert(pieces.drop_last() == Seq::<Seq<char>>::empty());
        assert(crate::path::extended(path, pieces.drop_last()) == path);
        assert(path.push(piece).drop_last() == path);
    } else {
        appended_name_comes_last(path, piece);
    }
}

proof fn lemma_prefix_trans(a: Seq<Seq<char>>, b: Seq<Seq<char>>, c: Seq<Seq<char>>)
    requires
        a.is_prefix_of(b),
        b.is_prefix_of(c),
    ensures
        a.is_prefix_of(c),
{
    assert(c.take(a.len() as int) == b.take(a.len() as int));
}

/// Whether no piece holds a slash.
pub open spec fn no_slashes(pieces: Seq<Seq<char>>) -> bool {
    forall|i: int| 0 <= i < pieces.len() ==> !(#[trigger] pieces[i]).contains('/')
}

proof fn lemma_ensure_grounded(
    output: Seq<Seq<char>>,
    before: Seq<StepModel>,
    pieces: Seq<Seq<char>>,
)
    requires
        no_slashes(pieces),
        makes_directory(before, output),
    ensures
        are_grounded(output, before, ensure_steps(output, pieces)),
        output.is_prefix_of(nested(output, pieces)),
        makes_directory(before + ensure_steps(output, pieces), nested(output, pieces)),
    decreases pieces.len(),
{
    let steps = ensure_steps(output, pieces);
    if pieces.len() == 0 {
        assert(output.take(output.len() as int) == output);
        assert(before + steps == before);
    } else {
        let front = pieces.drop_last();
        assert(no_slashes(front)) by {
            assert forall|i: int| 0 <= i < front.len() implies !(#[trigger] front[i]).contains('/') by {
                assert(front[i] == pieces[i]);
            }
        }
        lemma_ensure_grounded(output, before, front);
        let last = pieces[pieces.len() - 1];
        let parent = nested(output, front);
        let path = nested(output, pieces);
        let step = StepModel::EnsureDirectory(path);
        lemma_piece(parent, last);
        lemma_prefix_trans(output, parent, path);
        let made = before + ensure_steps(output, front);
        assert(is_grounded(output, made, step));
        lemma_grounded_one(output, made, step);
        lemma_grounded_append(output, before, ensure_steps(output, front), seq![step]);
        assert(ensure_steps(output, front) + seq![step] == steps);
        assert((before + steps)[before.len() + steps.len() - 1] == step);
    }
}

/// A step that makes something of a name without slashes in a directory that was seen to can be
/// performed.
proof fn lemma_inside_grounded(
    output: Seq<Seq<char>>,
    before: Seq<StepModel>,
    directory: Seq<Seq<char>>,
    name: Seq<char>,
    step: StepModel,
)
    requires
        output.is_prefix_of(directory),
        makes_directory(before, directory),
        !name.contains('/'),
        target(step) == joined(directory, name),
    ensures
        is_grounded(output, before, step),
{
    lemma_piece(directory, name);
    lemma_prefix_trans(output, directory, target(step));
}

proof fn lemma_index_is_plain()
    ensures
        !"index.html"@.contains('/'),
{
    reveal_strlit("index.html");
}

proof fn lemma_file_grounded(
    output: Seq<Seq<char>>,
    before: Seq<StepModel>,
    directory: Seq<Seq<char>>,
    text: Option<Seq<char>>,
)
    requires
        output.is_prefix_of(directory),
        makes_directory(before, directory),
    ensures
        are_grounded(output, before, file_plan(joined(directory, "index.html"@), text).steps),
{
    lemma_index_is_plain();
    if let Some(t) = text {
        let step = StepModel::WriteFile { path: joined(directory, "index.html"@), text: t };
        lemma_inside_grounded(output, before, directory, "index.html"@, step);
        lemma_grounded_one(output, before, step);
    }
}

/// What is made for a page is made below the output directory and in directories that were seen to
/// before.
pub(crate) proof fn lemma_page_grounded(
    output: Seq<Seq<char>>,
    live: bool,
    page: PageModel,
    html: Option<Seq<char>>,
)
    requires
        html is Some ==> forall|j: int|
            0 <= j < page.assets.len() ==> !(#[trigger] page.assets[j]).last().contains('/'),
    ensures
        are_grounded(
            output,
            seq![StepModel::EnsureDirectory(output)],
            page_plan(output, live, page, html).steps,
        ),
{
    let before = seq![StepModel::EnsureDirectory(output)];
    assert(before[0] == StepModel::EnsureDirectory(output));
    assert(makes_directory(before, output));
    let pieces = split(page.path, '/');
    split_pieces_join(page.path, '/');
    assert(no_slashes(pieces));
    lemma_ensure_grounded(output, before, pieces);
    let directory = page_directory(output, page);
    let ensured = ensure_steps(output, pieces);
    let create = StepModel::CreateDirectory(directory);
    let first = complete_plan(ensured.push(create));
    let second = file_plan(joined(directory, "index.html"@), injected_option(live, html));
    let copies = copy_steps(directory, page.assets);
    let third = complete_plan(copies);
    assert(is_grounded(output, before + ensured, create));
    lemma_grounded_one(output, before + ensured, create);
    lemma_grounded_append(output, before, ensured, seq![create]);
    assert(ensured + seq![create] == ensured.push(create));
    let made = before + first.steps;
    assert(made[made.len() - 1] == create);
    assert(makes_directory(made, directory));
    lemma_file_grounded(output, made, directory, injected_option(live, html));
    let written = made + second.steps;
    lemma_makes_more(made, second.steps, directory);
    if html is Some {
        assert forall|i: int| 0 <= i < copies.len() implies is_grounded(
            output,
            written + copies.take(i),
            #[trigger] copies[i],
        ) by {
            lemma_makes_more(written, copies.take(i), directory);
            assert(!page.assets[i].last().contains('/'));
            lemma_inside_grounded(
                output,
                written + copies.take(i),
                directory,
                page.assets[i].last(),
                copies[i],
            );
        }
    }
    lemma_grounded_followed(output, made, second, third);
    lemma_grounded_followed(output, before, first, followed_by(second, third));
}

/// Of two plans that need the output directory only, so does one after the other.
pub(crate) proof fn lemma_both_grounded(output: Seq<Seq<char>>, a: PlanModel, b: PlanModel)
    requires
        are_grounded(output, seq![StepModel::EnsureDirectory(output)], a.steps),
        are_grounded(output, seq![StepModel::EnsureDirectory(output)], b.steps),
    ensures
        are_grounded(output, seq![StepModel::EnsureDirectory(output)], followed_by(a, b).steps),
{
    let before = seq![StepModel::EnsureDirectory(output)];
    assert(before[0] == StepModel::EnsureDirectory(output));
    lemma_makes_more(before, a.steps, output);
    lemma_grounded_after_output(output, before + a.steps, b.steps);
    lemma_grounded_followed(output, before, a, b);
}

/// Whether the slugs of all the terms are slugs.
pub open spec fn slugs_are_slugs(terms: Seq<TermModel>) -> bool {
    forall|i: int| 0 <= i < terms.len() ==> is_slug(slug_of(#[trigger] terms[i].name))
}

proof fn lemma_slug_has_no_slash(slug: Seq<char>)
    requires
        is_slug(slug),
    ensures
        !slug.contains('/'),
{
    if slug.contains('/') {
        let i = choose|i: int| 0 <= i < slug.len() && slug[i] == '/';
        assert(crate::taxonomy::is_slug_char(slug[i]));
    }
}

proof fn lemma_terms_grounded(
    output: Seq<Seq<char>>,
    before: Seq<StepModel>,
    directory: Seq<Seq<char>>,
    live: bool,
    terms: Seq<TermModel>,
    htmls: Seq<Option<Seq<char>>>,
)
    requires
        output.is_prefix_of(directory),
        makes_directory(before, directory),
        slugs_are_slugs(terms),
    ensures
        are_grounded(output, before, terms_plan(directory, live, terms, htmls).steps),
    decreases terms.len(),
{
    if terms.len() > 0 {
        let front = terms.drop_last();
        let n = terms.len() as int;
        assert(slugs_are_slugs(front)) by {
            assert forall|i: int| 0 <= i < front.len() implies is_slug(
                slug_of(#[trigger] front[i].name),
            ) by {
                assert(front[i] == terms[i]);
            }
        }
        lemma_terms_grounded(output, before, directory, live, front, htmls);
        let so_far = terms_plan(directory, live, front, htmls);
        let made = before + so_far.steps;
        let term = terms[n - 1];
        assert(is_slug(slug_of(terms[n - 1].name)));
        lemma_slug_has_no_slash(slug_of(term.name));
        lemma_makes_more(before, so_far.steps, directory);
        let own = joined(directory, slug_of(term.name));
        let plan = term_plan(directory, live, term, htmls[n]);
        if let Some(text) = htmls[n] {
            let create = StepModel::CreateDirectory(own);
            lemma_inside_grounded(output, made, directory, slug_of(term.name), create);
            lemma_grounded_one(output, made, create);
            let created = made + seq![create];
            assert(created[made.len() as int] == create);
            lemma_piece(directory, slug_of(term.name));
            lemma_prefix_trans(output, directory, own);
            let file = file_plan(joined(own, "index.html"@), Some(injected(live, text)));
            lemma_file_grounded(output, created, own, Some(injected(live, text)));
            lemma_grounded_append(output, made, seq![create], file.steps);
            assert(plan.steps == seq![create] + file.steps);
        }
        lemma_grounded_followed(output, before, so_far, plan);
    }
}

proof fn lemma_list_name_is_plain(kind: RenderList)
    ensures
        !list_name(kind).contains('/'),
{
    reveal_strlit("categories");
    reveal_strlit("tags");
}

/// What is made for the list page of a taxonomy, and for the pages of the first of its terms, is
/// made below the output directory and in directories that were seen to before.
pub(crate) proof fn lemma_taxonomy_grounded(
    site: SiteModel,
    kind: RenderList,
    terms: Seq<TermModel>,
    htmls: Seq<Option<Seq<char>>>,
)
    requires
        slugs_are_slugs(terms),
    ensures
        are_grounded(
            site.output_path,
            seq![StepModel::EnsureDirectory(site.output_path)],
            followed_by(
                complete_plan(
                    seq![StepModel::CreateDirectory(taxonomy_directory(site.output_path, kind))],
                ),
                followed_by(
                    file_plan(
                        joined(taxonomy_directory(site.output_path, kind), "index.html"@),
                        injected_option(site.live_reload, htmls[0]),
                    ),
                    terms_plan(
                        taxonomy_directory(site.output_path, kind),
                        site.live_reload,
                        terms,
                        htmls,
                    ),
                ),
            ).steps,
        ),
{
    let output = site.output_path;
    let before = seq![StepModel::EnsureDirectory(output)];
    assert(before[0] == StepModel::EnsureDirectory(output));
    let directory = taxonomy_directory(output, kind);
    let create = StepModel::CreateDirectory(directory);
    let first = complete_plan(seq![create]);
    let text = injected_option(site.live_reload, htmls[0]);
    let second = file_plan(joined(directory, "index.html"@), text);
    let third = terms_plan(directory, site.live_reload, terms, htmls);
    lemma_list_name_is_plain(kind);
    assert(output.take(output.len() as int) == output);
    lemma_inside_grounded(output, before, output, list_name(kind), create);
    lemma_grounded_one(output, before, create);
    lemma_piece(output, list_name(kind));
    let created = before + first.steps;
    assert(created[before.len() as int] == create);
    lemma_file_grounded(output, created, directory, text);
    lemma_makes_more(created, second.steps, directory);
    lemma_terms_grounded(
        output,
        created + second.steps,
        directory,
        site.live_reload,
        terms,
        htmls,
    );
    lemma_grounded_followed(output, created, second, third);
    lemma_grounded_followed(output, before, first, followed_by(second, third));
}

proof fn lemma_grounded_later(
    output: Seq<Seq<char>>,
    before: Seq<StepModel>,
    later: Seq<StepModel>,
    steps: Seq<StepModel>,
)
    requires
        are_grounded(output, before, steps),
        forall|path: Seq<Seq<char>>|
            makes_directory(before, path) ==> #[trigger] makes_directory(later, path),
    ensures
        are_grounded(output, later, steps),
{
    assert forall|i: int| 0 <= i < steps.len() implies is_grounded(
        output,
        later + steps.take(i),
        #[trigger] steps[i],
    ) by {
        let path = target(steps[i]);
        let done = steps.take(i);
        assert(is_grounded(output, before + done, steps[i]));
        if makes_directory(before + done, path) {
            lemma_makes_one(before, done, path);
            assert(makes_directory(before, path) ==> makes_directory(later, path));
            lemma_makes_more(later, done, path);
        }
        if makes_directory(before + done, path.drop_last()) {
            lemma_makes_one(before, done, path.drop_last());
            assert(makes_directory(before, path.drop_last()) ==> makes_directory(
                later,
                path.drop_last(),
            ));
            lemma_makes_more(later, done, path.drop_last());
        }
    }
}

/// After the output directory was seen to, steps that need nothing else can be performed.
proof fn lemma_grounded_after_output(
    output: Seq<Seq<char>>,
    before: Seq<StepModel>,
    steps: Seq<StepModel>,
)
    requires
        makes_directory(before, output),
        are_grounded(output, seq![StepModel::EnsureDirectory(output)], steps),
    ensures
        are_grounded(output, before, steps),
{
    let start = seq![StepModel::EnsureDirectory(output)];
    assert forall|path: Seq<Seq<char>>| makes_directory(start, path) implies #[trigger] makes_directory(
        before,
        path,
    ) by {}
    lemma_grounded_later(output, start, before, steps);
}

/// What is made for the pages of a site is made below the output directory, and every file and
/// directory in a directory that the plan has seen to before, if that holds of the parts.
pub(crate) proof fn lemma_site_plan_grounded(site: SiteModel, rendered: RenderedModel)
    requires
        are_grounded(
            site.output_path,
            seq![StepModel::EnsureDirectory(site.output_path)],
            pages_plan(site.output_path, site.live_reload, site.pages, rendered.pages).steps,
        ),
        site.config.generate_categories_pages == Some(true) && pages_plan(
            site.output_path,
            site.live_reload,
            site.pages,
            rendered.pages,
        ).complete ==> are_grounded(
            site.output_path,
            seq![StepModel::EnsureDirectory(site.output_path)],
            taxonomy_plan(site, RenderList::Categories, rendered.categories).steps,
        ),
        site.config.generate_tags_pages == Some(true) && pages_plan(
            site.output_path,
            site.live_reload,
            site.pages,
            rendered.pages,
        ).complete && (site.config.generate_categories_pages == Some(true) ==> taxonomy_plan(
            site,
            RenderList::Categories,
            rendered.categories,
        ).complete) ==> are_grounded(
            site.output_path,
            seq![StepModel::EnsureDirectory(site.output_path)],
            taxonomy_plan(site, RenderList::Tags, rendered.tags).steps,
        ),
    ensures
        are_grounded(site.output_path, Seq::empty(), site_plan(site, rendered).steps),
{
    let output = site.output_path;
    let none = Seq::<StepModel>::empty();
    let ensure = StepModel::EnsureDirectory(output);
    let start = complete_plan(seq![ensure]);
    assert(output.take(output.len() as int) == output);
    assert(is_grounded(output, none, ensure));
    lemma_grounded_one(output, none, ensure);
    assert(start.steps[0] == ensure);
    assert(makes_directory(start.steps, output));
    assert(none + start.steps == start.steps);
    let pages = pages_plan(output, site.live_reload, site.pages, rendered.pages);
    lemma_grounded_followed(output, none, start, pages);
    let a = followed_by(start, pages);
    lemma_makes_more(start.steps, pages.steps, output);
    assert(none + a.steps == a.steps);
    let categories = plan_if(
        site.config.generate_categories_pages == Some(true),
        taxonomy_plan(site, RenderList::Categories, rendered.categories),
    );
    if a.complete && site.config.generate_categories_pages == Some(true) {
        lemma_grounded_after_output(output, a.steps, categories.steps);
    }
    lemma_grounded_followed(output, none, a, categories);
    let b = followed_by(a, categories);
    lemma_makes_more(a.steps, categories.steps, output);
    assert(none + b.steps == b.steps);
    let tags = plan_if(
        site.config.generate_tags_pages == Some(true),
        taxonomy_plan(site, RenderList::Tags, rendered.tags),
    );
    if b.complete && site.config.generate_tags_pages == Some(true) {
        lemma_grounded_after_output(output, b.steps, tags.steps);
    }
    lemma_grounded_followed(output, none, b, tags);
    let c = followed_by(b, tags);
    lemma_makes_more(b.steps, tags.steps, output);
    assert(none + c.steps == c.steps);
    let text = injected_option(site.live_reload, rendered.index);
    lemma_file_grounded(output, c.steps, output, text);
    lemma_grounded_followed(output, none, c, file_plan(joined(output, "index.html"@), text));
}

/// Everything that is made for the pages of sections lies below the output directory, and every file
/// and directory is made in a directory that was seen to before, if the output directory was.
pub proof fn sections_plan_is_grounded(
    output: Seq<Seq<char>>,
    before: Seq<StepModel>,
    live: bool,
    sections: Seq<SectionModel>,
    htmls: Seq<Option<Seq<char>>>,
)
    requires
        makes_directory(before, output),
        forall|i: int| 0 <= i < sections.len() ==> no_slashes(#[trigger] sections[i].components),
    ensures
        are_grounded(output, before, sections_plan(output, live, sections, htmls).steps),
    decreases sections.len(),
{
    if sections.len() > 0 {
        let front = sections.drop_last();
        let n = sections.len() - 1;
        assert forall|i: int| 0 <= i < front.len() implies no_slashes(
            #[trigger] front[i].components,
        ) by {
            assert(front[i] == sections[i]);
        }
        sections_plan_is_grounded(output, before, live, front, htmls);
        let so_far = sections_plan(output, live, front, htmls);
        let made = before + so_far.steps;
        lemma_makes_more(before, so_far.steps, output);
        assert(no_slashes(sections[n].components));
        lemma_ensure_grounded(output, made, sections[n].components);
        let first = complete_plan(ensure_steps(output, sections[n].components));
        let directory = nested(output, sections[n].components);
        let text = injected_option(live, htmls[n]);
        let second = file_plan(joined(directory, "index.html"@), text);
        lemma_file_grounded(output, made + first.steps, directory, text);
        lemma_grounded_followed(output, made, first, second);
        lemma_grounded_followed(output, before, so_far, followed_by(first, second));
    }
}

proof fn lemma_dated_distinct(pages: Seq<PageModel>)
    requires
        distinct_files(pages),
    ensures
        distinct_files(dated(pages)),
    decreases pages.len(),
{
    reveal(Seq::filter);
    if pages.len() > 0 {
        let front = pages.drop_last();
        let has_date = |p: PageModel| p.date is Some;
        assert forall|i: int, j: int| 0 <= i < j < front.len() implies (#[trigger] front[i]).file_path
            != (#[trigger] front[j]).file_path by {
            assert(front[i] == pages[i] && front[j] == pages[j]);
        }
        lemma_dated_distinct(front);
        assert forall|i: int| 0 <= i < dated(front).len() implies (
        #[trigger] dated(front)[i]).file_path != pages.last().file_path by {
            assert(front.filter(has_date).contains(front.filter(has_date)[i]));
            front.lemma_filter_contains_rev(has_date, front.filter(has_date)[i]);
            let k = choose|k: int| 0 <= k < front.len() && front[k] == dated(front)[i];
            assert(pages[k] == front[k]);
        }
    }
}

proof fn lemma_sorted_distinct(pages: Seq<PageModel>)
    requires
        distinct_files(pages),
    ensures
        distinct_files(by_rank(pages)),
{
    let sorted = by_rank(pages);
    let ranks = pages.map_values(|p: PageModel| p.rank);
    let positions = order(ranks);
    order_sorts(ranks);
    assert forall|i: int, j: int| 0 <= i < j < sorted.len() implies (#[trigger] sorted[i]).file_path
        != (#[trigger] sorted[j]).file_path by {
        let a = positions[i];
        let b = positions[j];
        assert(a != b);
        assert(pages[a].file_path != pages[b].file_path);
    }
}

/// Whatever is among pages is among them in order.
proof fn lemma_sorted_contains(pages: Seq<PageModel>, page: PageModel)
    ensures
        by_rank(pages).contains(page) <==> pages.contains(page),
{
    broadcast use vstd::seq_lib::group_to_multiset_ensures;

    pages_are_sorted(pages);
    assert(by_rank(pages).to_multiset().count(page) == pages.to_multiset().count(page));
}

/// The feed holds pages of the site only, all with a date, each once, and in order. It holds all of
/// them, or as many as the limit says; then none that is left out comes before one that is not.
pub proof fn feed_holds_dated_pages(pages: Seq<PageModel>)
    ensures
        feed_pages(pages).len() == if dated(pages).len() <= FEED_LIMIT {
            dated(pages).len() as int
        } else {
            FEED_LIMIT as int
        },
        feed_pages(pages).len() == 0 <==> forall|i: int|
            0 <= i < pages.len() ==> (#[trigger] pages[i]).date is None,
        forall|i: int|
            0 <= i < feed_pages(pages).len() ==> (#[trigger] feed_pages(pages)[i]).date is Some
                && pages.contains(feed_pages(pages)[i]),
        distinct_files(pages) ==> distinct_files(feed_pages(pages)),
        forall|i: int, j: int|
            0 <= i < j < feed_pages(pages).len() ==> (#[trigger] feed_pages(pages)[i]).rank <= (
            #[trigger] feed_pages(pages)[j]).rank,
        forall|page: PageModel, i: int|
            #[trigger] pages.contains(page) && page.date is Some && !feed_pages(pages).contains(page)
                && 0 <= i < feed_pages(pages).len() ==> (#[trigger] feed_pages(pages)[i]).rank
                <= page.rank,
        dated(pages).len() <= FEED_LIMIT ==> feed_pages(pages).to_multiset() == dated(
            pages,
        ).to_multiset(),
{
    let has_date = |p: PageModel| p.date is Some;
    let found = dated(pages);
    let sorted = by_rank(found);
    let feed = feed_pages(pages);
    pages_are_sorted(found);
    assert forall|i: int| 0 <= i < feed.len() implies feed[i] == sorted[i] by {}
    assert forall|i: int| 0 <= i < feed.len() implies (#[trigger] feed[i]).date is Some
        && pages.contains(feed[i]) by {
        assert(sorted.contains(sorted[i]));
        lemma_sorted_contains(found, sorted[i]);
        let k = choose|k: int| 0 <= k < found.len() && found[k] == sorted[i];
        pages.lemma_filter_pred(has_date, k);
        pages.lemma_filter_contains_rev(has_date, found[k]);
    }
    if distinct_files(pages) {
        lemma_dated_distinct(pages);
        lemma_sorted_distinct(found);
        assert forall|i: int, j: int| 0 <= i < j < feed.len() implies (#[trigger] feed[i]).file_path
            != (#[trigger] feed[j]).file_path by {
            assert(sorted[i].file_path != sorted[j].file_path);
        }
    }
    assert forall|i: int, j: int| 0 <= i < j < feed.len() implies (#[trigger] feed[i]).rank <= (
    #[trigger] feed[j]).rank by {
        assert(sorted[i].rank <= sorted[j].rank);
    }
    assert forall|page: PageModel, i: int|
        #[trigger] pages.contains(page) && page.date is Some && !feed.contains(page) && 0 <= i
            < feed.len() implies (#[trigger] feed[i]).rank <= page.rank by {
        let at = choose|k: int| 0 <= k < pages.len() && pages[k] == page;
        pages.lemma_filter_contains(has_date, at);
        lemma_sorted_contains(found, page);
        let k = choose|k: int| 0 <= k < sorted.len() && sorted[k] == page;
        if k < feed.len() {
            assert(feed[k] == page);
        }
        assert(sorted[i].rank <= sorted[k].rank);
    }
    if found.len() > 0 {
        let first = found[0];
        pages.lemma_filter_pred(has_date, 0);
        assert(found.contains(first));
        pages.lemma_filter_contains_rev(has_date, first);
        let k = choose|k: int| 0 <= k < pages.len() && pages[k] == first;
        assert(pages[k].date is Some);
    } else {
        assert forall|i: int| 0 <= i < pages.len() implies (#[trigger] pages[i]).date is None by {
            if pages[i].date is Some {
                pages.lemma_filter_contains(has_date, i);
            }
        }
    }
}

/// The files that pages were read from.
pub open spec fn files_of(pages: Seq<PageModel>) -> Seq<Seq<Seq<char>>> {
    pages.map_values(|p: PageModel| p.file_path)
}

/// If linking the pages that the index page is to show has kept their files, the index page shows
/// these pages: every page of the site once, no others, and in order.
pub proof fn index_shows_every_page(site: SiteModel, linked: Seq<PageModel>)
    requires
        distinct_files(site.pages),
        files_of(linked) == files_of(by_rank(site.pages)),
    ensures
        index_request(site, linked).context["pages"@] == page_data(linked),
        linked.len() == site.pages.len(),
        distinct_files(linked),
        forall|i: int|
            0 <= i < linked.len() ==> has_page(site.pages, (#[trigger] linked[i]).file_path),
        forall|i: int|
            0 <= i < site.pages.len() ==> has_page(linked, (#[trigger] site.pages[i]).file_path),
        forall|i: int, j: int, a: int, b: int|
            0 <= i < j < linked.len() && 0 <= a < site.pages.len() && 0 <= b < site.pages.len() && (
            #[trigger] linked[i]).file_path == (#[trigger] site.pages[a]).file_path && (
            #[trigger] linked[j]).file_path == (#[trigger] site.pages[b]).file_path
                ==> site.pages[a].rank <= site.pages[b].rank,
{
    reveal_strlit("pages");
    reveal_strlit("sections");
    reveal_strlit("config");
    reveal_strlit("current_url");
    reveal_strlit("current_path");
    assert("pages"@.len() == 5 && "sections"@.len() == 8 && "config"@.len() == 6);
    assert("current_url"@.len() == 11 && "current_path"@.len() == 12);
    let sorted = by_rank(site.pages);
    let ranks = site.pages.map_values(|p: PageModel| p.rank);
    let positions = order(ranks);
    order_sorts(ranks);
    pages_are_sorted(site.pages);
    lemma_sorted_distinct(site.pages);
    assert(files_of(linked).len() == linked.len());
    assert forall|i: int| 0 <= i < linked.len() implies (#[trigger] linked[i]).file_path
        == site.pages[positions[i]].file_path && linked[i].file_path == sorted[i].file_path by {
        assert(files_of(linked)[i] == files_of(sorted)[i]);
    }
    assert forall|i: int, j: int| 0 <= i < j < linked.len() implies (#[trigger] linked[i]).file_path
        != (#[trigger] linked[j]).file_path by {
        assert(sorted[i].file_path != sorted[j].file_path);
    }
    assert forall|i: int| 0 <= i < site.pages.len() implies has_page(
        linked,
        (#[trigger] site.pages[i]).file_path,
    ) by {
        assert(positions.contains(i));
        let k = choose|k: int| 0 <= k < positions.len() && positions[k] == i;
        assert(linked[k].file_path == site.pages[i].file_path);
    }
    assert forall|i: int, j: int, a: int, b: int|
        0 <= i < j < linked.len() && 0 <= a < site.pages.len() && 0 <= b < site.pages.len() && (
        #[trigger] linked[i]).file_path == (#[trigger] site.pages[a]).file_path && (
        #[trigger] linked[j]).file_path == (#[trigger] site.pages[b]).file_path implies (
    site.pages[a].rank <= site.pages[b].rank) by {
        let x = positions[i];
        let y = positions[j];
        assert(site.pages[x].file_path == site.pages[a].file_path);
        assert(site.pages[y].file_path == site.pages[b].file_path);
        assert(x == a && y == b);
        assert(sorted[i].rank <= sorted[j].rank);
    }
}

/// A site where no page has a date has no feed: nothing is rendered, nothing is done, and nothing
/// fails. On any other site something is rendered, and written if it could be.
pub proof fn no_feed_without_dates(site: SiteModel, text: Option<Seq<char>>)
    ensures
        rss_request(site) is None <==> forall|i: int|
            0 <= i < site.pages.len() ==> (#[trigger] site.pages[i]).date is None,
        rss_request(site) is None ==> feed_plan(site, text) == complete_plan(Seq::empty()),
        rss_request(site) is Some ==> feed_plan(site, text) == file_plan(
            joined(site.output_path, "rss.xml"@),
            text,
        ),
{
    feed_holds_dated_pages(site.pages);
}

/// The address of the feed is the base address with one slash and the name of the feed after it.
pub proof fn feed_url_has_one_slash(base_url: Seq<char>)
    ensures
        base_url.is_prefix_of(feed_url(base_url)),
        "/feed.xml"@.is_suffix_of(feed_url(base_url)),
        feed_url(base_url.push('/')) == base_url.push('/') + "feed.xml"@,
        base_url.len() > 0 && base_url.last() != '/' ==> feed_url(base_url) == feed_url(
            base_url.push('/'),
        ),
{
    reveal_strlit("/feed.xml");
    reveal_strlit("feed.xml");
    reveal_strlit("/");
    let url = feed_url(base_url);
    assert(url.take(base_url.len() as int) == base_url);
    let tail = url.skip(url.len() - "/feed.xml"@.len());
    assert(tail == "/feed.xml"@);
    assert(base_url.push('/') + "feed.xml"@ == base_url + "/"@ + "feed.xml"@);
}

/// On a site whose tags are found for the first time, the page of a tag shows a page of the site if
/// and only if that page has the tag.
pub proof fn tag_pages_show_their_pages(site: SiteModel, i: int, page: PageModel)
    requires
        distinct_files(site.pages),
        site.tags.len() == 0,
        0 <= i < with_terms(site).tags.len(),
        site.pages.contains(page),
    ensures
        pages_of_term(site.pages, with_terms(site).tags[i]).contains(page) <==> has_tag(
            page,
            with_terms(site).tags[i].name,
        ),
{
    let terms = with_terms(site).tags;
    let term = terms[i];
    tags_list_their_pages(site.tags, site.pages, term.name);
    files_with_tag_are_of_its_pages(site.pages, term.name, page.file_path);
    lemma_pages_under(terms, i);
    assert(!is_listed(site.tags, term.name));
    assert(pages_under(site.tags, term.name) + files_with_tag(site.pages, term.name)
        == files_with_tag(site.pages, term.name));
    lemma_pages_of_term(site.pages, term, page);
    lemma_same_file(site.pages, page);
}

/// On a site whose categories are found for the first time, the page of a category shows a page of
/// the site if and only if that page has the category.
pub proof fn category_pages_show_their_pages(site: SiteModel, i: int, page: PageModel)
    requires
        distinct_files(site.pages),
        site.categories.len() == 0,
        0 <= i < with_terms(site).categories.len(),
        site.pages.contains(page),
    ensures
        pages_of_term(site.pages, with_terms(site).categories[i]).contains(page) <==> page.category
            == Some(with_terms(site).categories[i].name),
{
    let terms = with_terms(site).categories;
    let term = terms[i];
    categories_list_their_pages(site.categories, site.pages, term.name);
    files_in_category_are_of_its_pages(site.pages, term.name, page.file_path);
    lemma_pages_under(terms, i);
    assert(!is_listed(site.categories, term.name));
    assert(pages_under(site.categories, term.name) + files_in_category(site.pages, term.name)
        == files_in_category(site.pages, term.name));
    lemma_pages_of_term(site.pages, term, page);
    lemma_same_file(site.pages, page);
}

proof fn lemma_same_file(pages: Seq<PageModel>, page: PageModel)
    requires
        distinct_files(pages),
        pages.contains(page),
    ensures
        forall|i: int|
            0 <= i < pages.len() && (#[trigger] pages[i]).file_path == page.file_path ==> pages[i]
                == page,
        exists|i: int| 0 <= i < pages.len() && (#[trigger] pages[i]).file_path == page.file_path,
{
    let k = choose|k: int| 0 <= k < pages.len() && pages[k] == page;
    assert(pages[k].file_path == page.file_path);
}

proof fn lemma_pages_of_term(pages: Seq<PageModel>, term: TermModel, page: PageModel)
    requires
        pages.contains(page),
    ensures
        pages_of_term(pages, term).contains(page) <==> term.pages.contains(page.file_path),
{
    broadcast use vstd::seq_lib::group_to_multiset_ensures;

    let pred = |p: PageModel| term.pages.contains(p.file_path);
    let chosen = pages.filter(pred);
    pages_are_sorted(chosen);
    assert(pages_of_term(pages, term) == by_rank(chosen));
    assert(by_rank(chosen).to_multiset().count(page) == chosen.to_multiset().count(page));
    let k = choose|k: int| 0 <= k < pages.len() && pages[k] == page;
    if term.pages.contains(page.file_path) {
        pages.lemma_filter_contains(pred, k);
    }
    if chosen.contains(page) {
        let m = choose|m: int| 0 <= m < chosen.len() && chosen[m] == page;
        pages.lemma_filter_pred(pred, m);
    }
}

/// One page is rendered for each path of a taxonomy, in their order, and is told its own path and
/// permalink.
pub proof fn taxonomy_pages_know_their_place(site: SiteModel, kind: RenderList, urls: Seq<Seq<char>>)
    requires
        urls.len() == taxonomy_size(terms_of(site, kind)),
    ensures
        taxonomy_requests(site, kind, urls).len() == urls.len(),
        taxonomy_paths(kind, terms_of(site, kind)).len() == urls.len(),
        forall|i: int|
            0 <= i < urls.len() ==> {
                let context = (#[trigger] taxonomy_requests(site, kind, urls)[i]).context;
                &&& context["current_url"@] == Datum::Text(urls[i])
                &&& context["current_path"@] == Datum::Text(
                    "/"@ + taxonomy_paths(kind, terms_of(site, kind))[i],
                )
            },
{
    reveal_strlit("current_url");
    reveal_strlit("current_path");
    assert("current_url"@.len() != "current_path"@.len());
}

/// The permalinks that the pages of a taxonomy are told.
pub open spec fn told_urls(site: SiteModel, kind: RenderList, urls: Seq<Seq<char>>) -> Seq<Datum> {
    taxonomy_requests(site, kind, urls).map_values(|r: RequestModel| r.context["current_url"@])
}

/// The sitemap lists the permalinks that the pages of the tags and of the categories are told, if
/// these pages are generated, and none of them otherwise.
pub proof fn sitemap_lists_generated_pages(
    site: SiteModel,
    category_urls: Seq<Seq<char>>,
    tag_urls: Seq<Seq<char>>,
)
    requires
        category_urls.len() == taxonomy_size(site.categories),
        tag_urls.len() == taxonomy_size(site.tags),
    ensures
        sitemap_request(site, category_urls, tag_urls).context["categories"@] == Datum::List(
            if site.config.generate_categories_pages == Some(true) {
                told_urls(site, RenderList::Categories, category_urls)
            } else {
                Seq::empty()
            },
        ),
        sitemap_request(site, category_urls, tag_urls).context["tags"@] == Datum::List(
            if site.config.generate_tags_pages == Some(true) {
                told_urls(site, RenderList::Tags, tag_urls)
            } else {
                Seq::empty()
            },
        ),
{
    reveal_strlit("categories");
    reveal_strlit("tags");
    assert("categories"@.len() != "tags"@.len());
    taxonomy_pages_know_their_place(site, RenderList::Categories, category_urls);
    taxonomy_pages_know_their_place(site, RenderList::Tags, tag_urls);
    let as_text = |t: Seq<char>| Datum::Text(t);
    let categories = told_urls(site, RenderList::Categories, category_urls);
    assert forall|i: int| 0 <= i < category_urls.len() implies categories[i] == Datum::Text(
        category_urls[i],
    ) by {
        let request = taxonomy_requests(site, RenderList::Categories, category_urls)[i];
        assert(request.context["current_url"@] == Datum::Text(category_urls[i]));
    }
    assert(category_urls.map_values(as_text) == categories);
    let tags = told_urls(site, RenderList::Tags, tag_urls);
    assert forall|i: int| 0 <= i < tag_urls.len() implies tags[i] == Datum::Text(tag_urls[i]) by {
        let request = taxonomy_requests(site, RenderList::Tags, tag_urls)[i];
        assert(request.context["current_url"@] == Datum::Text(tag_urls[i]));
    }
    assert(tag_urls.map_values(as_text) == tags);
    let none = Seq::<Seq<char>>::empty();
    assert(none.map_values(as_text) == Seq::<Datum>::empty());
    assert(text_data(category_urls) == Datum::List(categories));
    assert(text_data(tag_urls) == Datum::List(tags));
    assert(text_data(none) == Datum::List(Seq::empty()));
}

/// A pattern of files has no backslashes but those that it is written with.
pub proof fn globs_have_forward_slashes(directory: Seq<char>, pattern: Seq<char>)
    requires
        !pattern.contains('\\'),
    ensures
        !glob_below(directory, pattern).contains('\\'),
{
    reveal_strlit("\\");
    reveal_strlit("/");
    assert("\\"@ == seq!['\\']);
    assert("/"@ == seq!['/']);
    replaced_char_is_gone(directory, '\\', '/');
    let root = replace_all(directory, "\\"@, "/"@);
    let glob = glob_below(directory, pattern);
    if glob.contains('\\') {
        let k = choose|k: int| 0 <= k < glob.len() && glob[k] == '\\';
        if k < root.len() {
            assert(root[k] == '\\');
        } else if k > root.len() {
            assert(pattern[k - root.len() - 1] == '\\');
        }
    }
}

} // verus!
