//! What is done to the file system, whatever is in the site.

use vstd::prelude::*;

use crate::content::{PageModel, SectionModel};
use crate::output_laws::{index_step, no_slashes};
use crate::path::{
    appended_name_comes_last, appending_nothing_changes_nothing, extended, joined, parsed,
};
use crate::plan::{complete_plan, file_plan, followed_by, PlanModel, StepModel};
use crate::render::terms_of;
use crate::site::{glob_below, SiteModel};
use crate::stages::{
    build_stages, copy_steps, ensure_steps, feed_plan, injected, injected_option, nested,
    own_pages_plan, page_directory, page_plan, pages_plan, plan_if, section_plan, sections_plan,
    site_plan, static_steps, taxonomy_directory, taxonomy_plan, term_plan, terms_plan, RenderedModel,
    Stage, StaticModel,
};
use crate::taxonomy::{slug_of, RenderList, TermModel};
use crate::text::{
    first_occurrence_is_replaced, nothing_to_replace, occurs_at, replace_all,
    replaced_char_changes_everywhere, split, split_pieces_join, split_without_separator,
};

verus! {

/// In live reload mode the first end of a body is replaced by the script that reloads the page and
/// that end; what comes before it stays, and the rest is treated in the same way. A text without an
/// end of a body stays as it is, and so does every text when the mode is off.
pub proof fn script_takes_the_place_of_body_ends(html: Seq<char>, at: int)
    ensures
        injected(false, html) == html,
        occurs_at(html, "</body>"@, at) && (forall|i: int|
            0 <= i < at ==> !occurs_at(html, "</body>"@, i)) ==> injected(true, html) == html.take(
            at,
        ) + "<script src=\"/livereload.js?port=1112&mindelay=10\"></script></body>"@ + injected(
            true,
            html.skip(at + 7),
        ),
        (forall|i: int| !occurs_at(html, "</body>"@, i)) ==> injected(true, html) == html,
{
    reveal_strlit("</body>");
    assert("</body>"@.len() == 7);
    let script = "<script src=\"/livereload.js?port=1112&mindelay=10\"></script></body>"@;
    if occurs_at(html, "</body>"@, at) && (forall|i: int|
        0 <= i < at ==> !occurs_at(html, "</body>"@, i)) {
        first_occurrence_is_replaced(html, "</body>"@, script, at);
    }
    if forall|i: int| !occurs_at(html, "</body>"@, i) {
        nothing_to_replace(html, "</body>"@, script);
    }
}

/// A pattern of files is the directory with its backslashes turned, a slash, and the pattern.
pub proof fn globs_keep_the_directory(directory: Seq<char>, pattern: Seq<char>)
    ensures
        glob_below(directory, pattern) == Seq::new(
            directory.len(),
            |i: int| if directory[i] == '\\' {
                '/'
            } else {
                directory[i]
            },
        ).push('/') + pattern,
{
    reveal_strlit("\\");
    reveal_strlit("/");
    assert("\\"@ == seq!['\\']);
    assert("/"@ == seq!['/']);
    replaced_char_changes_everywhere(directory, '\\', '/');
    let root = replace_all(directory, "\\"@, "/"@);
    let turned = Seq::new(
        directory.len(),
        |i: int| if directory[i] == '\\' {
            '/'
        } else {
            directory[i]
        },
    );
    assert(root =~= turned);
    assert(root + "/"@ + pattern =~= turned.push('/') + pattern);
}

/// Of a piece: whether it leads on, and does not stay where it is.
pub open spec fn leads_on() -> spec_fn(Seq<char>) -> bool {
    |piece: Seq<char>| piece.len() > 0 && piece != "."@
}

/// Appending pieces without slashes, one by one, appends those of them that lead on.
pub proof fn nesting_appends_the_pieces(base: Seq<Seq<char>>, pieces: Seq<Seq<char>>)
    requires
        base.len() > 0,
        no_slashes(pieces),
    ensures
        nested(base, pieces) == base + pieces.filter(leads_on()),
    decreases pieces.len(),
{
    reveal(Seq::filter);
    if pieces.len() > 0 {
        let front = pieces.drop_last();
        let last = pieces[pieces.len() - 1];
        assert(no_slashes(front)) by {
            assert forall|i: int| 0 <= i < front.len() implies !(#[trigger] front[i]).contains('/') by {
                assert(front[i] == pieces[i]);
            }
        }
        nesting_appends_the_pieces(base, front);
        let path = nested(base, front);
        assert(!last.contains('/'));
        if last.len() == 0 {
            assert(last == Seq::<char>::empty());
            appending_nothing_changes_nothing(path);
        } else if last == "."@ {
            lemma_staying(path, last);
        } else {
            appended_name_comes_last(path, last);
            assert((base + front.filter(leads_on())).push(last) =~= base + front.filter(
                leads_on(),
            ).push(last));
        }
    } else {
        assert(pieces.filter(leads_on()) == Seq::<Seq<char>>::empty());
        assert(base + Seq::<Seq<char>>::empty() =~= base);
    }
}

proof fn lemma_staying(path: Seq<Seq<char>>, piece: Seq<char>)
    requires
        path.len() > 0,
        piece == "."@,
        !piece.contains('/'),
        piece.len() > 0,
    ensures
        joined(path, piece) == path,
{
    split_without_separator(piece, '/');
    let pieces = split(piece, '/');
    assert(piece.contains(piece[0]));
    assert(pieces.drop_last() == Seq::<Seq<char>>::empty());
    assert(extended(path, pieces.drop_last()) == path);
}

/// The directory of a page is the output directory with the pieces of the page's path below it.
pub proof fn page_directory_follows_its_path(output: Seq<Seq<char>>, page: PageModel)
    requires
        output.len() > 0,
    ensures
        page_directory(output, page) == output + split(page.path, '/').filter(leads_on()),
{
    split_pieces_join(page.path, '/');
    nesting_appends_the_pieces(output, split(page.path, '/'));
}

/// The step that writes the page of a directory writes the file `index.html` right in it.
pub proof fn index_step_writes_an_index_file(
    directory: Seq<Seq<char>>,
    live: bool,
    html: Option<Seq<char>>,
)
    requires
        html is Some,
    ensures
        index_step(directory, live, html) == (StepModel::WriteFile {
            path: directory.push("index.html"@),
            text: injected(live, html->0),
        }),
{
    reveal_strlit("index.html");
    reveal_strlit(".");
    assert("index.html"@.len() == 10 && "."@.len() == 1);
    appended_name_comes_last(directory, "index.html"@);
}

/// The pages of the tags are built in the directory `tags`, those of the categories in `categories`,
/// each right in the output directory; the directory of a term is named by its slug.
pub proof fn taxonomies_have_their_directories(output: Seq<Seq<char>>, slug: Seq<char>)
    requires
        slug.len() > 0,
        !slug.contains('/'),
        slug != "."@,
    ensures
        taxonomy_directory(output, RenderList::Tags) == output.push("tags"@),
        taxonomy_directory(output, RenderList::Categories) == output.push("categories"@),
        joined(taxonomy_directory(output, RenderList::Tags), slug) == output.push("tags"@).push(slug),
        joined(taxonomy_directory(output, RenderList::Categories), slug) == output.push(
            "categories"@,
        ).push(slug),
{
    reveal_strlit("tags");
    reveal_strlit("categories");
    reveal_strlit(".");
    assert("tags"@.len() == 4 && "categories"@.len() == 10 && "."@.len() == 1);
    appended_name_comes_last(output, "tags"@);
    appended_name_comes_last(output, "categories"@);
    appended_name_comes_last(output.push("tags"@), slug);
    appended_name_comes_last(output.push("categories"@), slug);
}

/// One plan after another: the steps of both if the first is complete, those of the first otherwise.
/// A text that was rendered is written, and a plan for one that was not breaks off.
pub proof fn plans_are_put_together(
    a: PlanModel,
    b: PlanModel,
    path: Seq<Seq<char>>,
    text: Seq<char>,
)
    ensures
        followed_by(a, b).steps == if a.complete {
            a.steps + b.steps
        } else {
            a.steps
        },
        followed_by(a, b).complete <==> a.complete && b.complete,
        file_plan(path, Some(text)).complete,
        file_plan(path, Some(text)).steps == seq![StepModel::WriteFile { path, text }],
        !file_plan(path, None).complete,
        file_plan(path, None).steps.len() == 0,
{
}

/// The feed is written to `rss.xml` right in the output directory, if it was rendered.
pub proof fn feed_is_written_to_its_file(site: SiteModel, text: Seq<char>)
    requires
        exists|i: int| 0 <= i < site.pages.len() && (#[trigger] site.pages[i]).date is Some,
    ensures
        feed_plan(site, Some(text)).complete,
        feed_plan(site, Some(text)).steps == seq![
            StepModel::WriteFile { path: site.output_path.push("rss.xml"@), text },
        ],
        !feed_plan(site, None).complete,
        feed_plan(site, None).steps.len() == 0,
{
    reveal_strlit("rss.xml");
    reveal_strlit(".");
    assert("rss.xml"@.len() == 7 && "."@.len() == 1);
    appended_name_comes_last(site.output_path, "rss.xml"@);
    crate::output_laws::no_feed_without_dates(site, None);
    crate::output_laws::no_feed_without_dates(site, Some(text));
}

/// A build deletes what was there, builds the pages, writes the sitemap, the feed if it is asked for,
/// and the file for robots, builds the sections, and copies the static files, in this order.
pub proof fn stages_come_in_order(with_feed: bool)
    ensures
        build_stages(with_feed).len() == if with_feed {
            7int
        } else {
            6int
        },
        ({
            let stages = build_stages(with_feed);
            let shift = if with_feed {
                1int
            } else {
                0int
            };
            &&& stages[0] == Stage::Clean
            &&& stages[1] == Stage::Pages
            &&& stages[2] == Stage::Sitemap
            &&& with_feed ==> stages[3] == Stage::RssFeed
            &&& stages[3 + shift] == Stage::Robots
            &&& stages[4 + shift] == Stage::Sections
            &&& stages[5 + shift] == Stage::StaticFiles
        }),
{
}

/// Something is done about every static file and directory, in their order: each goes to the same
/// place below `public` that it has below `static`. Directories are made, files are copied over what
/// is there.
pub proof fn static_files_keep_their_places(entries: Seq<StaticModel>, i: int)
    requires
        0 <= i < entries.len(),
    ensures
        static_steps(entries).len() == entries.len(),
        ({
            let entry = entries[i];
            let step = static_steps(entries)[i];
            let to = seq!["public"@] + entry.path.skip(1);
            &&& entry.path.len() != 1 && entry.is_dir ==> step == StepModel::EnsureDirectory(to)
            &&& entry.path.len() != 1 && !entry.is_dir ==> step == StepModel::ReplaceFile {
                from: entry.path,
                to,
            }
            &&& entry.path.len() == 1 && entry.is_dir ==> step == StepModel::RequireDirectory(to)
            &&& entry.path.len() == 1 && !entry.is_dir ==> step == StepModel::ReplaceDirectory {
                from: entry.path,
                to,
            }
        }),
{
    public_is_one_component();
}

/// The path `public` has one component.
pub proof fn public_is_one_component()
    ensures
        parsed("public"@) == seq!["public"@],
{
    reveal_strlit("public");
    reveal_strlit(".");
    assert("public"@.len() == 6 && "."@.len() == 1);
    appended_name_comes_last(Seq::empty(), "public"@);
    assert(Seq::<Seq<char>>::empty().push("public"@) =~= seq!["public"@]);
}

proof fn lemma_first_stays(a: PlanModel, b: PlanModel, step: StepModel)
    requires
        a.steps.contains(step),
    ensures
        followed_by(a, b).steps.contains(step),
{
    let i = choose|i: int| 0 <= i < a.steps.len() && a.steps[i] == step;
    assert(followed_by(a, b).steps[i] == step);
}

proof fn lemma_second_comes(a: PlanModel, b: PlanModel, step: StepModel)
    requires
        a.complete,
        b.steps.contains(step),
    ensures
        followed_by(a, b).steps.contains(step),
{
    let i = choose|i: int| 0 <= i < b.steps.len() && b.steps[i] == step;
    assert(followed_by(a, b).steps[a.steps.len() + i] == step);
}

proof fn lemma_from_either(a: PlanModel, b: PlanModel, step: StepModel)
    requires
        followed_by(a, b).steps.contains(step),
    ensures
        a.steps.contains(step) || (a.complete && b.steps.contains(step)),
{
    let all = followed_by(a, b).steps;
    let i = choose|i: int| 0 <= i < all.len() && all[i] == step;
    if i < a.steps.len() {
        assert(a.steps[i] == step);
    } else {
        assert(b.steps[i - a.steps.len()] == step);
    }
}

/// Whether all of the first `n` texts were rendered.
pub open spec fn rendered_up_to(htmls: Seq<Option<Seq<char>>>, n: int) -> bool {
    forall|i: int| 0 <= i < n ==> #[trigger] htmls[i] is Some
}

/// Whether a step belongs to the building of a page: it sees to a directory that leads to the page's,
/// or makes sure of that one, or writes what was rendered for the page, or copies one of its assets.
pub open spec fn is_step_of_page(
    output: Seq<Seq<char>>,
    live: bool,
    page: PageModel,
    html: Option<Seq<char>>,
    step: StepModel,
) -> bool {
    let directory = page_directory(output, page);
    match step {
        StepModel::EnsureDirectory(path) => exists|k: int|
            1 <= k <= split(page.path, '/').len() && path == #[trigger] nested(
                output,
                split(page.path, '/').take(k),
            ),
        StepModel::CreateDirectory(path) => path == directory,
        StepModel::WriteFile { .. } => html is Some && step == index_step(directory, live, html),
        StepModel::CopyFile { from, to } => html is Some && exists|j: int|
            0 <= j < page.assets.len() && from == #[trigger] page.assets[j] && to == joined(
                directory,
                page.assets[j].last(),
            ),
        _ => false,
    }
}

proof fn lemma_ensure_steps(output: Seq<Seq<char>>, pieces: Seq<Seq<char>>, step: StepModel)
    ensures
        ensure_steps(output, pieces).contains(step) <==> exists|k: int|
            1 <= k <= pieces.len() && step == StepModel::EnsureDirectory(
                #[trigger] nested(output, pieces.take(k)),
            ),
    decreases pieces.len(),
{
    if pieces.len() > 0 {
        let front = pieces.drop_last();
        let n = pieces.len() as int;
        let before = ensure_steps(output, front);
        let all = ensure_steps(output, pieces);
        let last = StepModel::EnsureDirectory(nested(output, pieces));
        lemma_ensure_steps(output, front, step);
        assert(pieces.take(n) == pieces);
        assert forall|k: int| 0 <= k < n implies #[trigger] front.take(k) == pieces.take(k) by {}
        if all.contains(step) {
            let i = choose|i: int| 0 <= i < all.len() && all[i] == step;
            if i < before.len() {
                assert(before[i] == step);
                let k = choose|k: int|
                    1 <= k <= front.len() && step == StepModel::EnsureDirectory(
                        #[trigger] nested(output, front.take(k)),
                    );
                assert(front.take(k) == pieces.take(k));
                assert(step == StepModel::EnsureDirectory(nested(output, pieces.take(k))));
            } else {
                assert(step == StepModel::EnsureDirectory(nested(output, pieces.take(n))));
            }
        }
        if exists|k: int|
            1 <= k <= pieces.len() && step == StepModel::EnsureDirectory(
                #[trigger] nested(output, pieces.take(k)),
            ) {
            let k = choose|k: int|
                1 <= k <= pieces.len() && step == StepModel::EnsureDirectory(
                    #[trigger] nested(output, pieces.take(k)),
                );
            if k < n {
                assert(front.take(k) == pieces.take(k));
                assert(step == StepModel::EnsureDirectory(nested(output, front.take(k))));
                let i = choose|i: int| 0 <= i < before.len() && before[i] == step;
                assert(all[i] == step);
            } else {
                assert(all[n - 1] == last || all.last() == last);
                assert(all[all.len() - 1] == step);
            }
        }
    }
}

/// Exactly the steps that belong to a page make up its plan, if the page was rendered; if not, the
/// plan sees to the directories only.
pub proof fn page_is_built_by_its_steps(
    output: Seq<Seq<char>>,
    live: bool,
    page: PageModel,
    html: Option<Seq<char>>,
    step: StepModel,
)
    ensures
        page_plan(output, live, page, html).steps.contains(step) <==> is_step_of_page(
            output,
            live,
            page,
            html,
            step,
        ),
        page_plan(output, live, page, html).complete <==> html is Some,
{
    let pieces = split(page.path, '/');
    let directory = page_directory(output, page);
    let ensured = ensure_steps(output, pieces);
    let create = StepModel::CreateDirectory(directory);
    let first = complete_plan(ensured.push(create));
    let second = file_plan(joined(directory, "index.html"@), injected_option(live, html));
    let copies = copy_steps(directory, page.assets);
    let third = complete_plan(copies);
    let rest = followed_by(second, third);
    let whole = page_plan(output, live, page, html);
    lemma_ensure_steps(output, pieces, step);
    if whole.steps.contains(step) {
        lemma_from_either(first, rest, step);
        if first.steps.contains(step) {
            let i = choose|i: int| 0 <= i < first.steps.len() && first.steps[i] == step;
            if i < ensured.len() {
                assert(ensured[i] == step);
                let k = choose|k: int|
                    1 <= k <= pieces.len() && step == StepModel::EnsureDirectory(
                        #[trigger] nested(output, pieces.take(k)),
                    );
                assert(step->EnsureDirectory_0 == nested(output, pieces.take(k)));
            }
        } else {
            lemma_from_either(second, third, step);
            if second.steps.contains(step) {
                assert(html is Some);
            } else {
                let j = choose|j: int| 0 <= j < copies.len() && copies[j] == step;
                assert(page.assets[j] == step->CopyFile_from);
            }
        }
    }
    if is_step_of_page(output, live, page, html, step) {
        match step {
            StepModel::EnsureDirectory(path) => {
                let k = choose|k: int|
                    1 <= k <= pieces.len() && path == #[trigger] nested(output, pieces.take(k));
                assert(step == StepModel::EnsureDirectory(nested(output, pieces.take(k))));
                let i = choose|i: int| 0 <= i < ensured.len() && ensured[i] == step;
                assert(first.steps[i] == step);
                lemma_first_stays(first, rest, step);
            },
            StepModel::CreateDirectory(_) => {
                assert(first.steps[ensured.len() as int] == step);
                lemma_first_stays(first, rest, step);
            },
            StepModel::WriteFile { .. } => {
                assert(second.steps[0] == step);
                lemma_first_stays(second, third, step);
                lemma_second_comes(first, rest, step);
            },
            StepModel::CopyFile { from, to } => {
                let j = choose|j: int|
                    0 <= j < page.assets.len() && from == #[trigger] page.assets[j] && to == joined(
                        directory,
                        page.assets[j].last(),
                    );
                assert(copies[j] == step);
                lemma_second_comes(second, third, step);
                lemma_second_comes(first, rest, step);
            },
            _ => {},
        }
    }
}

/// The pages are built one after the other, each by its own steps, up to the first that was not
/// rendered: of that one only the directories are seen to, and of later ones nothing is done.
pub proof fn pages_are_built_up_to_a_failure(
    output: Seq<Seq<char>>,
    live: bool,
    pages: Seq<PageModel>,
    htmls: Seq<Option<Seq<char>>>,
    step: StepModel,
)
    ensures
        pages_plan(output, live, pages, htmls).steps.contains(step) <==> exists|i: int|
            0 <= i < pages.len() && rendered_up_to(htmls, i) && is_step_of_page(
                output,
                live,
                #[trigger] pages[i],
                htmls[i],
                step,
            ),
        pages_plan(output, live, pages, htmls).complete <==> rendered_up_to(
            htmls,
            pages.len() as int,
        ),
    decreases pages.len(),
{
    if pages.len() > 0 {
        let front = pages.drop_last();
        let n = pages.len() - 1;
        let before = pages_plan(output, live, front, htmls);
        let last = page_plan(output, live, pages[n], htmls[n]);
        pages_are_built_up_to_a_failure(output, live, front, htmls, step);
        page_is_built_by_its_steps(output, live, pages[n], htmls[n], step);
        assert(pages_plan(output, live, pages, htmls) == followed_by(before, last));
        if followed_by(before, last).steps.contains(step) {
            lemma_from_either(before, last, step);
            if before.steps.contains(step) {
                let i = choose|i: int|
                    0 <= i < front.len() && rendered_up_to(htmls, i) && is_step_of_page(
                        output,
                        live,
                        #[trigger] front[i],
                        htmls[i],
                        step,
                    );
                assert(pages[i] == front[i]);
            } else {
                assert(is_step_of_page(output, live, pages[n], htmls[n], step));
            }
        }
        if exists|i: int|
            0 <= i < pages.len() && rendered_up_to(htmls, i) && is_step_of_page(
                output,
                live,
                #[trigger] pages[i],
                htmls[i],
                step,
            ) {
            let i = choose|i: int|
                0 <= i < pages.len() && rendered_up_to(htmls, i) && is_step_of_page(
                    output,
                    live,
                    #[trigger] pages[i],
                    htmls[i],
                    step,
                );
            if i < n {
                assert(front[i] == pages[i]);
                lemma_first_stays(before, last, step);
            } else {
                lemma_second_comes(before, last, step);
            }
        }
        if rendered_up_to(htmls, n + 1) {
            assert(htmls[n] is Some);
        }
    }
}

/// The page of a term is built by making sure of its directory and writing what was rendered for it;
/// if nothing was, nothing is done.
pub open spec fn is_step_of_term(
    directory: Seq<Seq<char>>,
    live: bool,
    term: TermModel,
    html: Option<Seq<char>>,
    step: StepModel,
) -> bool {
    let own = joined(directory, slug_of(term.name));
    &&& html is Some
    &&& step == StepModel::CreateDirectory(own) || step == index_step(own, live, html)
}

/// The terms are built one after the other, each by its own steps, up to the first whose page was not
/// rendered; of that one and of later ones nothing is done.
pub proof fn terms_are_built_up_to_a_failure(
    directory: Seq<Seq<char>>,
    live: bool,
    terms: Seq<TermModel>,
    htmls: Seq<Option<Seq<char>>>,
    step: StepModel,
)
    requires
        htmls[0] is Some,
    ensures
        terms_plan(directory, live, terms, htmls).steps.contains(step) <==> exists|i: int|
            0 <= i < terms.len() && rendered_up_to(htmls, i + 1) && is_step_of_term(
                directory,
                live,
                #[trigger] terms[i],
                htmls[i + 1],
                step,
            ),
        terms_plan(directory, live, terms, htmls).complete <==> rendered_up_to(
            htmls,
            (terms.len() + 1) as int,
        ),
    decreases terms.len(),
{
    if terms.len() > 0 {
        let front = terms.drop_last();
        let n = terms.len() - 1;
        let before = terms_plan(directory, live, front, htmls);
        let last = term_plan(directory, live, terms[n], htmls[n + 1]);
        let own = joined(directory, slug_of(terms[n].name));
        terms_are_built_up_to_a_failure(directory, live, front, htmls, step);
        assert(terms_plan(directory, live, terms, htmls) == followed_by(before, last));
        assert(last.steps.contains(step) <==> is_step_of_term(
            directory,
            live,
            terms[n],
            htmls[n + 1],
            step,
        )) by {
            if let Some(text) = htmls[n + 1] {
                assert(last.steps[0] == StepModel::CreateDirectory(own));
                assert(last.steps[1] == index_step(own, live, htmls[n + 1]));
            }
        }
        if followed_by(before, last).steps.contains(step) {
            lemma_from_either(before, last, step);
            if before.steps.contains(step) {
                let i = choose|i: int|
                    0 <= i < front.len() && rendered_up_to(htmls, i + 1) && is_step_of_term(
                        directory,
                        live,
                        #[trigger] front[i],
                        htmls[i + 1],
                        step,
                    );
                assert(terms[i] == front[i]);
            } else {
                assert(is_step_of_term(directory, live, terms[n], htmls[n + 1], step));
            }
        }
        if exists|i: int|
            0 <= i < terms.len() && rendered_up_to(htmls, i + 1) && is_step_of_term(
                directory,
                live,
                #[trigger] terms[i],
                htmls[i + 1],
                step,
            ) {
            let i = choose|i: int|
                0 <= i < terms.len() && rendered_up_to(htmls, i + 1) && is_step_of_term(
                    directory,
                    live,
                    #[trigger] terms[i],
                    htmls[i + 1],
                    step,
                );
            if i < n {
                assert(front[i] == terms[i]);
                lemma_first_stays(before, last, step);
            } else {
                lemma_second_comes(before, last, step);
            }
        }
        if rendered_up_to(htmls, n + 2) {
            assert(htmls[n + 1] is Some);
        }
    } else {
        if rendered_up_to(htmls, 1) {
        }
        assert forall|i: int| 0 <= i < 1 implies #[trigger] htmls[i] is Some by {}
    }
}

/// Whether a step belongs to the building of a taxonomy: it makes sure of the directory, or writes
/// the list page, or belongs to a term that all pages before were rendered for.
pub open spec fn is_step_of_taxonomy(
    output: Seq<Seq<char>>,
    live: bool,
    name: Seq<char>,
    terms: Seq<TermModel>,
    htmls: Seq<Option<Seq<char>>>,
    step: StepModel,
) -> bool {
    let directory = joined(output, name);
    &&& terms.len() > 0
    &&& {
        ||| step == StepModel::CreateDirectory(directory)
        ||| htmls[0] is Some && step == index_step(directory, live, htmls[0])
        ||| exists|i: int|
            0 <= i < terms.len() && rendered_up_to(htmls, i + 1) && is_step_of_term(
                directory,
                live,
                #[trigger] terms[i],
                htmls[i + 1],
                step,
            )
    }
}

/// A taxonomy is built by its own steps, and completely if and only if all its pages were rendered.
/// Without terms nothing is done.
pub proof fn taxonomy_is_built_up_to_a_failure(
    site: SiteModel,
    kind: RenderList,
    htmls: Seq<Option<Seq<char>>>,
    step: StepModel,
)
    ensures
        ({
            let terms = if kind == RenderList::Tags {
                site.tags
            } else {
                site.categories
            };
            let name = if kind == RenderList::Tags {
                "tags"@
            } else {
                "categories"@
            };
            let plan = taxonomy_plan(site, kind, htmls);
            &&& plan.steps.contains(step) <==> is_step_of_taxonomy(
                site.output_path,
                site.live_reload,
                name,
                terms,
                htmls,
                step,
            )
            &&& plan.complete <==> terms.len() == 0 || rendered_up_to(htmls, (terms.len() + 1) as int)
        }),
{
    let terms = terms_of(site, kind);
    let live = site.live_reload;
    let directory = taxonomy_directory(site.output_path, kind);
    if terms.len() > 0 {
        let create = StepModel::CreateDirectory(directory);
        let list = index_step(directory, live, htmls[0]);
        let first = complete_plan(seq![create]);
        let second = file_plan(joined(directory, "index.html"@), injected_option(live, htmls[0]));
        let third = terms_plan(directory, live, terms, htmls);
        let rest = followed_by(second, third);
        assert(first.steps[0] == create);
        if htmls[0] is Some {
            terms_are_built_up_to_a_failure(directory, live, terms, htmls, step);
            assert(second.steps[0] == list);
        } else {
            assert forall|n: int| n > 0 implies !rendered_up_to(htmls, n) by {
                assert(htmls[0] is None);
            }
        }
        if taxonomy_plan(site, kind, htmls).steps.contains(step) {
            lemma_from_either(first, rest, step);
            if !first.steps.contains(step) {
                lemma_from_either(second, third, step);
            }
        }
        if step == create {
            lemma_first_stays(first, rest, step);
        }
        if htmls[0] is Some && step == list {
            lemma_first_stays(second, third, step);
            lemma_second_comes(first, rest, step);
        }
        if htmls[0] is Some && third.steps.contains(step) {
            lemma_second_comes(second, third, step);
            lemma_second_comes(first, rest, step);
        }
    }
}

/// The pages of a site are built by these steps and no others: the output directory is seen to, every
/// page is built, then the categories and the tags, each if it is asked for, and then the index page
/// is written; and each of these only if all that comes before was rendered. The build is complete if
/// and only if everything was rendered.
pub proof fn site_is_built_up_to_a_failure(site: SiteModel, rendered: RenderedModel, step: StepModel)
    ensures
        ({
            let plan = site_plan(site, rendered);
            let output = site.output_path;
            let live = site.live_reload;
            let pages_done = rendered_up_to(rendered.pages, site.pages.len() as int);
            let with_categories = site.config.generate_categories_pages == Some(true);
            let with_tags = site.config.generate_tags_pages == Some(true);
            let categories_done = pages_done && (with_categories && site.categories.len() > 0
                ==> rendered_up_to(rendered.categories, (site.categories.len() + 1) as int));
            let tags_done = categories_done && (with_tags && site.tags.len() > 0 ==> rendered_up_to(
                rendered.tags,
                (site.tags.len() + 1) as int,
            ));
            &&& plan.steps.contains(step) <==> {
                ||| step == StepModel::EnsureDirectory(output)
                ||| exists|i: int|
                    0 <= i < site.pages.len() && rendered_up_to(rendered.pages, i)
                        && is_step_of_page(
                        output,
                        live,
                        #[trigger] site.pages[i],
                        rendered.pages[i],
                        step,
                    )
                ||| pages_done && with_categories && is_step_of_taxonomy(
                    output,
                    live,
                    "categories"@,
                    site.categories,
                    rendered.categories,
                    step,
                )
                ||| categories_done && with_tags && is_step_of_taxonomy(
                    output,
                    live,
                    "tags"@,
                    site.tags,
                    rendered.tags,
                    step,
                )
                ||| tags_done && rendered.index is Some && step == index_step(
                    output,
                    live,
                    rendered.index,
                )
            }
            &&& plan.complete <==> tags_done && rendered.index is Some
        }),
{
    let output = site.output_path;
    let live = site.live_reload;
    let start = complete_plan(seq![StepModel::EnsureDirectory(output)]);
    let pages = pages_plan(output, live, site.pages, rendered.pages);
    let own = own_pages_plan(site, rendered.pages);
    let categories = plan_if(
        site.config.generate_categories_pages == Some(true),
        taxonomy_plan(site, RenderList::Categories, rendered.categories),
    );
    let tags = plan_if(
        site.config.generate_tags_pages == Some(true),
        taxonomy_plan(site, RenderList::Tags, rendered.tags),
    );
    let index = file_plan(joined(output, "index.html"@), injected_option(live, rendered.index));
    let a = followed_by(own, categories);
    let b = followed_by(a, tags);
    let whole = site_plan(site, rendered);
    assert(whole == followed_by(b, index));
    assert(start.steps[0] == StepModel::EnsureDirectory(output));
    pages_are_built_up_to_a_failure(output, live, site.pages, rendered.pages, step);
    taxonomy_is_built_up_to_a_failure(site, RenderList::Categories, rendered.categories, step);
    taxonomy_is_built_up_to_a_failure(site, RenderList::Tags, rendered.tags, step);
    if rendered.index is Some {
        assert(index.steps[0] == index_step(output, live, rendered.index));
    }
    if whole.steps.contains(step) {
        lemma_from_either(b, index, step);
        if b.steps.contains(step) {
            lemma_from_either(a, tags, step);
            if a.steps.contains(step) {
                lemma_from_either(own, categories, step);
                if own.steps.contains(step) {
                    lemma_from_either(start, pages, step);
                }
            }
        }
    }
    if start.steps.contains(step) {
        lemma_first_stays(start, pages, step);
    }
    if pages.steps.contains(step) {
        lemma_second_comes(start, pages, step);
    }
    if own.steps.contains(step) {
        lemma_first_stays(own, categories, step);
    }
    if own.complete && categories.steps.contains(step) {
        lemma_second_comes(own, categories, step);
    }
    if a.steps.contains(step) {
        lemma_first_stays(a, tags, step);
    }
    if a.complete && tags.steps.contains(step) {
        lemma_second_comes(a, tags, step);
    }
    if b.steps.contains(step) {
        lemma_first_stays(b, index, step);
    }
    if b.complete && index.steps.contains(step) {
        lemma_second_comes(b, index, step);
    }
}

/// The pages of a site alone are built by seeing to the output directory and building every page.
pub proof fn own_pages_are_built_up_to_a_failure(
    site: SiteModel,
    htmls: Seq<Option<Seq<char>>>,
    step: StepModel,
)
    ensures
        own_pages_plan(site, htmls).steps.contains(step) <==> step == StepModel::EnsureDirectory(
            site.output_path,
        ) || exists|i: int|
            0 <= i < site.pages.len() && rendered_up_to(htmls, i) && is_step_of_page(
                site.output_path,
                site.live_reload,
                #[trigger] site.pages[i],
                htmls[i],
                step,
            ),
        own_pages_plan(site, htmls).complete <==> rendered_up_to(htmls, site.pages.len() as int),
{
    let start = complete_plan(seq![StepModel::EnsureDirectory(site.output_path)]);
    let pages = pages_plan(site.output_path, site.live_reload, site.pages, htmls);
    assert(start.steps[0] == StepModel::EnsureDirectory(site.output_path));
    pages_are_built_up_to_a_failure(site.output_path, site.live_reload, site.pages, htmls, step);
    if own_pages_plan(site, htmls).steps.contains(step) {
        lemma_from_either(start, pages, step);
    }
    if start.steps.contains(step) {
        lemma_first_stays(start, pages, step);
    }
    if pages.steps.contains(step) {
        lemma_second_comes(start, pages, step);
    }
}

/// What is done for pages, terms and sections is done in their order: what is done for the first of
/// them stays the start of all that is done, whatever comes after them.
pub proof fn what_comes_later_is_done_later(
    output: Seq<Seq<char>>,
    live: bool,
    pages: Seq<PageModel>,
    page: PageModel,
    terms: Seq<TermModel>,
    term: TermModel,
    sections: Seq<SectionModel>,
    section: SectionModel,
    htmls: Seq<Option<Seq<char>>>,
)
    ensures
        pages_plan(output, live, pages, htmls).steps.is_prefix_of(
            pages_plan(output, live, pages.push(page), htmls).steps,
        ),
        terms_plan(output, live, terms, htmls).steps.is_prefix_of(
            terms_plan(output, live, terms.push(term), htmls).steps,
        ),
        sections_plan(output, live, sections, htmls).steps.is_prefix_of(
            sections_plan(output, live, sections.push(section), htmls).steps,
        ),
{
    assert(pages.push(page).drop_last() == pages);
    assert(terms.push(term).drop_last() == terms);
    assert(sections.push(section).drop_last() == sections);
}

/// In the building of all the pages of a site, the pages themselves come first.
pub proof fn own_pages_come_first(site: SiteModel, rendered: RenderedModel)
    ensures
        own_pages_plan(site, rendered.pages).steps.is_prefix_of(site_plan(site, rendered).steps),
        own_pages_plan(site, rendered.pages).steps.len() > 0,
        own_pages_plan(site, rendered.pages).steps[0] == StepModel::EnsureDirectory(
            site.output_path,
        ),
{
    let own = own_pages_plan(site, rendered.pages);
    let categories = plan_if(
        site.config.generate_categories_pages == Some(true),
        taxonomy_plan(site, RenderList::Categories, rendered.categories),
    );
    let tags = plan_if(
        site.config.generate_tags_pages == Some(true),
        taxonomy_plan(site, RenderList::Tags, rendered.tags),
    );
    let a = followed_by(own, categories);
    let b = followed_by(a, tags);
    let all = site_plan(site, rendered).steps;
    assert forall|i: int| 0 <= i < own.steps.len() implies own.steps[i] == all[i] by {
        assert(a.steps[i] == own.steps[i]);
        assert(b.steps[i] == a.steps[i]);
    }
    assert(own.steps == all.take(own.steps.len() as int));
}

/// A file at the top of the built site stands right in the output directory.
pub proof fn top_files_stand_in_the_output_directory(output: Seq<Seq<char>>, text: Seq<char>)
    ensures
        file_plan(joined(output, "sitemap.xml"@), Some(text)).steps == seq![
            StepModel::WriteFile { path: output.push("sitemap.xml"@), text },
        ],
        file_plan(joined(output, "robots.txt"@), Some(text)).steps == seq![
            StepModel::WriteFile { path: output.push("robots.txt"@), text },
        ],
{
    reveal_strlit("sitemap.xml");
    reveal_strlit("robots.txt");
    reveal_strlit(".");
    assert("sitemap.xml"@.len() == 11 && "robots.txt"@.len() == 10 && "."@.len() == 1);
    appended_name_comes_last(output, "sitemap.xml"@);
    appended_name_comes_last(output, "robots.txt"@);
}

/// Whether a step belongs to the building of a section: it sees to a directory that leads to the
/// section's, or to that one, or writes what was rendered for the section.
pub open spec fn is_step_of_section(
    output: Seq<Seq<char>>,
    live: bool,
    section: SectionModel,
    html: Option<Seq<char>>,
    step: StepModel,
) -> bool {
    match step {
        StepModel::EnsureDirectory(path) => exists|k: int|
            1 <= k <= section.components.len() && path == #[trigger] nested(
                output,
                section.components.take(k),
            ),
        StepModel::WriteFile { .. } => html is Some && step == index_step(
            nested(output, section.components),
            live,
            html,
        ),
        _ => false,
    }
}

/// The sections are built one after the other, each by its own steps, up to the first that was not
/// rendered: of that one only the directories are seen to, and of later ones nothing is done.
pub proof fn sections_are_built_up_to_a_failure(
    output: Seq<Seq<char>>,
    live: bool,
    sections: Seq<SectionModel>,
    htmls: Seq<Option<Seq<char>>>,
    step: StepModel,
)
    ensures
        sections_plan(output, live, sections, htmls).steps.contains(step) <==> exists|i: int|
            0 <= i < sections.len() && rendered_up_to(htmls, i) && is_step_of_section(
                output,
                live,
                #[trigger] sections[i],
                htmls[i],
                step,
            ),
        sections_plan(output, live, sections, htmls).complete <==> rendered_up_to(
            htmls,
            sections.len() as int,
        ),
    decreases sections.len(),
{
    if sections.len() > 0 {
        let front = sections.drop_last();
        let n = sections.len() - 1;
        let before = sections_plan(output, live, front, htmls);
        let last = section_plan(output, live, sections[n], htmls[n]);
        sections_are_built_up_to_a_failure(output, live, front, htmls, step);
        lemma_section_steps(output, live, sections[n], htmls[n], step);
        assert(sections_plan(output, live, sections, htmls) == followed_by(before, last));
        if followed_by(before, last).steps.contains(step) {
            lemma_from_either(before, last, step);
            if before.steps.contains(step) {
                let i = choose|i: int|
                    0 <= i < front.len() && rendered_up_to(htmls, i) && is_step_of_section(
                        output,
                        live,
                        #[trigger] front[i],
                        htmls[i],
                        step,
                    );
                assert(sections[i] == front[i]);
            } else {
                assert(is_step_of_section(output, live, sections[n], htmls[n], step));
            }
        }
        if exists|i: int|
            0 <= i < sections.len() && rendered_up_to(htmls, i) && is_step_of_section(
                output,
                live,
                #[trigger] sections[i],
                htmls[i],
                step,
            ) {
            let i = choose|i: int|
                0 <= i < sections.len() && rendered_up_to(htmls, i) && is_step_of_section(
                    output,
                    live,
                    #[trigger] sections[i],
                    htmls[i],
                    step,
                );
            if i < n {
                assert(front[i] == sections[i]);
                lemma_first_stays(before, last, step);
            } else {
                lemma_second_comes(before, last, step);
            }
        }
        if rendered_up_to(htmls, n + 1) {
            assert(htmls[n] is Some);
        }
    }
}

proof fn lemma_section_steps(
    output: Seq<Seq<char>>,
    live: bool,
    section: SectionModel,
    html: Option<Seq<char>>,
    step: StepModel,
)
    ensures
        section_plan(output, live, section, html).steps.contains(step) <==> is_step_of_section(
            output,
            live,
            section,
            html,
            step,
        ),
        section_plan(output, live, section, html).complete <==> html is Some,
{
    let pieces = section.components;
    let directory = nested(output, pieces);
    let first = complete_plan(ensure_steps(output, pieces));
    let second = file_plan(joined(directory, "index.html"@), injected_option(live, html));
    lemma_ensure_steps(output, pieces, step);
    if html is Some {
        assert(second.steps[0] == index_step(directory, live, html));
    }
    if section_plan(output, live, section, html).steps.contains(step) {
        lemma_from_either(first, second, step);
        if first.steps.contains(step) {
            let k = choose|k: int|
                1 <= k <= pieces.len() && step == StepModel::EnsureDirectory(
                    #[trigger] nested(output, pieces.take(k)),
                );
            assert(step->EnsureDirectory_0 == nested(output, pieces.take(k)));
        }
    }
    if is_step_of_section(output, live, section, html, step) {
        match step {
            StepModel::EnsureDirectory(path) => {
                let k = choose|k: int|
                    1 <= k <= pieces.len() && path == #[trigger] nested(output, pieces.take(k));
                assert(step == StepModel::EnsureDirectory(nested(output, pieces.take(k))));
                lemma_first_stays(first, second, step);
            },
            _ => {
                lemma_second_comes(first, second, step);
            },
        }
    }
}

} // verus!
