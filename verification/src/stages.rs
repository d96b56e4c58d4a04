//! Building a site: the stages of a build, and the plan of each.

use vstd::prelude::*;

use crate::content::{optional_text, page_models, Page, PageModel, SectionModel};
use crate::path::{has_name, joined, parsed, FilePath};
use crate::output_laws::{
    lemma_both_grounded, lemma_page_grounded, lemma_site_plan_grounded, lemma_taxonomy_grounded,
    slugs_are_slugs,
};
use crate::plan::{
    are_grounded, broken_plan, complete_plan, file_plan, followed_by, push_step, step_models, Plan,
    PlanModel, Step, StepModel,
};
use crate::render::{dated, list_name, taxonomy_size, terms_of};
use crate::site::{
    all_have_parents, optional_content, with_change, with_sections_and_terms, Content, Site,
    SiteModel,
};
use crate::taxonomy::{is_slug, slug_of, slugify, RenderList, TermModel};
use crate::text::{replace_all, replace_text, split, split_text, texts};

verus! {

/// A part of a build.
#[derive(Clone, Copy, Debug, PartialEq, Eq, Structural)]
pub enum Stage {
    /// Read the templates again.
    ReloadTemplates,
    /// Delete what was built before.
    Clean,
    /// Build the pages, those of the tags and categories, and the index page.
    Pages,
    /// Write the sitemap.
    Sitemap,
    /// Write the feed.
    RssFeed,
    /// Write the file for robots.
    Robots,
    /// Build the pages of the sections.
    Sections,
    /// Copy the static files.
    StaticFiles,
}

/// The texts that were rendered for the pages of a site. A text that could not be rendered is
/// missing.
#[derive(Debug)]
pub struct RenderedPages {
    /// One for each page of the site.
    pub pages: Vec<Option<String>>,
    /// One for each page of the categories.
    pub categories: Vec<Option<String>>,
    /// One for each page of the tags.
    pub tags: Vec<Option<String>>,
    /// The index page.
    pub index: Option<String>,
}

/// A file or a directory among the static files.
#[derive(Debug)]
pub struct StaticEntry {
    pub path: FilePath,
    pub is_dir: bool,
}

pub ghost struct RenderedModel {
    pub pages: Seq<Option<Seq<char>>>,
    pub categories: Seq<Option<Seq<char>>>,
    pub tags: Seq<Option<Seq<char>>>,
    pub index: Option<Seq<char>>,
}

pub ghost struct StaticModel {
    pub path: Seq<Seq<char>>,
    pub is_dir: bool,
}

/// The texts of a sequence, as far as they are there.
pub open spec fn optional_list(list: Seq<Option<String>>) -> Seq<Option<Seq<char>>> {
    list.map_values(|t: Option<String>| optional_text(t))
}

impl View for RenderedPages {
    type V = RenderedModel;

    open spec fn view(&self) -> RenderedModel {
        RenderedModel {
            pages: optional_list(self.pages@),
            categories: optional_list(self.categories@),
            tags: optional_list(self.tags@),
            index: optional_text(self.index),
        }
    }
}

impl View for StaticEntry {
    type V = StaticModel;

    open spec fn view(&self) -> StaticModel {
        StaticModel { path: self.path@, is_dir: self.is_dir }
    }
}

/// The static files and directories of a sequence.
pub open spec fn static_models(entries: Seq<StaticEntry>) -> Seq<StaticModel> {
    entries.map_values(|e: StaticEntry| e@)
}

/// The end of the body of a page, with the script that reloads it.
pub open spec fn reload_script() -> Seq<char> {
    "<script src=\"/livereload.js?port=1112&mindelay=10\"></script></body>"@
}

/// A rendered text with the script that reloads pages, if that is asked for.
pub open spec fn injected(live: bool, html: Seq<char>) -> Seq<char> {
    if live {
        replace_all(html, "</body>"@, reload_script())
    } else {
        html
    }
}

/// A rendered text, if it is there, with the script that reloads pages, if that is asked for.
pub open spec fn injected_option(live: bool, html: Option<Seq<char>>) -> Option<Seq<char>> {
    match html {
        Some(text) => Some(injected(live, text)),
        None => None,
    }
}

/// The path with all of `pieces` appended, one by one.
pub open spec fn nested(base: Seq<Seq<char>>, pieces: Seq<Seq<char>>) -> Seq<Seq<char>>
    decreases pieces.len(),
{
    if pieces.len() == 0 {
        base
    } else {
        joined(nested(base, pieces.drop_last()), pieces.last())
    }
}

/// The steps that see to it that all the directories exist which lead from `base` along `pieces`.
pub open spec fn ensure_steps(base: Seq<Seq<char>>, pieces: Seq<Seq<char>>) -> Seq<StepModel>
    decreases pieces.len(),
{
    if pieces.len() == 0 {
        Seq::empty()
    } else {
        ensure_steps(base, pieces.drop_last()).push(
            StepModel::EnsureDirectory(nested(base, pieces)),
        )
    }
}

/// The steps that copy files into a directory.
pub open spec fn copy_steps(
    directory: Seq<Seq<char>>,
    files: Seq<Seq<Seq<char>>>,
) -> Seq<StepModel> {
    files.map_values(
        |f: Seq<Seq<char>>| StepModel::CopyFile { from: f, to: joined(directory, f.last()) },
    )
}

/// The directory of a page in the built site.
pub open spec fn page_directory(output: Seq<Seq<char>>, page: PageModel) -> Seq<Seq<char>> {
    nested(output, split(page.path, '/'))
}

/// The plan of building a page that `html` was rendered for.
pub open spec fn page_plan(
    output: Seq<Seq<char>>,
    live: bool,
    page: PageModel,
    html: Option<Seq<char>>,
) -> PlanModel {
    let directory = page_directory(output, page);
    followed_by(
        complete_plan(
            ensure_steps(output, split(page.path, '/')).push(StepModel::CreateDirectory(directory)),
        ),
        followed_by(
            file_plan(joined(directory, "index.html"@), injected_option(live, html)),
            complete_plan(copy_steps(directory, page.assets)),
        ),
    )
}

/// The plan of building pages.
pub open spec fn pages_plan(
    output: Seq<Seq<char>>,
    live: bool,
    pages: Seq<PageModel>,
    htmls: Seq<Option<Seq<char>>>,
) -> PlanModel
    decreases pages.len(),
{
    if pages.len() == 0 {
        complete_plan(Seq::empty())
    } else {
        followed_by(
            pages_plan(output, live, pages.drop_last(), htmls),
            page_plan(output, live, pages.last(), htmls[pages.len() - 1]),
        )
    }
}

/// The plan of building the page of a term in the directory of its taxonomy.
pub open spec fn term_plan(
    directory: Seq<Seq<char>>,
    live: bool,
    term: TermModel,
    html: Option<Seq<char>>,
) -> PlanModel {
    let own = joined(directory, slug_of(term.name));
    match html {
        Some(text) => complete_plan(
            seq![
                StepModel::CreateDirectory(own),
                StepModel::WriteFile {
                    path: joined(own, "index.html"@),
                    text: injected(live, text),
                },
            ],
        ),
        None => broken_plan(Seq::empty()),
    }
}

/// The plan of building the pages of terms; `htmls` start with that of the list page.
pub open spec fn terms_plan(
    directory: Seq<Seq<char>>,
    live: bool,
    terms: Seq<TermModel>,
    htmls: Seq<Option<Seq<char>>>,
) -> PlanModel
    decreases terms.len(),
{
    if terms.len() == 0 {
        complete_plan(Seq::empty())
    } else {
        followed_by(
            terms_plan(directory, live, terms.drop_last(), htmls),
            term_plan(directory, live, terms.last(), htmls[terms.len() as int]),
        )
    }
}

/// The directory of the pages of a taxonomy in the built site.
pub open spec fn taxonomy_directory(output: Seq<Seq<char>>, kind: RenderList) -> Seq<Seq<char>> {
    joined(output, list_name(kind))
}

/// The plan of building the pages of a taxonomy.
pub open spec fn taxonomy_plan(
    site: SiteModel,
    kind: RenderList,
    htmls: Seq<Option<Seq<char>>>,
) -> PlanModel {
    let terms = terms_of(site, kind);
    let directory = taxonomy_directory(site.output_path, kind);
    if terms.len() == 0 {
        complete_plan(Seq::empty())
    } else {
        followed_by(
            complete_plan(seq![StepModel::CreateDirectory(directory)]),
            followed_by(
                file_plan(
                    joined(directory, "index.html"@),
                    injected_option(site.live_reload, htmls[0]),
                ),
                terms_plan(directory, site.live_reload, terms, htmls),
            ),
        )
    }
}

/// A plan, if it is wanted.
pub open spec fn plan_if(wanted: bool, plan: PlanModel) -> PlanModel {
    if wanted {
        plan
    } else {
        complete_plan(Seq::empty())
    }
}

/// The plan of building the pages of a site, starting with the directory that they are built into.
pub open spec fn own_pages_plan(site: SiteModel, htmls: Seq<Option<Seq<char>>>) -> PlanModel {
    followed_by(
        complete_plan(seq![StepModel::EnsureDirectory(site.output_path)]),
        pages_plan(site.output_path, site.live_reload, site.pages, htmls),
    )
}

/// The plan of building all the pages of a site but for those of the sections.
pub open spec fn site_plan(site: SiteModel, rendered: RenderedModel) -> PlanModel {
    let pages = own_pages_plan(site, rendered.pages);
    let categories = followed_by(
        pages,
        plan_if(
            site.config.generate_categories_pages == Some(true),
            taxonomy_plan(site, RenderList::Categories, rendered.categories),
        ),
    );
    let tags = followed_by(
        categories,
        plan_if(
            site.config.generate_tags_pages == Some(true),
            taxonomy_plan(site, RenderList::Tags, rendered.tags),
        ),
    );
    followed_by(
        tags,
        file_plan(
            joined(site.output_path, "index.html"@),
            injected_option(site.live_reload, rendered.index),
        ),
    )
}

/// The plan of building the page of a section that `html` was rendered for.
pub open spec fn section_plan(
    output: Seq<Seq<char>>,
    live: bool,
    section: SectionModel,
    html: Option<Seq<char>>,
) -> PlanModel {
    followed_by(
        complete_plan(ensure_steps(output, section.components)),
        file_plan(
            joined(nested(output, section.components), "index.html"@),
            injected_option(live, html),
        ),
    )
}

/// The plan of building the pages of sections.
pub open spec fn sections_plan(
    output: Seq<Seq<char>>,
    live: bool,
    sections: Seq<SectionModel>,
    htmls: Seq<Option<Seq<char>>>,
) -> PlanModel
    decreases sections.len(),
{
    if sections.len() == 0 {
        complete_plan(Seq::empty())
    } else {
        followed_by(
            sections_plan(output, live, sections.drop_last(), htmls),
            section_plan(output, live, sections.last(), htmls[sections.len() - 1]),
        )
    }
}

/// The plan of writing a feed that was to be rendered. A site where no page has a date has none, and
/// nothing is done.
pub open spec fn feed_plan(site: SiteModel, text: Option<Seq<char>>) -> PlanModel {
    if dated(site.pages).len() == 0 {
        complete_plan(Seq::empty())
    } else {
        file_plan(joined(site.output_path, "rss.xml"@), text)
    }
}

/// Whether a path leads into the directory of the static files, or is that directory.
pub open spec fn is_static(path: Seq<Seq<char>>) -> bool {
    path.len() > 0 && path[0] == "static"@
}

/// Where a static file is copied to.
pub open spec fn static_target(path: Seq<Seq<char>>) -> Seq<Seq<char>> {
    parsed("public"@) + path.skip(1)
}

/// What is done about a static file or directory. The one that holds all the others has to be a
/// directory, as has the place that it is copied to.
pub open spec fn static_step(entry: StaticModel) -> StepModel {
    let target = static_target(entry.path);
    if entry.path.len() == 1 {
        if entry.is_dir {
            StepModel::RequireDirectory(target)
        } else {
            StepModel::ReplaceDirectory { from: entry.path, to: target }
        }
    } else if entry.is_dir {
        StepModel::EnsureDirectory(target)
    } else {
        StepModel::ReplaceFile { from: entry.path, to: target }
    }
}

/// What is done about static files and directories.
pub open spec fn static_steps(entries: Seq<StaticModel>) -> Seq<StepModel> {
    entries.map_values(|e: StaticModel| static_step(e))
}

/// The stages of a build.
pub open spec fn build_stages(with_feed: bool) -> Seq<Stage> {
    if with_feed {
        seq![
            Stage::Clean,
            Stage::Pages,
            Stage::Sitemap,
            Stage::RssFeed,
            Stage::Robots,
            Stage::Sections,
            Stage::StaticFiles,
        ]
    } else {
        seq![
            Stage::Clean,
            Stage::Pages,
            Stage::Sitemap,
            Stage::Robots,
            Stage::Sections,
            Stage::StaticFiles,
        ]
    }
}

/// Whether every asset of every page has a file name.
pub open spec fn assets_have_names(pages: Seq<PageModel>) -> bool {
    forall|i: int, j: int|
        0 <= i < pages.len() && 0 <= j < pages[i].assets.len() ==> has_name(
            #[trigger] pages[i].assets[j],
        )
}

proof fn lemma_followed_by_assoc(a: PlanModel, b: PlanModel, c: PlanModel)
    ensures
        followed_by(followed_by(a, b), c) == followed_by(a, followed_by(b, c)),
{
    if a.complete && b.complete {
        assert((a.steps + b.steps) + c.steps == a.steps + (b.steps + c.steps));
    }
}

/// Adds the steps that see to it that the directories from `base` along `pieces` exist, and gives
/// the last of them.
fn ensure_directories(plan: &mut Plan, base: &FilePath, pieces: &Vec<String>) -> (directory: FilePath)
    requires
        old(plan)@.complete,
    ensures
        directory@ == nested(base@, texts(pieces@)),
        final(plan)@ == complete_plan(old(plan)@.steps + ensure_steps(base@, texts(pieces@))),
{
    let ghost before = plan@.steps;
    let ghost all = texts(pieces@);
    let mut directory = base.clone();
    assert(all.take(0) == Seq::<Seq<char>>::empty());
    assert(plan@.steps == before + Seq::<StepModel>::empty());
    for i in 0..pieces.len()
        invariant
            all == texts(pieces@),
            directory@ == nested(base@, all.take(i as int)),
            plan@ == complete_plan(before + ensure_steps(base@, all.take(i as int))),
    {
        proof {
            assert(all.take(i + 1).drop_last() == all.take(i as int));
            assert(all.take(i + 1).last() == pieces@[i as int]@);
        }
        directory.push(&pieces[i]);
        plan.add(Step::EnsureDirectory(directory.clone()));
        assert(plan@.steps == before + ensure_steps(base@, all.take(i + 1)));
    }
    assert(all.take(pieces.len() as int) == all);
    directory
}

impl Site {
    /// Inject live reload script tag if in live reload mode
    pub fn inject_livereload(&self, html: &str) -> (text: String)
        ensures
            text@ == injected(self@.live_reload, html@),
    {
        if self.live_reload {
            proof {
                reveal_strlit("</body>");
            }
            return replace_text(
                html,
                "</body>",
                "<script src=\"/livereload.js?port=1112&mindelay=10\"></script></body>",
            );
        }
        html.to_owned()
    }

    fn inject_option(&self, html: &Option<String>) -> (text: Option<String>)
        ensures
            optional_text(text) == injected_option(self@.live_reload, optional_text(*html)),
    {
        match html {
            Some(text) => Some(self.inject_livereload(text)),
            None => None,
        }
    }

    /// Copy the content of the `static` folder into the `public` folder
    pub fn copy_static_directory(&self, entries: &Vec<StaticEntry>) -> (steps: Vec<Step>)
        requires
            forall|i: int| 0 <= i < entries.len() ==> is_static(#[trigger] entries@[i].path@),
        ensures
            step_models(steps@) == static_steps(static_models(entries@)),
    {
        let mut steps: Vec<Step> = Vec::new();
        let ghost all = static_steps(static_models(entries@));
        for i in 0..entries.len()
            invariant
                all == static_steps(static_models(entries@)),
                forall|i: int| 0 <= i < entries.len() ==> is_static(#[trigger] entries@[i].path@),
                steps.len() == i,
                forall|j: int| 0 <= j < i ==> #[trigger] steps@[j]@ == all[j],
        {
            let entry = &entries[i];
            assert(is_static(entries@[i as int].path@));
            let target = entry.path.rebased(&FilePath::parse("public"));
            assert(target@ == static_target(entry.path@));
            let is_root = entry.path.parts().len() == 1;
            assert(is_root == (entry.path@.len() == 1));
            if is_root && entry.is_dir {
                steps.push(Step::RequireDirectory(target));
            } else if is_root {
                steps.push(Step::ReplaceDirectory { from: entry.path.clone(), to: target });
            } else if entry.is_dir {
                steps.push(Step::EnsureDirectory(target));
            } else {
                steps.push(Step::ReplaceFile { from: entry.path.clone(), to: target });
            }
            assert(steps@[i as int]@ == all[i as int]);
        }
        assert(step_models(steps@) == all);
        steps
    }

    /// Deletes the `public` directory if it exists
    pub fn clean(&self) -> (steps: Vec<Step>)
        ensures
            step_models(steps@) == seq![StepModel::RemoveDirectory(parsed("public"@))],
    {
        let mut steps: Vec<Step> = Vec::new();
        // Delete current `public` directory so we can start fresh
        push_step(&mut steps, Step::RemoveDirectory(FilePath::parse("public")));
        assert(step_models(steps@) == seq![StepModel::RemoveDirectory(parsed("public"@))]);
        steps
    }

    /// Adds the building of a page.
    fn add_page_steps(&self, plan: &mut Plan, page: &Page, html: &Option<String>)
        requires
            old(plan)@.complete,
            forall|j: int| 0 <= j < page@.assets.len() ==> has_name(#[trigger] page@.assets[j]),
        ensures
            final(plan)@ == followed_by(
                old(plan)@,
                page_plan(self@.output_path, self@.live_reload, page@, optional_text(*html)),
            ),
            are_grounded(
                self@.output_path,
                seq![StepModel::EnsureDirectory(self@.output_path)],
                page_plan(
                    self@.output_path,
                    self@.live_reload,
                    page@,
                    optional_text(*html),
                ).steps,
            ),
    {
        let ghost before = plan@;
        let ghost pieces_text = split(page@.path, '/');
        let pieces = split_text(&page.path, '/');
        // Copy the nesting of the content directory if we have sections for that page
        let directory = ensure_directories(plan, &self.output_path, &pieces);
        // Make sure the folder exists
        plan.add(Step::CreateDirectory(directory.clone()));
        let ghost first = complete_plan(
            ensure_steps(self@.output_path, pieces_text).push(
                StepModel::CreateDirectory(directory@),
            ),
        );
        assert(plan@ == followed_by(before, first));
        // Finally, create a index.html file there with the page rendered
        let text = self.inject_option(html);
        let ghost second = file_plan(joined(directory@, "index.html"@), optional_text(text));
        plan.write(directory.join("index.html"), text);
        let ghost third = complete_plan(copy_steps(directory@, page@.assets));
        proof {
            lemma_followed_by_assoc(before, first, second);
            lemma_followed_by_assoc(before, first, followed_by(second, third));
            lemma_followed_by_assoc(followed_by(before, first), second, third);
        }
        if !plan.complete {
            proof {
                lemma_page_grounded(self@.output_path, self@.live_reload, page@, optional_text(*html));
            }
            return;
        }
        // Copy any asset we found previously into the same directory as the index.html
        let ghost written = plan@;
        let ghost copies = copy_steps(directory@, page@.assets);
        assert(copies.take(0) == Seq::<StepModel>::empty());
        assert(written.steps + copies.take(0) == written.steps);
        for i in 0..page.assets.len()
            invariant
                copies == copy_steps(directory@, page@.assets),
                forall|j: int| 0 <= j < page@.assets.len() ==> has_name(#[trigger] page@.assets[j]),
                forall|j: int| 0 <= j < i ==> !(#[trigger] page@.assets[j]).last().contains('/'),
                plan@ == complete_plan(written.steps + copies.take(i as int)),
        {
            assert(page@.assets[i as int] == page.assets@[i as int]@);
            assert(has_name(page@.assets[i as int]));
            if let Some(name) = page.assets[i].file_name() {
                let to = directory.join(&name);
                plan.add(Step::CopyFile { from: page.assets[i].clone(), to });
            }
            assert(copies.take(i + 1) == copies.take(i as int).push(copies[i as int]));
            assert(written.steps + copies.take(i + 1) == (written.steps + copies.take(
                i as int,
            )).push(copies[i as int]));
        }
        assert(copies.take(page.assets.len() as int) == copies);
        proof {
            lemma_page_grounded(self@.output_path, self@.live_reload, page@, optional_text(*html));
        }
    }

    /// The plan of the pages of the site, which `htmls` were rendered for.
    fn plan_pages(&self, htmls: &Vec<Option<String>>) -> (plan: Plan)
        requires
            htmls.len() == self.pages.len(),
            assets_have_names(self@.pages),
        ensures
            plan@ == pages_plan(
                self@.output_path,
                self@.live_reload,
                self@.pages,
                optional_list(htmls@),
            ),
            are_grounded(
                self@.output_path,
                seq![StepModel::EnsureDirectory(self@.output_path)],
                plan@.steps,
            ),
    {
        let ghost output = self@.output_path;
        let ghost live = self@.live_reload;
        let ghost all = self@.pages;
        let ghost texts_all = optional_list(htmls@);
        let mut plan = Plan::new();
        assert(all.take(0) == Seq::<PageModel>::empty());
        for i in 0..self.pages.len()
            invariant
                output == self@.output_path,
                live == self@.live_reload,
                all == self@.pages,
                texts_all == optional_list(htmls@),
                htmls.len() == self.pages.len(),
                assets_have_names(all),
                plan@ == pages_plan(output, live, all.take(i as int), texts_all),
                are_grounded(output, seq![StepModel::EnsureDirectory(output)], plan@.steps),
        {
            let ghost before = plan@;
            proof {
                assert(all.take(i + 1).drop_last() == all.take(i as int));
                assert(all.take(i + 1).last() == self.pages@[i as int]@);
                assert(all[i as int] == self.pages@[i as int]@);
                assert(texts_all[i as int] == optional_text(htmls@[i as int]));
            }
            if plan.complete {
                self.add_page_steps(&mut plan, &self.pages[i], &htmls[i]);
                proof {
                    lemma_both_grounded(
                        output,
                        before,
                        page_plan(output, live, all[i as int], texts_all[i as int]),
                    );
                }
            }
        }
        assert(all.take(self.pages.len() as int) == all);
        plan
    }

    /// Render the /{categories, list} pages and each individual category/tag page
    /// They are the same thing fundamentally, a list of pages with something in common
    ///
    /// `htmls` were rendered from what `taxonomy_requests` gives.
    pub fn render_categories_and_tags(&self, kind: RenderList, htmls: &Vec<Option<String>>) -> (plan:
        Plan)
        requires
            htmls.len() == taxonomy_size(terms_of(self@, kind)),
        ensures
            plan@ == taxonomy_plan(self@, kind, optional_list(htmls@)),
            // everything is made below the output directory, in directories that were seen to
            are_grounded(
                self@.output_path,
                seq![StepModel::EnsureDirectory(self@.output_path)],
                plan@.steps,
            ),
    {
        let ghost live = self@.live_reload;
        let ghost texts_all = optional_list(htmls@);
        let ghost terms = terms_of(self@, kind);
        let taxonomy = self.taxonomy(kind);
        let mut plan = Plan::new();
        if taxonomy.terms.len() == 0 {
            return plan;
        }
        let name = match kind {
            RenderList::Categories => "categories",
            RenderList::Tags => "tags",
        };
        // Create the categories/tags directory first
        let directory = self.output_path.join(name);
        plan.add(Step::CreateDirectory(directory.clone()));
        let ghost first = complete_plan(seq![StepModel::CreateDirectory(directory@)]);
        assert(plan@.steps == first.steps);
        let text = self.inject_option(&htmls[0]);
        assert(texts_all[0] == optional_text(htmls@[0]));
        let ghost second = file_plan(joined(directory@, "index.html"@), optional_text(text));
        plan.write(directory.join("index.html"), text);
        let ghost listed = followed_by(first, second);
        assert(plan@ == listed);
        // Now, each individual item
        assert(terms.take(0) == Seq::<TermModel>::empty());
        assert(listed.steps + Seq::<StepModel>::empty() == listed.steps);
        let ghost mut done: int = 0;
        for i in 0..taxonomy.terms.len()
            invariant
                0 <= done <= i,
                plan.complete ==> done == i,
                slugs_are_slugs(terms.take(done)),
                plan@ == followed_by(
                    listed,
                    terms_plan(directory@, live, terms.take(done), texts_all),
                ),
                live == self@.live_reload,
                texts_all == optional_list(htmls@),
                terms == taxonomy@,
                htmls.len() == terms.len() + 1,
                plan@ == followed_by(
                    listed,
                    terms_plan(directory@, live, terms.take(i as int), texts_all),
                ),
        {
            let ghost before = terms_plan(directory@, live, terms.take(i as int), texts_all);
            let ghost next = term_plan(directory@, live, terms[i as int], texts_all[i + 1]);
            proof {
                assert(terms.take(i + 1).drop_last() == terms.take(i as int));
                assert(terms.take(i + 1).last() == terms[i as int]);
                assert(terms[i as int] == taxonomy.terms@[i as int]@);
                assert(texts_all[i + 1] == optional_text(htmls@[i + 1]));
                lemma_followed_by_assoc(listed, before, next);
            }
            if plan.complete {
                let ghost held = plan@;
                let slug = slugify(&taxonomy.terms[i].name);
                proof {
                    assert forall|j: int| 0 <= j < i + 1 implies is_slug(
                        slug_of(#[trigger] terms.take(i + 1)[j].name),
                    ) by {
                        if j < i {
                            assert(terms.take(i + 1)[j] == terms.take(done)[j]);
                        }
                    }
                    done = done + 1;
                }
                match &htmls[i + 1] {
                    Some(html) => {
                        let own = directory.join(&slug);
                        let text = self.inject_livereload(html);
                        let path = own.join("index.html");
                        plan.add(Step::CreateDirectory(own));
                        plan.add(Step::WriteFile { path, text });
                        assert(plan@.steps == held.steps + next.steps);
                    },
                    None => {
                        plan.complete = false;
                        assert(plan@.steps == held.steps + next.steps);
                    },
                }
                assert(plan@ == followed_by(held, next));
            }
        }
        proof {
            assert(terms.take(terms.len() as int) == terms);
            lemma_followed_by_assoc(
                first,
                second,
                terms_plan(directory@, live, terms, texts_all),
            );
            lemma_followed_by_assoc(
                first,
                second,
                terms_plan(directory@, live, terms.take(done), texts_all),
            );
            lemma_taxonomy_grounded(self@, kind, terms.take(done), texts_all);
        }
        plan
    }

    /// The plan of building the pages of the site, without the tags, the categories and the index page.
    pub fn build_own_pages(&self, htmls: &Vec<Option<String>>) -> (plan: Plan)
        requires
            htmls.len() == self.pages.len(),
            assets_have_names(self@.pages),
        ensures
            plan@ == own_pages_plan(self@, optional_list(htmls@)),
            // what follows on making sure of the output directory needs nothing else
            are_grounded(
                self@.output_path,
                seq![StepModel::EnsureDirectory(self@.output_path)],
                pages_plan(
                    self@.output_path,
                    self@.live_reload,
                    self@.pages,
                    optional_list(htmls@),
                ).steps,
            ),
    {
        let mut plan = Plan::new();
        plan.add(Step::EnsureDirectory(self.output_path.clone()));
        assert(plan@.steps == seq![StepModel::EnsureDirectory(self@.output_path)]);
        plan.extend(self.plan_pages(htmls));
        plan
    }

    /// The plan of building all the pages but for those of the sections.
    pub fn build_pages(&self, rendered: &RenderedPages) -> (plan: Plan)
        requires
            rendered.pages.len() == self.pages.len(),
            assets_have_names(self@.pages),
            self.config.generate_categories_pages is Some,
            self.config.generate_tags_pages is Some,
            self.config.generate_categories_pages == Some(true) ==> rendered.categories.len()
                == taxonomy_size(self@.categories),
            self.config.generate_tags_pages == Some(true) ==> rendered.tags.len()
                == taxonomy_size(self@.tags),
        ensures
            plan@ == site_plan(self@, rendered@),
            // everything is made below the output directory, in directories that were seen to
            are_grounded(self@.output_path, Seq::empty(), plan@.steps),
    {
        // First we render the pages themselves
        let mut plan = self.build_own_pages(&rendered.pages);
        // Outputting categories and pages
        if plan.complete && self.config.generate_categories_pages.unwrap() {
            plan.extend(
                self.render_categories_and_tags(RenderList::Categories, &rendered.categories),
            );
        } else {
            assert(plan@.steps + Seq::<StepModel>::empty() == plan@.steps);
        }
        if plan.complete && self.config.generate_tags_pages.unwrap() {
            plan.extend(self.render_categories_and_tags(RenderList::Tags, &rendered.tags));
        } else {
            assert(plan@.steps + Seq::<StepModel>::empty() == plan@.steps);
        }
        // And finally the index page
        if plan.complete {
            plan.write(self.output_path.join("index.html"), self.inject_option(&rendered.index));
        }
        proof {
            lemma_site_plan_grounded(self@, rendered@);
        }
        plan
    }

    /// The plan of writing a rendered file at the top of the built site.
    fn plan_file(&self, name: &str, text: Option<String>) -> (plan: Plan)
        ensures
            plan@ == file_plan(joined(self@.output_path, name@), optional_text(text)),
    {
        let mut plan = Plan::new();
        let ghost whole = file_plan(joined(self@.output_path, name@), optional_text(text));
        plan.write(self.output_path.join(name), text);
        assert(plan@.steps == whole.steps);
        plan
    }

    /// The plan of writing the sitemap, rendered from what `sitemap_request` gives.
    pub fn render_sitemap(&self, text: Option<String>) -> (plan: Plan)
        ensures
            plan@ == file_plan(joined(self@.output_path, "sitemap.xml"@), optional_text(text)),
    {
        self.plan_file("sitemap.xml", text)
    }

    /// The plan of writing the feed, rendered from what `rss_request` gives. Where that gives
    /// nothing there is nothing to write.
    pub fn render_rss_feed(&self, text: Option<String>) -> (plan: Plan)
        ensures
            plan@ == feed_plan(self@, optional_text(text)),
    {
        let dated_pages = self.dated_pages();
        assert(page_models(dated_pages@).len() == dated_pages.len());
        if dated_pages.len() == 0 {
            return Plan::new();
        }
        self.plan_file("rss.xml", text)
    }

    /// The plan of writing the file for robots, rendered from what `robots_request` gives.
    pub fn render_robots(&self, text: Option<String>) -> (plan: Plan)
        ensures
            plan@ == file_plan(joined(self@.output_path, "robots.txt"@), optional_text(text)),
    {
        self.plan_file("robots.txt", text)
    }

    /// The plan of building the pages of the sections, which `htmls` were rendered for.
    pub fn render_sections(&self, htmls: &Vec<Option<String>>) -> (plan: Plan)
        requires
            htmls.len() == self.sections.len(),
        ensures
            plan@ == sections_plan(
                self@.output_path,
                self@.live_reload,
                self@.sections,
                optional_list(htmls@),
            ),
    {
        let ghost output = self@.output_path;
        let ghost live = self@.live_reload;
        let ghost all = self@.sections;
        let ghost texts_all = optional_list(htmls@);
        let mut plan = Plan::new();
        assert(all.take(0) == Seq::<SectionModel>::empty());
        for i in 0..self.sections.len()
            invariant
                output == self@.output_path,
                live == self@.live_reload,
                all == self@.sections,
                texts_all == optional_list(htmls@),
                htmls.len() == self.sections.len(),
                plan@ == sections_plan(output, live, all.take(i as int), texts_all),
        {
            let section = &self.sections[i];
            proof {
                assert(all.take(i + 1).drop_last() == all.take(i as int));
                assert(all.take(i + 1).last() == section@);
                assert(texts_all[i as int] == optional_text(htmls@[i as int]));
            }
            if plan.complete {
                let ghost before = plan@;
                let directory = ensure_directories(&mut plan, &self.output_path, &section.components);
                let ghost first = complete_plan(ensure_steps(output, section@.components));
                assert(plan@ == followed_by(before, first));
                let text = self.inject_option(&htmls[i]);
                proof {
                    lemma_followed_by_assoc(
                        before,
                        first,
                        file_plan(joined(directory@, "index.html"@), optional_text(text)),
                    );
                }
                plan.write(directory.join("index.html"), text);
            }
        }
        assert(all.take(self.sections.len() as int) == all);
        plan
    }

    /// Builds the site to the `public` directory after deleting it
    pub fn build(&self) -> (stages: Vec<Stage>)
        requires
            self.config.generate_rss is Some,
        ensures
            stages@ == build_stages(self@.config.generate_rss == Some(true)),
    {
        let mut stages: Vec<Stage> = Vec::new();
        stages.push(Stage::Clean);
        stages.push(Stage::Pages);
        stages.push(Stage::Sitemap);
        if self.config.generate_rss.unwrap() {
            stages.push(Stage::RssFeed);
        }
        stages.push(Stage::Robots);
        stages.push(Stage::Sections);
        stages.push(Stage::StaticFiles);
        assert(stages@ == build_stages(self@.config.generate_rss == Some(true)));
        stages
    }

    /// Brings the site up to date after a content file has changed, and gives the stages of the
    /// build that follows. `read` is what was read from the file, as `content_change` asked for it.
    pub fn rebuild_after_content_change(&mut self, path: &FilePath, read: Option<Content>) -> (stages:
        Vec<Stage>)
        requires
            old(self).well_formed(),
            old(self)@.config.generate_rss is Some,
            all_have_parents(with_change(old(self)@, path@, optional_content(read)).sections),
        ensures
            final(self)@ == with_sections_and_terms(
                with_change(old(self)@, path@, optional_content(read)),
            ),
            final(self).well_formed(),
            stages@ == build_stages(old(self)@.config.generate_rss == Some(true)),
    {
        self.apply_content_change(path, read);
        self.build()
    }

    /// The stages of the build that follows a change of a template.
    pub fn rebuild_after_template_change(&self) -> (stages: Vec<Stage>)
        ensures
            stages@ == seq![Stage::ReloadTemplates, Stage::Pages],
    {
        let mut stages: Vec<Stage> = Vec::new();
        stages.push(Stage::ReloadTemplates);
        stages.push(Stage::Pages);
        assert(stages@ == seq![Stage::ReloadTemplates, Stage::Pages]);
        stages
    }
}

} // verus!
