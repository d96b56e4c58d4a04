//! A site: its content, and how pages come together in sections, tags and categories.

use vstd::prelude::*;

use crate::content::{
    page_models, push_page, push_section, section_models, Config, ConfigModel, Page, PageModel,
    Section, SectionModel,
};
use crate::links::Permalinks;
use crate::order::{arranged, order, order_sorts, sorted_positions};
use crate::path::{has_parent, is_index, parsed, path_before, paths_are_ordered, FilePath};
use crate::taxonomy::{categorized, file_categories, file_tags, tagged, Taxonomy, TermModel};
use crate::text::{concat, replace_all, replace_text};

verus! {

/// A site, its pages in the order in which they were added, its sections in the order of their
/// directories.
#[derive(Debug)]
pub struct Site {
    pub base_path: FilePath,
    pub config: Config,
    pub pages: Vec<Page>,
    pub sections: Vec<Section>,
    /// Whether the script that reloads pages is put into what is rendered.
    pub live_reload: bool,
    /// The directory that the site is built into.
    pub output_path: FilePath,
    pub tags: Taxonomy,
    pub categories: Taxonomy,
}

/// What a content file holds.
#[derive(Debug)]
pub enum Content {
    Page(Page),
    Section(Section),
}

/// What is to be done about a content file that has changed.
#[derive(Clone, Copy, Debug, PartialEq, Eq, Structural)]
pub enum ContentChange {
    /// Read the file as a page.
    ReadPage,
    /// Read the file as the index page of a section.
    ReadSection,
    /// Forget the page, as the file is gone.
    Remove,
}

pub ghost enum ContentModel {
    Page(PageModel),
    Section(SectionModel),
}

pub ghost struct SiteModel {
    pub base_path: Seq<Seq<char>>,
    pub config: ConfigModel,
    pub pages: Seq<PageModel>,
    pub sections: Seq<SectionModel>,
    pub live_reload: bool,
    pub output_path: Seq<Seq<char>>,
    pub tags: Seq<TermModel>,
    pub categories: Seq<TermModel>,
}

/// Whether a page that was read from `file` is among the pages.
pub open spec fn has_page(pages: Seq<PageModel>, file: Seq<Seq<char>>) -> bool {
    exists|i: int| 0 <= i < pages.len() && #[trigger] pages[i].file_path == file
}

/// Whether no two pages were read from the same file.
pub open spec fn distinct_files(pages: Seq<PageModel>) -> bool {
    forall|i: int, j: int|
        0 <= i < j < pages.len() ==> #[trigger] pages[i].file_path != #[trigger] pages[j].file_path
}

/// Whether the sections stand in the order of their directories, each directory once.
pub open spec fn ascending(sections: Seq<SectionModel>) -> bool {
    forall|i: int, j: int|
        0 <= i < j < sections.len() ==> path_before(
            #[trigger] sections[i].parent_path,
            #[trigger] sections[j].parent_path,
        )
}

/// Whether the directory of each section lies in a directory.
pub open spec fn all_have_parents(sections: Seq<SectionModel>) -> bool {
    forall|i: int| 0 <= i < sections.len() ==> has_parent(#[trigger] sections[i].parent_path)
}

/// The pages after `page` is added: it takes the place of the page from the same file, or comes
/// last.
pub open spec fn put_page(pages: Seq<PageModel>, page: PageModel) -> Seq<PageModel> {
    if has_page(pages, page.file_path) {
        pages.map_values(|p: PageModel| if p.file_path == page.file_path { page } else { p })
    } else {
        pages.push(page)
    }
}

/// The pages but for the one from `file`.
pub open spec fn without_page(pages: Seq<PageModel>, file: Seq<Seq<char>>) -> Seq<PageModel> {
    pages.filter(|p: PageModel| p.file_path != file)
}

/// The sections whose directories come before `path`.
pub open spec fn sections_before(
    sections: Seq<SectionModel>,
    path: Seq<Seq<char>>,
) -> Seq<SectionModel> {
    sections.filter(|s: SectionModel| path_before(s.parent_path, path))
}

/// The sections whose directories come after `path`.
pub open spec fn sections_after(
    sections: Seq<SectionModel>,
    path: Seq<Seq<char>>,
) -> Seq<SectionModel> {
    sections.filter(|s: SectionModel| path_before(path, s.parent_path))
}

/// The sections after `section` is added: it stands at the place of its directory, where it takes
/// the place of the section of the same directory.
pub open spec fn put_section(
    sections: Seq<SectionModel>,
    section: SectionModel,
) -> Seq<SectionModel> {
    sections_before(sections, section.parent_path) + seq![section] + sections_after(
        sections,
        section.parent_path,
    )
}

/// The pages after the pages among `contents` are added, one by one.
pub open spec fn pages_loaded(
    pages: Seq<PageModel>,
    contents: Seq<ContentModel>,
) -> Seq<PageModel>
    decreases contents.len(),
{
    if contents.len() == 0 {
        pages
    } else {
        let before = pages_loaded(pages, contents.drop_last());
        match contents.last() {
            ContentModel::Page(page) => put_page(before, page),
            ContentModel::Section(_) => before,
        }
    }
}

/// The sections after the sections among `contents` are added, one by one.
pub open spec fn sections_loaded(
    sections: Seq<SectionModel>,
    contents: Seq<ContentModel>,
) -> Seq<SectionModel>
    decreases contents.len(),
{
    if contents.len() == 0 {
        sections
    } else {
        let before = sections_loaded(sections, contents.drop_last());
        match contents.last() {
            ContentModel::Page(_) => before,
            ContentModel::Section(section) => put_section(before, section),
        }
    }
}

/// The permalinks of pages, by the paths of their files.
pub open spec fn page_links(pages: Seq<PageModel>) -> Map<Seq<char>, Seq<char>>
    decreases pages.len(),
{
    if pages.len() == 0 {
        Map::empty()
    } else {
        page_links(pages.drop_last()).insert(pages.last().relative_path, pages.last().permalink)
    }
}

/// `links` with the permalinks of sections added; these take the place of what was there.
pub open spec fn section_links(
    links: Map<Seq<char>, Seq<char>>,
    sections: Seq<SectionModel>,
) -> Map<Seq<char>, Seq<char>>
    decreases sections.len(),
{
    if sections.len() == 0 {
        links
    } else {
        section_links(links, sections.drop_last()).insert(
            sections.last().relative_path,
            sections.last().permalink,
        )
    }
}

/// The permalinks of all the content files of a site.
pub open spec fn all_links(site: SiteModel) -> Map<Seq<char>, Seq<char>> {
    section_links(page_links(site.pages), site.sections)
}

/// A site with every page filed under its category and its tags.
pub open spec fn with_terms(site: SiteModel) -> SiteModel {
    SiteModel {
        tags: tagged(site.tags, site.pages),
        categories: categorized(site.categories, site.pages),
        ..site
    }
}

/// A site with its sections completed and every page filed under its category and its tags.
pub open spec fn with_sections_and_terms(site: SiteModel) -> SiteModel {
    with_terms(SiteModel { sections: populated(site.sections, site.pages), ..site })
}

/// A site after the file `path` was read, as `read`, or is gone.
pub open spec fn with_change(
    site: SiteModel,
    path: Seq<Seq<char>>,
    read: Option<ContentModel>,
) -> SiteModel {
    match read {
        Some(ContentModel::Page(page)) => SiteModel { pages: put_page(site.pages, page), ..site },
        Some(ContentModel::Section(section)) => SiteModel {
            sections: put_section(site.sections, section),
            ..site
        },
        None => SiteModel { pages: without_page(site.pages, path), ..site },
    }
}

/// What is to be done about a content file that has changed.
pub open spec fn needed_change(
    pages: Seq<PageModel>,
    path: Seq<Seq<char>>,
    exists: bool,
) -> ContentChange {
    if !exists {
        ContentChange::Remove
    } else if has_page(pages, path) && is_index(path) {
        ContentChange::ReadSection
    } else {
        ContentChange::ReadPage
    }
}

/// A directory with forward slashes, and a pattern of files below it.
pub open spec fn glob_below(directory: Seq<char>, pattern: Seq<char>) -> Seq<char> {
    replace_all(directory, "\\"@, "/"@) + "/"@ + pattern
}

/// The pages of a directory.
pub open spec fn pages_in(pages: Seq<PageModel>, directory: Seq<Seq<char>>) -> Seq<PageModel> {
    pages.filter(|p: PageModel| p.parent_path == directory)
}

/// Pages in ascending order of their ranks; those of equal rank keep their order.
pub open spec fn by_rank(pages: Seq<PageModel>) -> Seq<PageModel> {
    arranged(pages, pages.map_values(|p: PageModel| p.rank))
}

/// A section with the pages of its directory added.
pub open spec fn with_own_pages(section: SectionModel, pages: Seq<PageModel>) -> SectionModel {
    SectionModel { pages: section.pages + pages_in(pages, section.parent_path), ..section }
}

/// Of a section: whether its directory lies right in `directory`.
pub open spec fn lies_right_in(directory: Seq<Seq<char>>) -> spec_fn(SectionModel) -> bool {
    |s: SectionModel| s.parent_path.drop_last() == directory
}

/// The sections right below a directory.
pub open spec fn sections_below(
    sections: Seq<SectionModel>,
    directory: Seq<Seq<char>>,
) -> Seq<SectionModel> {
    sections.filter(lies_right_in(directory))
}

/// The sections, each with the pages of its directory added.
pub open spec fn all_with_own_pages(
    sections: Seq<SectionModel>,
    pages: Seq<PageModel>,
) -> Seq<SectionModel> {
    sections.map_values(|s: SectionModel| with_own_pages(s, pages))
}

/// A section with its pages in order and the sections right below it added.
pub open spec fn completed(section: SectionModel, all: Seq<SectionModel>) -> SectionModel {
    SectionModel {
        pages: by_rank(section.pages),
        subsections: section.subsections + sections_below(all, section.parent_path),
        ..section
    }
}

/// The sections after the pages and the sections right below each of them are found.
pub open spec fn populated(
    sections: Seq<SectionModel>,
    pages: Seq<PageModel>,
) -> Seq<SectionModel> {
    let filled = all_with_own_pages(sections, pages);
    filled.map_values(|s: SectionModel| completed(s, filled))
}

/// A copy of the pages in ascending order of their ranks.
pub fn sorted_pages(pages: &Vec<Page>) -> (sorted: Vec<Page>)
    ensures
        page_models(sorted@) == by_rank(page_models(pages@)),
{
    let ghost models = page_models(pages@);
    let ghost ranks = models.map_values(|p: PageModel| p.rank);
    let mut keys: Vec<i128> = Vec::new();
    for i in 0..pages.len()
        invariant
            keys.len() == i,
            forall|j: int| 0 <= j < i ==> keys@[j] == pages@[j].rank,
    {
        keys.push(pages[i].rank as i128);
    }
    let positions = sorted_positions(&keys);
    proof {
        assert(keys@.map_values(|k: i128| k as int) == ranks);
        order_sorts(ranks);
    }
    let ghost places = order(ranks);
    let mut sorted: Vec<Page> = Vec::new();
    for i in 0..positions.len()
        invariant
            models == page_models(pages@),
            positions@.map_values(|i: usize| i as int) == places,
            forall|i: int| 0 <= i < places.len() ==> 0 <= #[trigger] places[i] < pages.len(),
            sorted.len() == i,
            forall|j: int| 0 <= j < i ==> #[trigger] sorted@[j]@ == models[places[j]],
    {
        assert(places[i as int] == positions@[i as int] as int);
        sorted.push(pages[positions[i]].clone());
    }
    assert(page_models(sorted@) == by_rank(models));
    sorted
}

/// Adds to each section the pages of its directory.
fn add_own_pages(sections: &mut Vec<Section>, pages: &Vec<Page>)
    ensures
        section_models(final(sections)@) == all_with_own_pages(
            section_models(old(sections)@),
            page_models(pages@),
        ),
{
    let ghost before = section_models(sections@);
    let ghost all = page_models(pages@);
    let n: usize = sections.len();
    for i in 0..n
        invariant
            n == sections.len(),
            n == before.len(),
            all == page_models(pages@),
            forall|k: int| 0 <= k < i ==> #[trigger] sections@[k]@ == with_own_pages(before[k], all),
            forall|k: int| i <= k < n ==> #[trigger] sections@[k]@ == before[k],
    {
        let ghost prior = sections@;
        let ghost directory = before[i as int].parent_path;
        let mut own: Vec<Page> = Vec::new();
        assert(all.take(0) == Seq::<PageModel>::empty());
        assert(page_models(own@) == Seq::<PageModel>::empty());
        assert(sections@[i as int]@ == before[i as int]);
        for j in 0..pages.len()
            invariant
                i < sections.len(),
                all == page_models(pages@),
                directory == sections@[i as int].parent_path@,
                page_models(own@) == pages_in(all.take(j as int), directory),
        {
            proof {
                reveal(Seq::filter);
                assert(all.take(j + 1).drop_last() == all.take(j as int));
                assert(all.take(j + 1).last() == pages@[j as int]@);
            }
            if pages[j].parent_path.same(&sections[i].parent_path) {
                push_page(&mut own, pages[j].clone());
            }
        }
        assert(all.take(pages.len() as int) == all);
        let ghost found = page_models(own@);
        let ghost held = sections@[i as int];
        sections[i].pages.append(&mut own);
        proof {
            let now = sections@[i as int];
            assert(page_models(now.pages@) == page_models(held.pages@) + found);
            assert(now@ == with_own_pages(before[i as int], all));
            assert forall|k: int| 0 <= k < n && k != i implies sections@[k] == prior[k] by {}
        }
    }
    assert forall|k: int| 0 <= k < n implies section_models(sections@)[k] == all_with_own_pages(
        before,
        all,
    )[k] by {
        assert(sections@[k]@ == with_own_pages(before[k], all));
    }
    assert(section_models(sections@) == all_with_own_pages(before, all));
}

/// Copies of the sections right below a directory.
fn copies_below(sections: &Vec<Section>, directory: &FilePath) -> (below: Vec<Section>)
    requires
        all_have_parents(section_models(sections@)),
    ensures
        section_models(below@) == sections_below(section_models(sections@), directory@),
{
    let ghost all = section_models(sections@);
    let mut below: Vec<Section> = Vec::new();
    assert(all.take(0) == Seq::<SectionModel>::empty());
    assert(section_models(below@) == Seq::<SectionModel>::empty());
    for i in 0..sections.len()
        invariant
            all == section_models(sections@),
            all_have_parents(all),
            section_models(below@) == sections_below(all.take(i as int), directory@),
    {
        proof {
            reveal(Seq::filter);
            assert(all.take(i + 1).drop_last() == all.take(i as int));
            assert(all.take(i + 1).last() == sections@[i as int]@);
            assert(has_parent(all[i as int].parent_path));
        }
        if let Some(parent) = sections[i].parent_path.parent() {
            if parent.same(directory) {
                push_section(&mut below, sections[i].clone());
            }
        }
    }
    assert(all.take(sections.len() as int) == all);
    below
}

impl Site {
    /// Whether each file and each directory is that of one page or one section, the sections stand
    /// in order, and no tag or category is listed twice.
    pub open spec fn well_formed(&self) -> bool {
        &&& distinct_files(self@.pages)
        &&& ascending(self@.sections)
        &&& self.tags.well_formed()
        &&& self.categories.well_formed()
    }
}

impl View for Content {
    type V = ContentModel;

    open spec fn view(&self) -> ContentModel {
        match self {
            Content::Page(page) => ContentModel::Page(page@),
            Content::Section(section) => ContentModel::Section(section@),
        }
    }
}

impl View for Site {
    type V = SiteModel;

    open spec fn view(&self) -> SiteModel {
        SiteModel {
            base_path: self.base_path@,
            config: self.config@,
            pages: page_models(self.pages@),
            sections: section_models(self.sections@),
            live_reload: self.live_reload,
            output_path: self.output_path@,
            tags: self.tags@,
            categories: self.categories@,
        }
    }
}

/// The contents of a sequence.
pub open spec fn content_models(contents: Seq<Content>) -> Seq<ContentModel> {
    contents.map_values(|c: Content| c@)
}

/// The content that an option holds.
pub open spec fn optional_content(content: Option<Content>) -> Option<ContentModel> {
    match content {
        Some(c) => Some(c@),
        None => None,
    }
}

/// A sequence whose first `n` elements, and no others, fulfil `pred`, is filtered by taking these.
pub(crate) proof fn lemma_filter_prefix<A>(s: Seq<A>, pred: spec_fn(A) -> bool, n: int)
    requires
        0 <= n <= s.len(),
        forall|i: int| 0 <= i < s.len() ==> (pred(#[trigger] s[i]) <==> i < n),
    ensures
        s.filter(pred) == s.take(n),
    decreases s.len(),
{
    reveal(Seq::filter);
    if s.len() > 0 {
        let front = s.drop_last();
        let m = if n == s.len() { n - 1 } else { n };
        assert forall|i: int| 0 <= i < front.len() implies (pred(#[trigger] front[i]) <==> i < m) by {
            assert(front[i] == s[i]);
        }
        lemma_filter_prefix(front, pred, m);
        assert(s.last() == s[s.len() - 1]);
        assert(s.filter(pred) == s.take(n));
    }
}

/// A sequence whose elements from `n` on, and no others, fulfil `pred`, is filtered by taking
/// these.
proof fn lemma_filter_suffix<A>(s: Seq<A>, pred: spec_fn(A) -> bool, n: int)
    requires
        0 <= n <= s.len(),
        forall|i: int| 0 <= i < s.len() ==> (pred(#[trigger] s[i]) <==> n <= i),
    ensures
        s.filter(pred) == s.skip(n),
    decreases s.len(),
{
    reveal(Seq::filter);
    if s.len() > 0 {
        let front = s.drop_last();
        let m = if n == s.len() { n - 1 } else { n };
        assert forall|i: int| 0 <= i < front.len() implies (pred(#[trigger] front[i]) <==> m <= i) by {
            assert(front[i] == s[i]);
        }
        lemma_filter_suffix(front, pred, m);
        assert(s.last() == s[s.len() - 1]);
        assert(s.filter(pred) == s.skip(n));
    }
}

/// Where a section goes, and that the sections stay in order.
pub(crate) proof fn lemma_put_section(sections: Seq<SectionModel>, section: SectionModel, at: int)
    requires
        ascending(sections),
        0 <= at <= sections.len(),
        forall|i: int|
            0 <= i < at ==> path_before(
                #[trigger] sections[i].parent_path,
                section.parent_path,
            ),
        at < sections.len() ==> !path_before(sections[at].parent_path, section.parent_path),
    ensures
        at < sections.len() && sections[at].parent_path == section.parent_path ==> put_section(
            sections,
            section,
        ) == sections.update(at, section),
        !(at < sections.len() && sections[at].parent_path == section.parent_path) ==> put_section(
            sections,
            section,
        ) == sections.insert(at, section),
        ascending(put_section(sections, section)),
{
    let path = section.parent_path;
    let found = at < sections.len() && sections[at].parent_path == path;
    let rest = if found { at + 1 } else { at };
    let is_before = |s: SectionModel| path_before(s.parent_path, path);
    let is_after = |s: SectionModel| path_before(path, s.parent_path);
    assert forall|i: int| 0 <= i < sections.len() implies (is_before(#[trigger] sections[i]) <==> i
        < at) && (is_after(sections[i]) <==> rest <= i) by {
        let own = sections[i].parent_path;
        paths_are_ordered(own, path, own);
        paths_are_ordered(path, own, path);
        if at < i {
            let first = sections[at].parent_path;
            paths_are_ordered(own, path, first);
            paths_are_ordered(first, path, own);
            paths_are_ordered(path, first, own);
        }
    }
    lemma_filter_prefix(sections, is_before, at);
    lemma_filter_suffix(sections, is_after, rest);
    let all = put_section(sections, section);
    assert(all == sections.take(at) + seq![section] + sections.skip(rest));
    if found {
        assert(all == sections.update(at, section));
    } else {
        assert(all == sections.insert(at, section));
    }
    assert forall|i: int, j: int| 0 <= i < j < all.len() implies path_before(
        #[trigger] all[i].parent_path,
        #[trigger] all[j].parent_path,
    ) by {
        if i < at {
            assert(all[i] == sections[i]);
        } else if i > at {
            assert(all[i] == sections[i - at - 1 + rest]);
        }
        if j < at {
            assert(all[j] == sections[j]);
        } else if j > at {
            assert(all[j] == sections[j - at - 1 + rest]);
            assert(is_after(sections[j - at - 1 + rest]));
        }
        if i < at {
            assert(is_before(sections[i]));
        }
        if i < at && j > at {
            paths_are_ordered(all[i].parent_path, path, all[j].parent_path);
        }
    }
}

/// The files that templates are read from.
pub fn template_glob(directory: &str) -> (glob: String)
    ensures
        glob@ == glob_below(directory@, "templates/**/*"@),
{
    path_below(directory, "templates/**/*")
}

/// The files that content is read from.
pub fn content_glob(directory: &str) -> (glob: String)
    ensures
        glob@ == glob_below(directory@, "content/**/*.md"@),
{
    path_below(directory, "content/**/*.md")
}

fn path_below(directory: &str, pattern: &str) -> (glob: String)
    ensures
        glob@ == glob_below(directory@, pattern@),
{
    proof {
        reveal_strlit("\\");
    }
    let root = replace_text(directory, "\\", "/");
    concat(&concat(&root, "/"), pattern)
}

impl Site {
    /// A site without content, to be built into the directory `public`.
    pub fn new(base_path: FilePath, config: Config) -> (site: Site)
        ensures
            site@ == (SiteModel {
                base_path: base_path@,
                config: config@,
                pages: Seq::empty(),
                sections: Seq::empty(),
                live_reload: false,
                output_path: parsed("public"@),
                tags: Seq::empty(),
                categories: Seq::empty(),
            }),
            site.well_formed(),
    {
        let site = Site {
            base_path,
            config,
            pages: Vec::new(),
            sections: Vec::new(),
            live_reload: false,
            output_path: FilePath::parse("public"),
            tags: Taxonomy::new(),
            categories: Taxonomy::new(),
        };
        assert(site@.pages == Seq::<PageModel>::empty());
        assert(site@.sections == Seq::<SectionModel>::empty());
        site
    }

    /// What the function name says
    pub fn enable_live_reload(&mut self)
        ensures
            final(self)@ == (SiteModel { live_reload: true, ..old(self)@ }),
            old(self).well_formed() ==> final(self).well_formed(),
    {
        self.live_reload = true;
    }

    /// Used by tests to change the output path to a tmp dir
    pub fn set_output_path(&mut self, path: FilePath)
        ensures
            final(self)@ == (SiteModel { output_path: path@, ..old(self)@ }),
            old(self).well_formed() ==> final(self).well_formed(),
    {
        self.output_path = path;
    }

    /// Where the page from a file stands.
    fn find_page(&self, file: &FilePath) -> (found: Option<usize>)
        ensures
            found is Some <==> has_page(self@.pages, file@),
            found matches Some(i) ==> i < self.pages.len() && self@.pages[i as int].file_path
                == file@,
    {
        for i in 0..self.pages.len()
            invariant
                forall|j: int| 0 <= j < i ==> #[trigger] self@.pages[j].file_path != file@,
        {
            assert(self@.pages[i as int] == self.pages@[i as int]@);
            if self.pages[i].file_path.same(file) {
                assert(self@.pages[i as int].file_path == file@);
                return Some(i);
            }
        }
        None
    }

    /// Adds a page, in place of the page from the same file.
    pub fn add_page(&mut self, page: Page)
        requires
            old(self).well_formed(),
        ensures
            final(self)@ == (SiteModel { pages: put_page(old(self)@.pages, page@), ..old(self)@ }),
            final(self).well_formed(),
    {
        let ghost before = self@.pages;
        let ghost held = self.pages@;
        let ghost model = page@;
        match self.find_page(&page.file_path) {
            Some(i) => {
                self.pages[i] = page;
                proof {
                    let now = put_page(before, model);
                    assert forall|j: int| 0 <= j < before.len() implies self@.pages[j] == now[j] by {
                        if j != i {
                            assert(before[j].file_path != before[i as int].file_path);
                            assert(self.pages@[j] == held[j]);
                        }
                    }
                    assert(self@.pages == now);
                    assert forall|j: int| 0 <= j < now.len() implies (#[trigger] now[j]).file_path
                        == before[j].file_path by {}
                }
            },
            None => {
                push_page(&mut self.pages, page);
            },
        }
    }

    /// Adds a section, in place of the section of the same directory.
    pub fn add_section(&mut self, section: Section)
        requires
            old(self).well_formed(),
        ensures
            final(self)@ == (SiteModel {
                sections: put_section(old(self)@.sections, section@),
                ..old(self)@
            }),
            final(self).well_formed(),
    {
        let ghost before = self@.sections;
        let ghost held = self.sections@;
        let ghost model = section@;
        let mut at: usize = 0;
        while at < self.sections.len() && self.sections[at].parent_path.is_before(
            &section.parent_path,
        )
            invariant
                self.sections@ == held,
                before == section_models(held),
                model == section@,
                at <= self.sections.len(),
                forall|i: int|
                    0 <= i < at ==> path_before(
                        #[trigger] before[i].parent_path,
                        model.parent_path,
                    ),
            decreases self.sections.len() - at,
        {
            assert(before[at as int] == self.sections@[at as int]@);
            at = at + 1;
        }
        proof {
            if at < before.len() {
                assert(before[at as int] == self.sections@[at as int]@);
            }
            lemma_put_section(before, model, at as int);
        }
        if at < self.sections.len() && self.sections[at].parent_path.same(&section.parent_path) {
            self.sections[at] = section;
            assert(self@.sections == before.update(at as int, model));
        } else {
            self.sections.insert(at, section);
            assert(self@.sections == before.insert(at as int, model));
        }
    }

    /// The permalinks of all the content files.
    pub fn permalinks(&self) -> (links: Permalinks)
        ensures
            links@ == all_links(self@),
            links.well_formed(),
    {
        let mut links = Permalinks::new();
        let ghost pages = self@.pages;
        let ghost sections = self@.sections;
        assert(pages.take(0) == Seq::<PageModel>::empty());
        for i in 0..self.pages.len()
            invariant
                pages == self@.pages,
                links.well_formed(),
                links@ == page_links(pages.take(i as int)),
        {
            proof {
                assert(pages.take(i + 1).drop_last() == pages.take(i as int));
                assert(pages.take(i + 1).last() == self.pages@[i as int]@);
            }
            links.insert(self.pages[i].relative_path.clone(), self.pages[i].permalink.clone());
        }
        assert(pages.take(self.pages.len() as int) == pages);
        assert(sections.take(0) == Seq::<SectionModel>::empty());
        for i in 0..self.sections.len()
            invariant
                sections == self@.sections,
                links.well_formed(),
                links@ == section_links(page_links(self@.pages), sections.take(i as int)),
        {
            proof {
                assert(sections.take(i + 1).drop_last() == sections.take(i as int));
                assert(sections.take(i + 1).last() == self.sections@[i as int]@);
            }
            links.insert(self.sections[i].relative_path.clone(), self.sections[i].permalink.clone());
        }
        assert(sections.take(self.sections.len() as int) == sections);
        links
    }

    /// Adds what was read from the content files and gives the permalinks of all of them, which the
    /// relative links in the pages are resolved by.
    pub fn load(&mut self, contents: Vec<Content>) -> (links: Permalinks)
        requires
            old(self).well_formed(),
        ensures
            final(self)@ == (SiteModel {
                pages: pages_loaded(old(self)@.pages, content_models(contents@)),
                sections: sections_loaded(old(self)@.sections, content_models(contents@)),
                ..old(self)@
            }),
            final(self).well_formed(),
            links@ == all_links(final(self)@),
            links.well_formed(),
    {
        let ghost all = content_models(contents@);
        assert(all.take(0) == Seq::<ContentModel>::empty());
        for content in it: contents
            invariant
                self.well_formed(),
                it.seq() == contents@,
                all == content_models(contents@),
                self@ == (SiteModel {
                    pages: pages_loaded(old(self)@.pages, all.take(it.index() as int)),
                    sections: sections_loaded(old(self)@.sections, all.take(it.index() as int)),
                    ..old(self)@
                }),
        {
            proof {
                let i = it.index() as int;
                assert(all.take(i + 1).drop_last() == all.take(i));
                assert(all.take(i + 1).last() == content@);
            }
            match content {
                Content::Page(page) => self.add_page(page),
                Content::Section(section) => self.add_section(section),
            }
        }
        assert(all.take(all.len() as int) == all);
        self.permalinks()
    }

    /// Separated from `parse` for easier testing
    pub fn populate_tags_and_categories(&mut self)
        requires
            old(self).well_formed(),
        ensures
            final(self)@ == with_terms(old(self)@),
            final(self).well_formed(),
    {
        file_categories(&mut self.categories, &self.pages);
        file_tags(&mut self.tags, &self.pages);
    }

    /// What is to be done about a content file that has changed; `exists` says whether it is still
    /// there.
    pub fn content_change(&self, path: &FilePath, exists: bool) -> (change: ContentChange)
        ensures
            change == needed_change(self@.pages, path@, exists),
    {
        if exists {
            match self.find_page(path) {
                Some(_) => {
                    if path.is_index() {
                        ContentChange::ReadSection
                    } else {
                        // probably just an update so just re-parse that page
                        ContentChange::ReadPage
                    }
                },
                // new file?
                None => ContentChange::ReadPage,
            }
        } else {
            // File doesn't exist -> a deletion so we remove it
            ContentChange::Remove
        }
    }

    /// Removes the page from a file, if there is one.
    fn remove_page(&mut self, file: &FilePath)
        requires
            old(self).well_formed(),
        ensures
            final(self)@ == (SiteModel {
                pages: without_page(old(self)@.pages, file@),
                ..old(self)@
            }),
            final(self).well_formed(),
    {
        let ghost before = self@.pages;
        let ghost keep = |p: PageModel| p.file_path != file@;
        match self.find_page(file) {
            Some(i) => {
                self.pages.remove(i);
                proof {
                    let at = i as int;
                    let front = before.take(at);
                    let back = before.skip(at + 1);
                    assert(self@.pages == front + back);
                    assert(before == front + seq![before[at]] + back);
                    Seq::filter_distributes_over_add(front + seq![before[at]], back, keep);
                    Seq::filter_distributes_over_add(front, seq![before[at]], keep);
                    assert forall|k: int| 0 <= k < front.len() implies keep(#[trigger] front[k]) by {
                        assert(front[k] == before[k]);
                    }
                    assert forall|k: int| 0 <= k < back.len() implies keep(#[trigger] back[k]) by {
                        assert(back[k] == before[at + 1 + k]);
                    }
                    lemma_filter_prefix(front, keep, front.len() as int);
                    lemma_filter_prefix(back, keep, back.len() as int);
                    lemma_filter_prefix(seq![before[at]], keep, 0);
                    assert(seq![before[at]].take(0) == Seq::<PageModel>::empty());
                    assert(front.take(front.len() as int) == front);
                    assert(back.take(back.len() as int) == back);
                    assert(before.filter(keep) == front + back);
                    assert forall|x: int, y: int| 0 <= x < y < self@.pages.len() implies (
                    #[trigger] self@.pages[x]).file_path != (#[trigger] self@.pages[y]).file_path by {
                        let a = if x < at { x } else { x + 1 };
                        let b = if y < at { y } else { y + 1 };
                        assert(self@.pages[x] == before[a] && self@.pages[y] == before[b]);
                    }
                }
            },
            None => {
                proof {
                    assert forall|k: int| 0 <= k < before.len() implies keep(#[trigger] before[k]) by {
                        assert(before[k].file_path != file@);
                    }
                    lemma_filter_prefix(before, keep, before.len() as int);
                    assert(before.take(before.len() as int) == before);
                }
            },
        }
    }

    /// Completes the sections and files every page under its category and its tags.
    pub fn populate(&mut self)
        requires
            old(self).well_formed(),
            all_have_parents(old(self)@.sections),
        ensures
            final(self)@ == with_sections_and_terms(old(self)@),
            final(self).well_formed(),
    {
        self.populate_sections();
        self.populate_tags_and_categories();
    }

    /// Brings the content up to date after the file `path` was read anew, or was removed.
    pub(crate) fn apply_content_change(&mut self, path: &FilePath, read: Option<Content>)
        requires
            old(self).well_formed(),
            all_have_parents(with_change(old(self)@, path@, optional_content(read)).sections),
        ensures
            final(self)@ == with_sections_and_terms(
                with_change(old(self)@, path@, optional_content(read)),
            ),
            final(self).well_formed(),
    {
        match read {
            Some(Content::Page(page)) => self.add_page(page),
            Some(Content::Section(section)) => self.add_section(section),
            None => self.remove_page(path),
        }
        self.populate();
    }

    /// Find out the direct subsections of each subsection if there are some
    /// as well as the pages for each section
    pub fn populate_sections(&mut self)
        requires
            old(self).well_formed(),
            all_have_parents(old(self)@.sections),
        ensures
            final(self)@ == (SiteModel {
                sections: populated(old(self)@.sections, old(self)@.pages),
                ..old(self)@
            }),
            final(self).well_formed(),
    {
        let ghost before = self@.sections;
        let ghost all = self@.pages;
        add_own_pages(&mut self.sections, &self.pages);
        let ghost filled = section_models(self.sections@);
        let n: usize = self.sections.len();
        let mut below: Vec<Vec<Section>> = Vec::new();
        assert forall|i: int| 0 <= i < filled.len() implies has_parent(
            #[trigger] filled[i].parent_path,
        ) by {
            assert(filled[i].parent_path == before[i].parent_path);
        }
        for i in 0..n
            invariant
                n == self.sections.len(),
                filled == section_models(self.sections@),
                all_have_parents(filled),
                below.len() == i,
                forall|k: int|
                    0 <= k < i ==> section_models(#[trigger] below@[k]@) == sections_below(
                        filled,
                        filled[k].parent_path,
                    ),
        {
            below.push(copies_below(&self.sections, &self.sections[i].parent_path));
        }
        for i in 0..n
            invariant
                n == self.sections.len(),
                n == filled.len(),
                below.len() == n,
                forall|k: int|
                    i <= k < n ==> section_models(#[trigger] below@[k]@) == sections_below(
                        filled,
                        filled[k].parent_path,
                    ),
                forall|k: int|
                    0 <= k < i ==> #[trigger] self.sections@[k]@ == completed(filled[k], filled),
                forall|k: int| i <= k < n ==> #[trigger] self.sections@[k]@ == filled[k],
                self.base_path == old(self).base_path,
                self.config == old(self).config,
                self.pages == old(self).pages,
                self.live_reload == old(self).live_reload,
                self.output_path == old(self).output_path,
                self.tags == old(self).tags,
                self.categories == old(self).categories,
        {
            let ghost prior = self.sections@;
            let ghost lists = below@;
            let ghost held = self.sections@[i as int];
            let sorted = sorted_pages(&self.sections[i].pages);
            self.sections[i].pages = sorted;
            self.sections[i].subsections.append(&mut below[i]);
            proof {
                let now = self.sections@[i as int];
                assert(held@ == filled[i as int]);
                assert(section_models(lists[i as int]@) == sections_below(
                    filled,
                    filled[i as int].parent_path,
                ));
                assert(section_models(now.subsections@) == section_models(held.subsections@)
                    + section_models(lists[i as int]@));
                assert(now@ == completed(filled[i as int], filled));
                assert forall|k: int| 0 <= k < n && k != i implies self.sections@[k] == prior[k] by {
                }
                assert forall|k: int| 0 <= k < n && k != i implies below@[k] == lists[k] by {}
            }
        }
        proof {
            assert forall|k: int| 0 <= k < n implies section_models(self.sections@)[k] == populated(
                before,
                all,
            )[k] by {
                assert(self.sections@[k]@ == completed(filled[k], filled));
            }
            assert(section_models(self.sections@) == populated(before, all));
            assert forall|i: int, j: int| 0 <= i < j < before.len() implies path_before(
                #[trigger] self@.sections[i].parent_path,
                #[trigger] self@.sections[j].parent_path,
            ) by {
                assert(self@.sections[i].parent_path == before[i].parent_path);
                assert(self@.sections[j].parent_path == before[j].parent_path);
            }
        }
    }
}

} // verus!
