//! The content of a site: its configuration, its pages and its sections.

use tera::Value;
use vstd::prelude::*;

use crate::path::{paths, FilePath};
use crate::template::{clone_value, datum, Datum};
use crate::text::texts;

verus! {

/// What the build reads of a site's configuration, and what templates see of it.
#[derive(Debug)]
pub struct Config {
    pub base_url: String,
    pub generate_rss: Option<bool>,
    pub generate_tags_pages: Option<bool>,
    pub generate_categories_pages: Option<bool>,
    /// The configuration as templates see it.
    pub data: Value,
}

/// What the front matter of a page says of its place in the site.
#[derive(Debug)]
pub struct PageMeta {
    pub date: Option<String>,
    pub category: Option<String>,
    pub tags: Option<Vec<String>>,
}

/// A page.
#[derive(Debug)]
pub struct Page {
    /// The file it was read from.
    pub file_path: FilePath,
    /// The directory of that file.
    pub parent_path: FilePath,
    /// The file's path below the content directory.
    pub relative_path: String,
    /// The path of the page in the built site.
    pub path: String,
    pub permalink: String,
    /// Files that are copied next to the rendered page.
    pub assets: Vec<FilePath>,
    pub meta: PageMeta,
    /// Where the page stands among the pages: one with a smaller rank comes first.
    pub rank: u64,
    /// The page as templates see it.
    pub data: Value,
}

/// A directory of pages that has an index page.
#[derive(Debug)]
pub struct Section {
    /// The directory.
    pub parent_path: FilePath,
    /// The index page's path below the content directory.
    pub relative_path: String,
    pub permalink: String,
    /// The directories that lead to the section in the built site.
    pub components: Vec<String>,
    pub pages: Vec<Page>,
    pub subsections: Vec<Section>,
    /// The section as templates see it.
    pub data: Value,
}

pub ghost struct ConfigModel {
    pub base_url: Seq<char>,
    pub generate_rss: Option<bool>,
    pub generate_tags_pages: Option<bool>,
    pub generate_categories_pages: Option<bool>,
    pub data: Datum,
}

#[verifier::ext_equal]
pub ghost struct PageModel {
    pub file_path: Seq<Seq<char>>,
    pub parent_path: Seq<Seq<char>>,
    pub relative_path: Seq<char>,
    pub path: Seq<char>,
    pub permalink: Seq<char>,
    pub assets: Seq<Seq<Seq<char>>>,
    pub date: Option<Seq<char>>,
    pub category: Option<Seq<char>>,
    pub tags: Option<Seq<Seq<char>>>,
    pub rank: int,
    pub data: Datum,
}

#[verifier::ext_equal]
pub ghost struct SectionModel {
    pub parent_path: Seq<Seq<char>>,
    pub relative_path: Seq<char>,
    pub permalink: Seq<char>,
    pub components: Seq<Seq<char>>,
    pub pages: Seq<PageModel>,
    pub subsections: Seq<SectionModel>,
    pub data: Datum,
}

/// The text that an option holds.
pub open spec fn optional_text(text: Option<String>) -> Option<Seq<char>> {
    match text {
        Some(s) => Some(s@),
        None => None,
    }
}

/// The texts that an option holds.
pub open spec fn optional_texts(list: Option<Vec<String>>) -> Option<Seq<Seq<char>>> {
    match list {
        Some(v) => Some(texts(v@)),
        None => None,
    }
}

impl View for Config {
    type V = ConfigModel;

    open spec fn view(&self) -> ConfigModel {
        ConfigModel {
            base_url: self.base_url@,
            generate_rss: self.generate_rss,
            generate_tags_pages: self.generate_tags_pages,
            generate_categories_pages: self.generate_categories_pages,
            data: datum(&self.data),
        }
    }
}

impl View for Page {
    type V = PageModel;

    open spec fn view(&self) -> PageModel {
        PageModel {
            file_path: self.file_path@,
            parent_path: self.parent_path@,
            relative_path: self.relative_path@,
            path: self.path@,
            permalink: self.permalink@,
            assets: paths(self.assets@),
            date: optional_text(self.meta.date),
            category: optional_text(self.meta.category),
            tags: optional_texts(self.meta.tags),
            rank: self.rank as int,
            data: datum(&self.data),
        }
    }
}

/// The pages of a sequence.
pub open spec fn page_models(pages: Seq<Page>) -> Seq<PageModel> {
    pages.map_values(|p: Page| p@)
}

/// The sections of a sequence.
pub open spec fn section_models(sections: Seq<Section>) -> Seq<SectionModel>
    decreases sections,
{
    Seq::new(
        sections.len(),
        |i: int|
            if 0 <= i < sections.len() {
                section_model(sections[i])
            } else {
                arbitrary()
            },
    )
}

pub open spec fn section_model(section: Section) -> SectionModel
    decreases section,
{
    SectionModel {
        parent_path: section.parent_path@,
        relative_path: section.relative_path@,
        permalink: section.permalink@,
        components: texts(section.components@),
        pages: page_models(section.pages@),
        subsections: section_models(section.subsections@),
        data: datum(&section.data),
    }
}

impl View for Section {
    type V = SectionModel;

    open spec fn view(&self) -> SectionModel {
        section_model(*self)
    }
}

/// A copy of a text, if there is one.
fn clone_text(text: &Option<String>) -> (copy: Option<String>)
    ensures
        optional_text(copy) == optional_text(*text),
{
    match text {
        Some(s) => Some(s.clone()),
        None => None,
    }
}

/// A copy of a list of texts.
fn clone_texts(list: &Vec<String>) -> (copy: Vec<String>)
    ensures
        texts(copy@) == texts(list@),
{
    let copy = list.clone();
    assert(texts(copy@) == texts(list@));
    copy
}

/// A copy of a list of paths.
pub(crate) fn clone_paths(list: &Vec<FilePath>) -> (copy: Vec<FilePath>)
    ensures
        paths(copy@) == paths(list@),
{
    let mut copy: Vec<FilePath> = Vec::new();
    for i in 0..list.len()
        invariant
            paths(copy@) == paths(list@).take(i as int),
    {
        let ghost before = copy@;
        copy.push(list[i].clone());
        assert(paths(copy@) == paths(before).push(list@[i as int]@));
        assert(paths(list@).take(i + 1) == paths(list@).take(i as int).push(paths(list@)[i as int]));
    }
    assert(paths(list@).take(list.len() as int) == paths(list@));
    copy
}

/// A copy of a list of pages.
pub(crate) fn clone_pages(list: &Vec<Page>) -> (copy: Vec<Page>)
    ensures
        page_models(copy@) == page_models(list@),
{
    let mut copy: Vec<Page> = Vec::new();
    for i in 0..list.len()
        invariant
            page_models(copy@) == page_models(list@).take(i as int),
    {
        push_page(&mut copy, list[i].clone());
        assert(page_models(list@).take(i + 1) == page_models(list@).take(i as int).push(
            page_models(list@)[i as int],
        ));
    }
    assert(page_models(list@).take(list.len() as int) == page_models(list@));
    copy
}

/// Adds a page to a list.
pub(crate) fn push_page(list: &mut Vec<Page>, page: Page)
    ensures
        page_models(final(list)@) == page_models(old(list)@).push(page@),
{
    let ghost before = list@;
    list.push(page);
    assert(page_models(list@) == page_models(before).push(page@));
}

/// Adds a section to a list.
pub(crate) fn push_section(list: &mut Vec<Section>, section: Section)
    ensures
        section_models(final(list)@) == section_models(old(list)@).push(section@),
{
    let ghost before = list@;
    list.push(section);
    assert(section_models(list@) == section_models(before).push(section@));
}

impl Clone for Config {
    fn clone(&self) -> (config: Config)
        ensures
            config@ == self@,
    {
        Config {
            base_url: self.base_url.clone(),
            generate_rss: self.generate_rss,
            generate_tags_pages: self.generate_tags_pages,
            generate_categories_pages: self.generate_categories_pages,
            data: clone_value(&self.data),
        }
    }
}

impl Clone for Page {
    fn clone(&self) -> (page: Page)
        ensures
            page@ == self@,
    {
        let tags = match &self.meta.tags {
            Some(list) => Some(clone_texts(list)),
            None => None,
        };
        Page {
            file_path: self.file_path.clone(),
            parent_path: self.parent_path.clone(),
            relative_path: self.relative_path.clone(),
            path: self.path.clone(),
            permalink: self.permalink.clone(),
            assets: clone_paths(&self.assets),
            meta: PageMeta {
                date: clone_text(&self.meta.date),
                category: clone_text(&self.meta.category),
                tags,
            },
            rank: self.rank,
            data: clone_value(&self.data),
        }
    }
}

impl Clone for Section {
    fn clone(&self) -> (section: Section)
        ensures
            section@ == self@,
        decreases self,
    {
        let mut subsections: Vec<Section> = Vec::new();
        let ghost all = section_models(self.subsections@);
        for i in 0..self.subsections.len()
            invariant
                all == section_models(self.subsections@),
                section_models(subsections@) == all.take(i as int),
        {
            let sub = &self.subsections[i];
            assert(sub@ == all[i as int]);
            push_section(&mut subsections, sub.clone());
            assert(all.take(i + 1) == all.take(i as int).push(all[i as int]));
        }
        assert(all.take(self.subsections.len() as int) == all);
        Section {
            parent_path: self.parent_path.clone(),
            relative_path: self.relative_path.clone(),
            permalink: self.permalink.clone(),
            components: clone_texts(&self.components),
            pages: clone_pages(&self.pages),
            subsections,
            data: clone_value(&self.data),
        }
    }
}

} // verus!
