use gutenberg::content::{Config, Page, PageMeta, Section};
use gutenberg::path::FilePath;
use gutenberg::site::{content_glob, sorted_pages, template_glob, Content, ContentChange, Site};
use gutenberg::stages::Stage;

fn config() -> Config {
    Config {
        base_url: "http://example.com".to_string(),
        generate_rss: Some(false),
        generate_tags_pages: Some(true),
        generate_categories_pages: Some(true),
        data: tera::to_value("config").unwrap(),
    }
}

fn site() -> Site {
    Site::new(FilePath::parse("."), config())
}

fn page(file: &str, rank: u64) -> Page {
    let file_path = FilePath::parse(file);
    let parent_path = file_path.parent().unwrap();
    Page {
        file_path,
        parent_path,
        relative_path: file.replace("content/", ""),
        path: file.replace("content/", "").replace(".md", ""),
        permalink: format!("http://example.com/{}", file),
        assets: vec![],
        meta: PageMeta { date: None, category: None, tags: None },
        rank,
        data: tera::to_value(file).unwrap(),
    }
}

fn section(directory: &str) -> Section {
    Section {
        parent_path: FilePath::parse(directory),
        relative_path: format!("{}/_index.md", directory.replace("content/", "")),
        permalink: format!("http://example.com/{}", directory),
        components: directory.replace("content/", "").split('/').map(|c| c.to_string()).collect(),
        pages: vec![],
        subsections: vec![],
        data: tera::to_value(directory).unwrap(),
    }
}

fn with_terms(mut page: Page, category: Option<&str>, tags: Option<Vec<&str>>) -> Page {
    page.meta.category = category.map(|c| c.to_string());
    page.meta.tags = tags.map(|list| list.iter().map(|t| t.to_string()).collect());
    page
}

fn text(path: &FilePath) -> String {
    path.parts().join("/")
}

fn files(pages: &Vec<Page>) -> Vec<String> {
    pages.iter().map(|p| text(&p.file_path)).collect()
}

fn directories(sections: &Vec<Section>) -> Vec<String> {
    sections.iter().map(|s| text(&s.parent_path)).collect()
}

#[test]
fn a_new_site_is_empty() {
    let site = site();
    assert!(site.pages.is_empty());
    assert!(site.sections.is_empty());
    assert!(site.tags.terms.is_empty());
    assert!(site.categories.terms.is_empty());
    assert!(!site.live_reload);
    assert_eq!(text(&site.output_path), "public");
    assert_eq!(text(&site.base_path), ".");
    assert_eq!(site.config.base_url, "http://example.com");
}

#[test]
fn settings_change_nothing_else() {
    let mut site = site();
    site.add_page(page("content/a.md", 0));
    site.enable_live_reload();
    site.set_output_path(FilePath::parse("/tmp/out"));
    assert!(site.live_reload);
    assert_eq!(text(&site.output_path), "//tmp/out");
    assert_eq!(files(&site.pages), vec!["content/a.md"]);
}

#[test]
fn globs_use_forward_slashes() {
    assert_eq!(template_glob("."), "./templates/**/*");
    assert_eq!(template_glob("C:\\site\\docs"), "C:/site/docs/templates/**/*");
    assert_eq!(content_glob("/srv/site"), "/srv/site/content/**/*.md");
    assert_eq!(content_glob("a\\b"), "a/b/content/**/*.md");
}

#[test]
fn a_page_from_the_same_file_is_replaced() {
    let mut site = site();
    site.add_page(page("content/a.md", 0));
    site.add_page(page("content/b.md", 1));
    let mut again = page("content/a.md", 7);
    again.permalink = "new".to_string();
    site.add_page(again);
    assert_eq!(files(&site.pages), vec!["content/a.md", "content/b.md"]);
    assert_eq!(site.pages[0].permalink, "new");
    assert_eq!(site.pages[0].rank, 7);
    assert_eq!(site.pages[1].rank, 1);
}

#[test]
fn sections_stand_in_the_order_of_their_directories() {
    let mut site = site();
    for directory in ["content/posts", "content/about", "content/posts/2017", "content/posts-old", "content"].iter() {
        site.add_section(section(directory));
    }
    assert_eq!(
        directories(&site.sections),
        vec!["content", "content/about", "content/posts", "content/posts/2017", "content/posts-old"]
    );
    let mut again = section("content/posts");
    again.permalink = "new".to_string();
    site.add_section(again);
    assert_eq!(site.sections.len(), 5);
    assert_eq!(site.sections[2].permalink, "new");
}

#[test]
fn loading_adds_pages_and_sections_and_gives_the_permalinks() {
    let mut site = site();
    let links = site.load(vec![
        Content::Page(page("content/b.md", 0)),
        Content::Section(section("content/posts")),
        Content::Page(page("content/posts/a.md", 1)),
    ]);
    assert_eq!(files(&site.pages), vec!["content/b.md", "content/posts/a.md"]);
    assert_eq!(directories(&site.sections), vec!["content/posts"]);
    assert_eq!(links.get("b.md"), Some("http://example.com/content/b.md".to_string()));
    assert_eq!(links.get("posts/a.md"), Some("http://example.com/content/posts/a.md".to_string()));
    assert_eq!(links.get("posts/_index.md"), Some("http://example.com/content/posts".to_string()));
    assert_eq!(links.get("a.md"), None);
    // nothing is completed yet
    assert!(site.sections[0].pages.is_empty());
}

#[test]
fn the_permalink_of_a_section_wins() {
    let mut site = site();
    let mut other = page("content/posts/a.md", 0);
    other.relative_path = "posts/_index.md".to_string();
    let links = site.load(vec![
        Content::Section(section("content/posts")),
        Content::Page(other),
    ]);
    assert_eq!(links.get("posts/_index.md"), Some("http://example.com/content/posts".to_string()));
}

#[test]
fn pages_are_sorted_by_rank() {
    let pages = vec![page("content/c.md", 2), page("content/a.md", 0), page("content/d.md", 2), page("content/b.md", 1)];
    assert_eq!(
        files(&sorted_pages(&pages)),
        vec!["content/a.md", "content/b.md", "content/c.md", "content/d.md"]
    );
    let sorted = sorted_pages(&pages);
    assert_eq!(files(&sorted_pages(&sorted)), files(&sorted));
    assert!(sorted_pages(&vec![]).is_empty());
}

#[test]
fn sections_get_their_pages_and_subsections() {
    let mut site = site();
    site.load(vec![
        Content::Page(page("content/posts/z.md", 3)),
        Content::Page(page("content/posts/y.md", 1)),
        Content::Page(page("content/posts/2017/x.md", 2)),
        Content::Page(page("content/top.md", 0)),
        Content::Section(section("content/posts")),
        Content::Section(section("content/posts/2017")),
        Content::Section(section("content/posts/2017/may")),
        Content::Section(section("content/posts/2016")),
    ]);
    site.populate_sections();
    let posts = &site.sections[0];
    assert_eq!(text(&posts.parent_path), "content/posts");
    assert_eq!(files(&posts.pages), vec!["content/posts/y.md", "content/posts/z.md"]);
    assert_eq!(directories(&posts.subsections), vec!["content/posts/2016", "content/posts/2017"]);
    // the copies below a section were taken with their pages, before these had subsections
    assert_eq!(files(&posts.subsections[1].pages), vec!["content/posts/2017/x.md"]);
    assert!(posts.subsections[1].subsections.is_empty());
    let of_year = &site.sections[2];
    assert_eq!(files(&of_year.pages), vec!["content/posts/2017/x.md"]);
    assert_eq!(directories(&of_year.subsections), vec!["content/posts/2017/may"]);
    assert!(site.sections[1].pages.is_empty());
    assert!(site.sections[1].subsections.is_empty());
    // pages outside of any section stay where they are
    assert_eq!(site.pages.len(), 4);
}

#[test]
fn completing_sections_again_adds_their_pages_again() {
    let mut site = site();
    site.load(vec![
        Content::Page(page("content/posts/a.md", 0)),
        Content::Section(section("content/posts")),
        Content::Section(section("content/posts/sub")),
    ]);
    site.populate_sections();
    site.populate_sections();
    assert_eq!(files(&site.sections[0].pages), vec!["content/posts/a.md", "content/posts/a.md"]);
    assert_eq!(site.sections[0].subsections.len(), 2);
}

#[test]
fn pages_are_filed_under_their_terms() {
    let mut site = site();
    site.add_page(with_terms(page("content/a.md", 0), Some("prog"), Some(vec!["rust", "verus"])));
    site.add_page(with_terms(page("content/b.md", 1), None, Some(vec!["rust"])));
    site.add_page(with_terms(page("content/c.md", 2), Some("prog"), None));
    site.add_page(page("content/d.md", 3));
    site.populate_tags_and_categories();
    assert_eq!(site.tags.terms.len(), 2);
    assert_eq!(site.tags.terms[0].name, "rust");
    assert_eq!(
        site.tags.terms[0].pages.iter().map(text).collect::<Vec<String>>(),
        vec!["content/a.md", "content/b.md"]
    );
    assert_eq!(site.tags.terms[1].name, "verus");
    assert_eq!(site.tags.terms[1].pages.len(), 1);
    assert_eq!(site.categories.terms.len(), 1);
    assert_eq!(
        site.categories.terms[0].pages.iter().map(text).collect::<Vec<String>>(),
        vec!["content/a.md", "content/c.md"]
    );
}

#[test]
fn changed_files_are_read_or_removed() {
    let mut site = site();
    site.add_page(page("content/a.md", 0));
    site.add_page(page("content/_index.md", 1));
    site.add_section(section("content/posts"));
    let known = FilePath::parse("content/a.md");
    assert_eq!(site.content_change(&known, true), ContentChange::ReadPage);
    assert_eq!(site.content_change(&known, false), ContentChange::Remove);
    let index = FilePath::parse("content/_index.md");
    assert_eq!(site.content_change(&index, true), ContentChange::ReadSection);
    let unknown_index = FilePath::parse("content/posts/_index.md");
    assert_eq!(site.content_change(&unknown_index, true), ContentChange::ReadPage);
    assert_eq!(site.content_change(&unknown_index, false), ContentChange::Remove);
    let new_file = FilePath::parse("content/new.md");
    assert_eq!(site.content_change(&new_file, true), ContentChange::ReadPage);
}

#[test]
fn a_removed_page_is_gone() {
    let mut site = site();
    site.add_page(page("content/a.md", 0));
    site.add_page(page("content/b.md", 1));
    site.add_page(page("content/c.md", 2));
    site.rebuild_after_content_change(&FilePath::parse("content/b.md"), None);
    assert_eq!(files(&site.pages), vec!["content/a.md", "content/c.md"]);
    site.rebuild_after_content_change(&FilePath::parse("content/unknown.md"), None);
    assert_eq!(files(&site.pages), vec!["content/a.md", "content/c.md"]);
}

#[test]
fn a_changed_page_takes_effect() {
    let mut site = site();
    site.add_page(page("content/posts/a.md", 0));
    site.add_section(section("content/posts"));
    let changed = with_terms(page("content/posts/b.md", 1), Some("prog"), None);
    let stages = site.rebuild_after_content_change(
        &FilePath::parse("content/posts/b.md"),
        Some(Content::Page(changed)),
    );
    assert_eq!(files(&site.pages), vec!["content/posts/a.md", "content/posts/b.md"]);
    assert_eq!(site.sections[0].pages.len(), 2);
    assert_eq!(site.categories.terms[0].name, "prog");
    assert_eq!(stages[0], Stage::Clean);
    assert_eq!(stages.len(), 6);
}

#[test]
fn a_changed_section_takes_effect() {
    let mut site = site();
    site.add_page(page("content/posts/a.md", 0));
    let stages = site.rebuild_after_content_change(
        &FilePath::parse("content/posts/_index.md"),
        Some(Content::Section(section("content/posts"))),
    );
    assert_eq!(directories(&site.sections), vec!["content/posts"]);
    assert_eq!(files(&site.sections[0].pages), vec!["content/posts/a.md"]);
    assert_eq!(stages.last(), Some(&Stage::StaticFiles));
}

#[test]
fn populating_does_both() {
    let mut site = site();
    site.add_page(with_terms(page("content/posts/a.md", 0), None, Some(vec!["x", "x"])));
    site.add_section(section("content/posts"));
    site.populate();
    assert_eq!(site.sections[0].pages.len(), 1);
    // a tag that a page has twice lists the page twice
    assert_eq!(site.tags.terms[0].pages.len(), 2);
}

#[test]
fn sections_of_an_absolute_site_have_parents() {
    let mut site = site();
    site.add_section(section("/srv"));
    site.populate_sections();
    assert!(site.sections[0].subsections.is_empty());
}
