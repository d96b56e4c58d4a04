use gutenberg::content::{Config, Page, PageMeta, Section};
use gutenberg::path::FilePath;
use gutenberg::plan::{Plan, Step};
use gutenberg::render::Request;
use gutenberg::site::Site;
use gutenberg::stages::{RenderedPages, Stage, StaticEntry};
use gutenberg::taxonomy::RenderList;

fn config(base_url: &str) -> Config {
    Config {
        base_url: base_url.to_string(),
        generate_rss: Some(true),
        generate_tags_pages: Some(true),
        generate_categories_pages: Some(false),
        data: tera::to_value("the config").unwrap(),
    }
}

fn site() -> Site {
    Site::new(FilePath::parse("."), config("http://example.com"))
}

fn page(file: &str, rank: u64, tags: Vec<&str>) -> Page {
    let file_path = FilePath::parse(file);
    let parent_path = file_path.parent().unwrap();
    Page {
        file_path,
        parent_path,
        relative_path: file.replace("content/", ""),
        path: file.replace("content/", "").replace(".md", ""),
        permalink: format!("http://example.com/{}", file),
        assets: vec![],
        meta: PageMeta {
            date: None,
            category: None,
            tags: Some(tags.iter().map(|t| t.to_string()).collect()),
        },
        rank,
        data: tera::to_value(file).unwrap(),
    }
}

fn section(directory: &str) -> Section {
    Section {
        parent_path: FilePath::parse(directory),
        relative_path: format!("{}/_index.md", directory),
        permalink: format!("http://example.com/{}", directory),
        components: directory.replace("content/", "").split('/').map(|c| c.to_string()).collect(),
        pages: vec![],
        subsections: vec![],
        data: tera::to_value(directory).unwrap(),
    }
}

fn dated(mut page: Page, date: &str) -> Page {
    page.meta.date = Some(date.to_string());
    page
}

fn text(path: &FilePath) -> String {
    path.parts().join("/")
}

fn show(step: &Step) -> String {
    match step {
        Step::EnsureDirectory(path) => format!("ensure {}", text(path)),
        Step::CreateDirectory(path) => format!("create {}", text(path)),
        Step::RequireDirectory(path) => format!("require {}", text(path)),
        Step::RemoveDirectory(path) => format!("remove {}", text(path)),
        Step::WriteFile { path, text: content } => format!("write {}: {}", text(path), content),
        Step::CopyFile { from, to } => format!("copy {} to {}", text(from), text(to)),
        Step::ReplaceFile { from, to } => format!("replace {} by {}", text(to), text(from)),
        Step::ReplaceDirectory { from, to } => {
            format!("replace directory {} by {}", text(to), text(from))
        }
    }
}

fn show_all(steps: &Vec<Step>) -> Vec<String> {
    steps.iter().map(show).collect()
}

fn some(content: &str) -> Option<String> {
    Some(content.to_string())
}

fn json(request: &Request) -> tera::Value {
    request.context.as_json().unwrap()
}

fn keys(request: &Request) -> Vec<String> {
    let mut names: Vec<String> = json(request).as_object().unwrap().keys().map(|k| k.to_string()).collect();
    names.sort();
    names
}

fn strings(value: &tera::Value) -> Vec<String> {
    value.as_array().unwrap().iter().map(|v| v.as_str().unwrap().to_string()).collect()
}

fn owned(list: Vec<&str>) -> Vec<String> {
    list.iter().map(|s| s.to_string()).collect()
}

const SCRIPT: &str = "<script src=\"/livereload.js?port=1112&mindelay=10\"></script></body>";

#[test]
fn the_script_is_injected_in_live_reload_mode_only() {
    let mut site = site();
    assert_eq!(site.inject_livereload("<body>x</body>"), "<body>x</body>");
    site.enable_live_reload();
    assert_eq!(site.inject_livereload("<body>x</body>"), format!("<body>x{}", SCRIPT));
    assert_eq!(site.inject_livereload("no end"), "no end");
    assert_eq!(site.inject_livereload("</body></body>"), format!("{}{}", SCRIPT, SCRIPT));
    assert_eq!(site.inject_livereload("<<</body>"), format!("<<{}", SCRIPT));
    assert_eq!(site.inject_livereload(""), "");
}

#[test]
fn every_end_of_a_body_follows_the_script() {
    let mut site = site();
    site.enable_live_reload();
    for html in ["</body>", "a</body>b</body></bod", "</</body>", "</script></body>", SCRIPT].iter() {
        let out = site.inject_livereload(html);
        for (at, _) in out.match_indices("</body>") {
            assert!(out[..at + 7].ends_with(SCRIPT));
        }
        assert_eq!(out.matches("</body>").count(), html.matches("</body>").count());
    }
}

#[test]
fn static_files_go_to_the_public_directory() {
    let mut site = site();
    site.set_output_path(FilePath::parse("elsewhere"));
    let entries = vec![
        StaticEntry { path: FilePath::parse("static"), is_dir: true },
        StaticEntry { path: FilePath::parse("static/css"), is_dir: true },
        StaticEntry { path: FilePath::parse("static/css/site.css"), is_dir: false },
        StaticEntry { path: FilePath::parse("static/static"), is_dir: false },
    ];
    assert_eq!(
        show_all(&site.copy_static_directory(&entries)),
        vec![
            "require public",
            "ensure public/css",
            "replace public/css/site.css by static/css/site.css",
            "replace public/static by static/static",
        ]
    );
    assert!(site.copy_static_directory(&vec![]).is_empty());
}

#[test]
fn a_plain_file_in_place_of_the_static_directory_is_not_copied_over() {
    let entries = vec![StaticEntry { path: FilePath::parse("static"), is_dir: false }];
    assert_eq!(
        show_all(&site().copy_static_directory(&entries)),
        vec!["replace directory public by static"]
    );
}

#[test]
fn cleaning_removes_the_public_directory() {
    let mut site = site();
    assert_eq!(show_all(&site.clean()), vec!["remove public"]);
    site.set_output_path(FilePath::parse("elsewhere"));
    assert_eq!(show_all(&site.clean()), vec!["remove public"]);
}

#[test]
fn a_build_goes_through_its_stages() {
    let mut site = site();
    assert_eq!(
        site.build(),
        vec![
            Stage::Clean,
            Stage::Pages,
            Stage::Sitemap,
            Stage::RssFeed,
            Stage::Robots,
            Stage::Sections,
            Stage::StaticFiles,
        ]
    );
    site.config.generate_rss = Some(false);
    assert_eq!(
        site.build(),
        vec![
            Stage::Clean,
            Stage::Pages,
            Stage::Sitemap,
            Stage::Robots,
            Stage::Sections,
            Stage::StaticFiles,
        ]
    );
    assert_eq!(site.rebuild_after_template_change(), vec![Stage::ReloadTemplates, Stage::Pages]);
}

#[test]
fn taxonomies_have_a_list_page_and_one_page_per_term() {
    let mut site = site();
    assert!(site.taxonomy_paths(RenderList::Tags).is_empty());
    site.add_page(page("content/a.md", 0, vec!["Rust Lang", "verus"]));
    site.populate_tags_and_categories();
    assert_eq!(site.taxonomy_paths(RenderList::Tags), vec!["tags", "tags/rust-lang", "tags/verus"]);
    assert!(site.taxonomy_paths(RenderList::Categories).is_empty());
    assert_eq!(site.taxonomy(RenderList::Tags).terms.len(), 2);
    assert_eq!(site.taxonomy(RenderList::Categories).terms.len(), 0);
}

#[test]
fn tag_pages_are_rendered_from_their_pages() {
    let mut site = site();
    site.add_page(page("content/late.md", 9, vec!["verus", "Rust Lang"]));
    site.add_page(page("content/early.md", 1, vec!["Rust Lang"]));
    site.add_page(page("content/other.md", 0, vec![]));
    site.populate_tags_and_categories();
    let urls = owned(vec!["u0", "u1", "u2"]);
    let requests = site.taxonomy_requests(RenderList::Tags, &urls);
    assert_eq!(requests.len(), 3);

    let list = json(&requests[0]);
    assert_eq!(requests[0].template, "tags.html");
    assert_eq!(keys(&requests[0]), vec!["config", "current_path", "current_url", "tags"]);
    assert_eq!(list["current_url"].as_str(), Some("u0"));
    assert_eq!(list["current_path"].as_str(), Some("/tags"));
    assert_eq!(list["config"].as_str(), Some("the config"));
    let items = list["tags"].as_array().unwrap();
    assert_eq!(items.len(), 2);
    assert_eq!(items[0]["name"].as_str(), Some("Rust Lang"));
    assert_eq!(items[0]["slug"].as_str(), Some("rust-lang"));
    assert_eq!(items[0]["count"].as_u64(), Some(2));
    assert_eq!(items[0].as_object().unwrap().len(), 3);
    assert_eq!(items[1]["name"].as_str(), Some("verus"));
    assert_eq!(items[1]["count"].as_u64(), Some(1));

    let single = json(&requests[2]);
    assert_eq!(requests[2].template, "tag.html");
    assert_eq!(
        keys(&requests[2]),
        vec!["config", "current_path", "current_url", "pages", "tag", "tag_slug"]
    );
    assert_eq!(single["tag"].as_str(), Some("Rust Lang"));
    assert_eq!(single["tag_slug"].as_str(), Some("rust-lang"));
    assert_eq!(single["current_url"].as_str(), Some("u2"));
    assert_eq!(single["current_path"].as_str(), Some("/tags/rust-lang"));
    assert_eq!(strings(&single["pages"]), vec!["content/early.md", "content/late.md"]);
    assert_eq!(strings(&json(&requests[1])["pages"]), vec!["content/late.md"]);
    let of_term = site.term_pages(&site.tags.terms[1]);
    assert_eq!(of_term.iter().map(|p| p.rank).collect::<Vec<u64>>(), vec![1, 9]);
}

#[test]
fn category_pages_have_their_own_templates() {
    let mut site = site();
    let mut only = page("content/a.md", 0, vec![]);
    only.meta.category = some("Prog");
    site.add_page(only);
    site.populate_tags_and_categories();
    let requests = site.taxonomy_requests(RenderList::Categories, &owned(vec!["u0", "u1"]));
    assert_eq!(requests[0].template, "categories.html");
    assert_eq!(json(&requests[0])["categories"].as_array().unwrap().len(), 1);
    assert_eq!(json(&requests[0])["current_path"].as_str(), Some("/categories"));
    assert_eq!(requests[1].template, "category.html");
    assert_eq!(json(&requests[1])["category"].as_str(), Some("Prog"));
    assert_eq!(json(&requests[1])["category_slug"].as_str(), Some("prog"));
    assert_eq!(json(&requests[1])["current_path"].as_str(), Some("/categories/prog"));
    assert!(site.taxonomy_requests(RenderList::Tags, &vec![]).is_empty());
}

#[test]
fn the_index_page_is_rendered_from_all_pages_and_sections() {
    let mut site = site();
    site.add_section(section("content/posts"));
    site.add_page(page("content/a.md", 1, vec![]));
    site.add_page(page("content/b.md", 0, vec![]));
    let pages = site.index_pages();
    assert_eq!(pages.len(), 2);
    let request = site.index_request(&pages);
    assert_eq!(request.template, "index.html");
    assert_eq!(keys(&request), vec!["config", "current_path", "current_url", "pages", "sections"]);
    let context = json(&request);
    assert_eq!(strings(&context["pages"]), vec!["content/b.md", "content/a.md"]);
    assert_eq!(strings(&context["sections"]), vec!["content/posts"]);
    assert_eq!(context["current_url"].as_str(), Some("http://example.com"));
    assert_eq!(context["current_path"].as_str(), Some(""));
}

#[test]
fn the_sitemap_lists_what_is_generated() {
    let mut site = site();
    site.add_section(section("content/posts"));
    let mut only = page("content/a.md", 0, vec!["x"]);
    only.meta.category = some("c");
    site.add_page(only);
    site.populate_tags_and_categories();
    let categories = owned(vec!["c0", "c1"]);
    let tags = owned(vec!["t0", "t1"]);
    let request = site.sitemap_request(&categories, &tags);
    assert_eq!(request.template, "sitemap.xml");
    assert_eq!(keys(&request), vec!["categories", "pages", "sections", "tags"]);
    let context = json(&request);
    assert_eq!(strings(&context["pages"]), vec!["content/a.md"]);
    assert_eq!(strings(&context["sections"]), vec!["content/posts"]);
    assert!(strings(&context["categories"]).is_empty());
    assert_eq!(strings(&context["tags"]), vec!["t0", "t1"]);
    site.config.generate_categories_pages = Some(true);
    site.config.generate_tags_pages = Some(false);
    let context = json(&site.sitemap_request(&categories, &tags));
    assert_eq!(strings(&context["categories"]), vec!["c0", "c1"]);
    assert!(strings(&context["tags"]).is_empty());
}

#[test]
fn there_is_no_feed_without_dates() {
    let mut site = site();
    assert!(site.rss_request().is_none());
    site.add_page(page("content/a.md", 0, vec![]));
    assert!(site.rss_request().is_none());
    assert!(site.dated_pages().is_empty());
    let plan = site.render_rss_feed(None);
    assert!(plan.complete && plan.steps.is_empty());
    let plan = site.render_rss_feed(some("rss"));
    assert!(plan.complete && plan.steps.is_empty());
}

#[test]
fn the_feed_holds_dated_pages_in_order() {
    let mut site = site();
    site.add_page(page("content/none.md", 0, vec![]));
    site.add_page(dated(page("content/old.md", 2, vec![]), "2016-01-01"));
    site.add_page(dated(page("content/new.md", 1, vec![]), "2017-01-01"));
    let request = site.rss_request().unwrap();
    assert_eq!(request.template, "rss.xml");
    assert_eq!(keys(&request), vec!["config", "feed_url", "last_build_date", "pages"]);
    let context = json(&request);
    assert_eq!(strings(&context["pages"]), vec!["content/new.md", "content/old.md"]);
    assert_eq!(context["last_build_date"].as_str(), Some("2017-01-01"));
    assert_eq!(context["feed_url"].as_str(), Some("http://example.com/feed.xml"));
}

#[test]
fn the_feed_address_has_one_slash() {
    let mut site = Site::new(FilePath::parse("."), config("http://example.com/blog/"));
    site.add_page(dated(page("content/a.md", 0, vec![]), "2017-01-01"));
    let context = json(&site.rss_request().unwrap());
    assert_eq!(context["feed_url"].as_str(), Some("http://example.com/blog/feed.xml"));
    site.config.base_url = "".to_string();
    let context = json(&site.rss_request().unwrap());
    assert_eq!(context["feed_url"].as_str(), Some("/feed.xml"));
}

#[test]
fn the_feed_is_limited() {
    let mut site = site();
    for i in 0..20 {
        let file = format!("content/{}.md", i);
        site.add_page(dated(page(&file, 100 - i, vec![]), &format!("date {}", i)));
    }
    let context = json(&site.rss_request().unwrap());
    let pages = strings(&context["pages"]);
    assert_eq!(pages.len(), 15);
    assert_eq!(pages[0], "content/19.md");
    assert_eq!(pages[14], "content/5.md");
    assert_eq!(context["last_build_date"].as_str(), Some("date 19"));
}

#[test]
fn the_page_that_comes_first_is_in_the_feed_wherever_it_was_added() {
    let mut site = site();
    for i in 0..15 {
        let file = format!("content/{}.md", i);
        site.add_page(dated(page(&file, 10 + i, vec![]), "2016-01-01"));
    }
    site.add_page(page("content/undated.md", 0, vec![]));
    site.add_page(dated(page("content/newest.md", 1, vec![]), "2017-01-01"));
    let context = json(&site.rss_request().unwrap());
    let pages = strings(&context["pages"]);
    assert_eq!(pages.len(), 15);
    assert_eq!(pages[0], "content/newest.md");
    assert!(!pages.contains(&"content/14.md".to_string()));
    assert!(!pages.contains(&"content/undated.md".to_string()));
    assert_eq!(context["last_build_date"].as_str(), Some("2017-01-01"));
}

#[test]
fn the_file_for_robots_needs_nothing() {
    let request = site().robots_request();
    assert_eq!(request.template, "robots.txt");
    assert!(keys(&request).is_empty());
}

#[test]
fn requests_can_be_rendered() {
    let mut site = site();
    site.add_page(page("content/b.md", 1, vec!["Rust Lang"]));
    site.add_page(page("content/a.md", 0, vec!["Rust Lang"]));
    site.populate_tags_and_categories();
    let mut templates = tera::Tera::default();
    templates
        .add_raw_templates(vec![
            ("tags.html", "{% for tag in tags %}{{ tag.slug }}={{ tag.count }};{% endfor %}"),
            ("tag.html", "{{ tag }} at {{ current_path | safe }}: {% for p in pages %}{{ p | safe }};{% endfor %}"),
        ])
        .unwrap();
    let requests = site.taxonomy_requests(RenderList::Tags, &owned(vec!["u0", "u1"]));
    let htmls: Vec<String> =
        requests.iter().map(|r| templates.render(&r.template, &r.context).unwrap()).collect();
    assert_eq!(
        htmls,
        vec!["rust-lang=2;", "Rust Lang at /tags/rust-lang: content/a.md;content/b.md;"]
    );
}

#[test]
fn pages_are_built_with_their_directories_and_assets() {
    let mut site = site();
    site.config.generate_tags_pages = Some(false);
    let mut first = page("content/posts/a.md", 0, vec![]);
    first.assets = vec![FilePath::parse("content/posts/a/cat.png")];
    site.add_page(first);
    let mut second = page("content/b.md", 1, vec![]);
    second.path = "/b/".to_string();
    site.add_page(second);
    let plan = site.build_pages(&RenderedPages {
        pages: vec![some("A</body>"), some("B")],
        categories: vec![],
        tags: vec![],
        index: some("index"),
    });
    assert!(plan.complete);
    assert_eq!(
        show_all(&plan.steps),
        vec![
            "ensure public",
            "ensure public/posts",
            "ensure public/posts/a",
            "create public/posts/a",
            "write public/posts/a/index.html: A</body>",
            "copy content/posts/a/cat.png to public/posts/a/cat.png",
            "ensure public",
            "ensure public/b",
            "ensure public/b",
            "create public/b",
            "write public/b/index.html: B",
            "write public/index.html: index",
        ]
    );
}

#[test]
fn own_pages_are_built_without_the_rest() {
    let mut site = site();
    site.add_page(page("content/a.md", 0, vec!["t"]));
    site.populate_tags_and_categories();
    let plan = site.build_own_pages(&vec![some("A")]);
    assert!(plan.complete);
    assert_eq!(
        show_all(&plan.steps),
        vec!["ensure public", "ensure public/a", "create public/a", "write public/a/index.html: A"]
    );
    let broken = site.build_own_pages(&vec![None]);
    assert!(!broken.complete);
    assert_eq!(broken.steps.len(), 3);
}

#[test]
fn tag_pages_are_built_below_their_list() {
    let mut site = site();
    site.enable_live_reload();
    site.set_output_path(FilePath::parse("/tmp/out"));
    site.add_page(page("content/a.md", 0, vec!["Rust Lang"]));
    site.populate_tags_and_categories();
    let plan = site.render_categories_and_tags(RenderList::Tags, &vec![some("list"), some("x</body>")]);
    assert!(plan.complete);
    assert_eq!(
        show_all(&plan.steps),
        vec![
            "create //tmp/out/tags".to_string(),
            "write //tmp/out/tags/index.html: list".to_string(),
            "create //tmp/out/tags/rust-lang".to_string(),
            format!("write //tmp/out/tags/rust-lang/index.html: x{}", SCRIPT),
        ]
    );
    let none = site.render_categories_and_tags(RenderList::Categories, &vec![]);
    assert!(none.complete && none.steps.is_empty());
}

#[test]
fn terms_are_built_if_asked_for() {
    let mut site = site();
    let mut only = page("content/a.md", 0, vec!["t"]);
    only.meta.category = some("c");
    site.add_page(only);
    site.populate_tags_and_categories();
    let rendered = RenderedPages {
        pages: vec![some("A")],
        categories: vec![some("cats"), some("c")],
        tags: vec![some("tags"), some("t")],
        index: some("i"),
    };
    let tags_only = show_all(&site.build_pages(&rendered).steps);
    assert!(tags_only.contains(&"write public/tags/t/index.html: t".to_string()));
    assert!(!tags_only.iter().any(|s| s.contains("categories")));
    site.config.generate_categories_pages = Some(true);
    site.config.generate_tags_pages = Some(false);
    let categories_only = show_all(&site.build_pages(&rendered).steps);
    assert!(categories_only.contains(&"write public/categories/c/index.html: c".to_string()));
    assert!(!categories_only.iter().any(|s| s.contains("tags")));
}

#[test]
fn a_build_stops_at_the_first_text_that_is_missing() {
    let mut site = site();
    site.add_page(page("content/a.md", 0, vec!["t", "u"]));
    site.add_page(page("content/b.md", 1, vec![]));
    site.populate_tags_and_categories();
    let rendered = |a: Option<String>, list: Option<String>, t: Option<String>, index: Option<String>| RenderedPages {
        pages: vec![a, some("B")],
        categories: vec![],
        tags: vec![list, t, some("u")],
        index,
    };
    let page_missing = site.build_pages(&rendered(None, some("l"), some("t"), some("i")));
    assert!(!page_missing.complete);
    assert_eq!(show_all(&page_missing.steps), vec!["ensure public", "ensure public/a", "create public/a"]);
    let list_missing = site.build_pages(&rendered(some("A"), None, some("t"), some("i")));
    assert!(!list_missing.complete);
    assert_eq!(show(list_missing.steps.last().unwrap()), "create public/tags");
    let term_missing = site.build_pages(&rendered(some("A"), some("l"), None, some("i")));
    assert!(!term_missing.complete);
    assert_eq!(show(term_missing.steps.last().unwrap()), "write public/tags/index.html: l");
    let index_missing = site.build_pages(&rendered(some("A"), some("l"), some("t"), None));
    assert!(!index_missing.complete);
    assert_eq!(show(index_missing.steps.last().unwrap()), "write public/tags/u/index.html: u");
    let all = site.build_pages(&rendered(some("A"), some("l"), some("t"), some("i")));
    assert!(all.complete);
}

#[test]
fn files_are_made_in_directories_that_were_seen_to() {
    let mut site = site();
    site.set_output_path(FilePath::parse("out"));
    let mut first = page("content/posts/2017/a.md", 0, vec!["Rust Lang", "!!"]);
    first.assets = vec![FilePath::parse("content/x.png")];
    site.add_page(first);
    site.populate_tags_and_categories();
    let plan = site.build_pages(&RenderedPages {
        pages: vec![some("A")],
        categories: vec![],
        tags: vec![some("l"), some("r"), some("e")],
        index: some("i"),
    });
    assert!(plan.complete);
    let mut seen: Vec<String> = vec![];
    for step in plan.steps.iter() {
        let path = match step {
            Step::EnsureDirectory(path) | Step::CreateDirectory(path) => path,
            Step::RequireDirectory(path) | Step::RemoveDirectory(path) => path,
            Step::WriteFile { path, .. } => path,
            Step::CopyFile { to, .. } | Step::ReplaceFile { to, .. } => to,
            Step::ReplaceDirectory { to, .. } => to,
        };
        assert_eq!(path.parts()[0], "out");
        let parent = text(&path.parent().unwrap());
        assert!(parent.is_empty() || seen.contains(&parent), "{}", show(step));
        if matches!(step, Step::EnsureDirectory(_) | Step::CreateDirectory(_)) {
            seen.push(text(path));
        }
    }
}

#[test]
fn sections_are_built_along_their_components() {
    let mut site = site();
    site.add_section(section("content/posts/2017"));
    site.add_section(section("content/about"));
    let plan = site.render_sections(&vec![some("about"), some("posts")]);
    assert!(plan.complete);
    assert_eq!(
        show_all(&plan.steps),
        vec![
            "ensure public/about",
            "write public/about/index.html: about",
            "ensure public/posts",
            "ensure public/posts/2017",
            "write public/posts/2017/index.html: posts",
        ]
    );
    let broken = site.render_sections(&vec![None, some("posts")]);
    assert!(!broken.complete);
    assert_eq!(show_all(&broken.steps), vec!["ensure public/about"]);
}

#[test]
fn rendered_files_are_written_at_the_top() {
    let mut site = site();
    site.enable_live_reload();
    assert_eq!(
        show_all(&site.render_sitemap(some("</body>")).steps),
        vec!["write public/sitemap.xml: </body>"]
    );
    site.add_page(dated(page("content/a.md", 0, vec![]), "2017-01-01"));
    assert_eq!(show_all(&site.render_rss_feed(some("rss")).steps), vec!["write public/rss.xml: rss"]);
    assert_eq!(show_all(&site.render_robots(some("no")).steps), vec!["write public/robots.txt: no"]);
    let missing = site.render_sitemap(None);
    assert!(!missing.complete && missing.steps.is_empty());
    assert!(!site.render_rss_feed(None).complete);
    assert!(!site.render_robots(None).complete);
}

#[test]
fn a_new_plan_is_complete() {
    let plan = Plan::new();
    assert!(plan.complete && plan.steps.is_empty());
}

#[test]
fn copies_hold_the_same_data() {
    let mut site = site();
    let first = page("content/posts/a.md", 0, vec![]);
    let copy = first.clone();
    assert_eq!(copy.data, first.data);
    site.add_page(first);
    site.add_section(section("content/posts"));
    site.populate_sections();
    assert_eq!(site.sections[0].pages[0].data, copy.data);
    assert_eq!(site.sections[0].clone().data, site.sections[0].data);
    assert_eq!(config("x").clone().base_url, "x");
}
