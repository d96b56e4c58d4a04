use gutenberg::links::Permalinks;
use gutenberg::order::sorted_positions;
use gutenberg::path::FilePath;
use gutenberg::taxonomy::{ListItem, Taxonomy};
use gutenberg::text::{chars_of, replace_text, same_text, split_text};

fn parts(path: &FilePath) -> Vec<&str> {
    path.parts().iter().map(|p| p.as_str()).collect()
}

#[test]
fn text_is_split_at_every_separator() {
    assert_eq!(split_text("a/b/c", '/'), vec!["a", "b", "c"]);
    assert_eq!(split_text("abc", '/'), vec!["abc"]);
    assert_eq!(split_text("", '/'), vec![""]);
    assert_eq!(split_text("/a//b/", '/'), vec!["", "a", "", "b", ""]);
    assert_eq!(split_text("caf\u{e9}/\u{4e16}", '/'), vec!["caf\u{e9}", "\u{4e16}"]);
}

#[test]
fn split_pieces_give_the_text_back() {
    for text in ["", "/", "a", "a/b", "//x/", "posts/2017/one"].iter() {
        assert_eq!(&split_text(text, '/').join("/"), text);
    }
}

#[test]
fn text_is_replaced_from_left_to_right() {
    assert_eq!(replace_text("a\\b\\c", "\\", "/"), "a/b/c");
    assert_eq!(replace_text("aaa", "aa", "b"), "ba");
    assert_eq!(replace_text("abab", "ab", ""), "");
    assert_eq!(replace_text("abc", "x", "y"), "abc");
    assert_eq!(replace_text("", "x", "y"), "");
    // what was put in is not looked at again
    assert_eq!(replace_text("aa", "a", "aa"), "aaaa");
    assert_eq!(replace_text("x</body", "</body>", "y"), "x</body");
}

#[test]
fn text_helpers_work_on_characters() {
    assert_eq!(chars_of("h\u{e9}"), vec!['h', '\u{e9}']);
    assert_eq!(gutenberg::text::concat("ab", "cd"), "abcd");
    assert!(same_text("ab", "ab"));
    assert!(!same_text("ab", "abc"));
    assert!(!same_text("ab", "ac"));
}

#[test]
fn positions_are_sorted_and_stable() {
    assert_eq!(sorted_positions(&vec![3, 1, 2]), vec![1, 2, 0]);
    assert_eq!(sorted_positions(&vec![1, 0, 1, 0]), vec![1, 3, 0, 2]);
    assert_eq!(sorted_positions(&vec![-2, -5, -2]), vec![1, 0, 2]);
    assert_eq!(sorted_positions(&vec![]), Vec::<usize>::new());
}

#[test]
fn paths_are_parsed_into_components() {
    assert_eq!(parts(&FilePath::parse("content/posts/one.md")), vec!["content", "posts", "one.md"]);
    assert_eq!(parts(&FilePath::parse("/a//b/./c/")), vec!["/", "a", "b", "c"]);
    assert_eq!(parts(&FilePath::parse("./a")), vec![".", "a"]);
    assert_eq!(parts(&FilePath::parse("../a")), vec!["..", "a"]);
    assert_eq!(parts(&FilePath::parse("")), Vec::<&str>::new());
    assert_eq!(parts(&FilePath::new()), Vec::<&str>::new());
}

#[test]
fn paths_agree_with_std() {
    let samples = ["", "/", "a", "a/b", "/a/b", "./a", "a/./b", "a/../b", "a//b/", "..", ".", "a/b.md"];
    for text in samples.iter() {
        let std_path = std::path::Path::new(text);
        let own = FilePath::parse(text);
        let expected: Vec<String> = std_path
            .components()
            .map(|c| c.as_os_str().to_string_lossy().into_owned())
            .collect();
        assert_eq!(own.parts(), &expected, "components of {}", text);
        assert_eq!(own.parent().map(|p| p.parts().len()), std_path.parent().map(|p| p.components().count()));
        assert_eq!(
            own.file_name(),
            std_path.file_name().map(|n| n.to_string_lossy().into_owned())
        );
        for other in samples.iter() {
            let other_own = FilePath::parse(other);
            let other_path = std::path::Path::new(other);
            assert_eq!(own.same(&other_own), std_path == other_path);
            assert_eq!(own.is_before(&other_own), std_path < other_path, "{} < {}", text, other);
            let joined: Vec<String> = std_path
                .join(other)
                .components()
                .map(|c| c.as_os_str().to_string_lossy().into_owned())
                .collect();
            assert_eq!(own.join(other).parts(), &joined, "{} joined with {}", text, other);
        }
    }
}

#[test]
fn an_absolute_addition_takes_the_place_of_the_path() {
    let mut path = FilePath::parse("public/posts");
    path.push("/tmp");
    assert_eq!(parts(&path), vec!["/", "tmp"]);
}

#[test]
fn a_path_is_rebased_by_its_first_component() {
    let path = FilePath::parse("static/css/site.css");
    assert_eq!(parts(&path.rebased(&FilePath::parse("/srv/public"))), vec!["/", "srv", "public", "css", "site.css"]);
    assert_eq!(parts(&FilePath::parse("static").rebased(&FilePath::parse("public"))), vec!["public"]);
    assert_eq!(parts(&FilePath::parse("./a").rebased(&FilePath::new())), vec!["a"]);
}

#[test]
fn appending_nothing_keeps_the_path() {
    let path = FilePath::parse("public");
    assert!(path.join("").same(&path));
    assert!(path.join(".").same(&path));
    assert!(!path.join("x").same(&path));
}

#[test]
fn index_pages_are_told_by_their_names() {
    assert!(FilePath::parse("content/posts/_index.md").is_index());
    assert!(FilePath::parse("_index.md").is_index());
    assert!(!FilePath::parse("content/my_index.md").is_index());
    assert!(!FilePath::parse("_index.md/a").is_index());
    assert!(!FilePath::new().is_index());
}

#[test]
fn later_permalinks_take_the_place_of_earlier_ones() {
    let mut links = Permalinks::new();
    assert_eq!(links.get("a.md"), None);
    links.insert("a.md".to_string(), "http://x/a".to_string());
    links.insert("b.md".to_string(), "http://x/b".to_string());
    links.insert("a.md".to_string(), "http://x/c".to_string());
    assert_eq!(links.get("a.md"), Some("http://x/c".to_string()));
    assert_eq!(links.get("b.md"), Some("http://x/b".to_string()));
    assert_eq!(links.get("c.md"), None);
}

#[test]
fn list_items_have_slugs() {
    let item = ListItem::new("Hello, World of Rust!", 3);
    assert_eq!(item.name, "Hello, World of Rust!");
    assert_eq!(item.slug, "hello-world-of-rust");
    assert_eq!(item.count, 3);
    assert_eq!(ListItem::new("!!", 0).slug, "");
}

#[test]
fn slugs_hold_only_plain_characters() {
    for name in ["", "  a  b  ", "-x-", "C++", "\u{c9}t\u{e9} 2017", "a/b", "../..", "\u{4e16}\u{754c}", "A_B"].iter() {
        let slug = ListItem::new(name, 1).slug;
        assert!(slug.chars().all(|c| c.is_ascii_lowercase() || c.is_ascii_digit() || c == '-'), "{}", slug);
        assert!(!slug.contains("--"));
        assert!(!slug.starts_with('-') && !slug.ends_with('-'));
    }
    assert_eq!(ListItem::new("\u{c9}t\u{e9} 2017", 1).slug, "ete-2017");
}

#[test]
fn taxonomies_list_each_name_once() {
    let mut taxonomy = Taxonomy::new();
    taxonomy.file("rust", &FilePath::parse("content/a.md"));
    taxonomy.file("verus", &FilePath::parse("content/b.md"));
    taxonomy.file("rust", &FilePath::parse("content/c.md"));
    assert_eq!(taxonomy.terms.len(), 2);
    assert_eq!(taxonomy.terms[0].name, "rust");
    assert_eq!(taxonomy.terms[0].pages.len(), 2);
    assert_eq!(parts(&taxonomy.terms[0].pages[1]), vec!["content", "c.md"]);
    assert_eq!(taxonomy.terms[1].pages.len(), 1);
}

#[test]
fn items_are_sorted_by_their_number_of_pages() {
    let mut taxonomy = Taxonomy::new();
    taxonomy.file("one", &FilePath::parse("a.md"));
    taxonomy.file("Two Pages", &FilePath::parse("a.md"));
    taxonomy.file("Two Pages", &FilePath::parse("b.md"));
    taxonomy.file("uno", &FilePath::parse("c.md"));
    let items = taxonomy.sorted_items();
    let listed: Vec<(&str, &str, usize)> =
        items.iter().map(|i| (i.name.as_str(), i.slug.as_str(), i.count)).collect();
    assert_eq!(listed, vec![("Two Pages", "two-pages", 2), ("one", "one", 1), ("uno", "uno", 1)]);
}
