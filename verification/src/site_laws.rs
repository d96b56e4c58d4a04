//! What the operations on a site do to its content, whatever it is.

use vstd::prelude::*;

use crate::content::{PageModel, SectionModel};
use crate::content_laws::{
    added_page_is_found, added_section_is_found, filed_page_comes_last, items_are_sorted,
    lemma_filed_under_all, pages_are_sorted, pages_under,
    removed_page_is_gone, times,
};
use crate::order::{order, order_sorts};
use crate::path::path_before;
use crate::site::{
    all_links, all_with_own_pages, ascending, by_rank, completed, distinct_files, has_page,
    lies_right_in, needed_change, page_links, pages_loaded, populated, put_page, put_section,
    section_links, sections_below, sections_loaded, with_change, with_own_pages,
    with_sections_and_terms, with_terms, without_page, ContentChange, ContentModel, SiteModel,
};
use crate::taxonomy::{
    categorized, distinct_names, is_listed, item_of, slug_of, sorted_items, tagged, TermModel,
};

verus! {

/// How often something occurs in a sequence.
pub open spec fn count<A>(s: Seq<A>, a: A) -> nat {
    s.to_multiset().count(a)
}

/// What a filter lets through occurs as often as before, and nothing else occurs.
pub(crate) proof fn lemma_filter_count<A>(s: Seq<A>, keep: spec_fn(A) -> bool, a: A)
    ensures
        count(s.filter(keep), a) == if keep(a) {
            count(s, a)
        } else {
            0
        },
    decreases s.len(),
{
    broadcast use {vstd::seq_lib::group_to_multiset_ensures, vstd::multiset::group_multiset_axioms};

    reveal(Seq::filter);
    if s.len() > 0 {
        let front = s.drop_last();
        lemma_filter_count(front, keep, a);
        assert(s == front.push(s.last()));
        assert(s.filter(keep) == if keep(s.last()) {
            front.filter(keep).push(s.last())
        } else {
            front.filter(keep)
        });
    } else {
        assert(s.filter(keep) == s);
        assert(!s.contains(a));
    }
}

proof fn lemma_add_count<A>(s: Seq<A>, t: Seq<A>, a: A)
    ensures
        count(s + t, a) == count(s, a) + count(t, a),
{
    broadcast use vstd::multiset::group_multiset_axioms;

    vstd::seq_lib::lemma_multiset_commutative(s, t);
}

/// Whether `after` holds the pages that `before` holds and, besides, those of the site's pages that
/// lie in `directory`.
pub open spec fn gained_pages_of(
    before: Seq<PageModel>,
    after: Seq<PageModel>,
    pages: Seq<PageModel>,
    directory: Seq<Seq<char>>,
) -> bool {
    forall|p: PageModel| #[trigger]
        count(after, p) == count(before, p) + if p.parent_path == directory {
            count(pages, p)
        } else {
            0
        }
}

/// Whether two sections were read from the same file: all is the same but for the pages and the
/// subsections.
pub open spec fn same_but_for_lists(a: SectionModel, b: SectionModel) -> bool {
    &&& a.parent_path == b.parent_path
    &&& a.relative_path == b.relative_path
    &&& a.permalink == b.permalink
    &&& a.components == b.components
    &&& a.data == b.data
}

/// Whether `copy` is the section `section` with the pages of its directory.
pub open spec fn is_copy_with_pages(
    copy: SectionModel,
    section: SectionModel,
    pages: Seq<PageModel>,
) -> bool {
    &&& same_but_for_lists(copy, section)
    &&& copy.subsections == section.subsections
    &&& gained_pages_of(section.pages, copy.pages, pages, section.parent_path)
}

proof fn lemma_own_pages(section: SectionModel, pages: Seq<PageModel>)
    ensures
        is_copy_with_pages(with_own_pages(section, pages), section, pages),
{
    let copy = with_own_pages(section, pages);
    let directory = section.parent_path;
    let is_own = |p: PageModel| p.parent_path == directory;
    assert forall|p: PageModel| #[trigger] count(copy.pages, p) == count(section.pages, p) + if p.parent_path
        == directory {
        count(pages, p)
    } else {
        0
    } by {
        lemma_add_count(section.pages, pages.filter(is_own), p);
        lemma_filter_count(pages, is_own, p);
    }
}

proof fn lemma_below_ascending(sections: Seq<SectionModel>, directory: Seq<Seq<char>>)
    requires
        ascending(sections),
    ensures
        ascending(sections_below(sections, directory)),
    decreases sections.len(),
{
    reveal(Seq::filter);
    if sections.len() > 0 {
        let front = sections.drop_last();
        let is_below = lies_right_in(directory);
        let last = sections[sections.len() - 1];
        assert forall|i: int, j: int| 0 <= i < j < front.len() implies path_before(
            #[trigger] front[i].parent_path,
            #[trigger] front[j].parent_path,
        ) by {
            assert(front[i] == sections[i] && front[j] == sections[j]);
        }
        lemma_below_ascending(front, directory);
        let below = sections_below(front, directory);
        assert forall|i: int| 0 <= i < below.len() implies path_before(
            #[trigger] below[i].parent_path,
            last.parent_path,
        ) by {
            assert(below.contains(below[i]));
            front.lemma_filter_contains_rev(is_below, below[i]);
            let k = choose|k: int| 0 <= k < front.len() && front[k] == below[i];
            assert(sections[k] == front[k]);
        }
        let now = sections_below(sections, directory);
        assert(now == if is_below(last) {
            below.push(last)
        } else {
            below
        });
        assert forall|i: int, j: int| 0 <= i < j < now.len() implies path_before(
            #[trigger] now[i].parent_path,
            #[trigger] now[j].parent_path,
        ) by {
            assert(now[i] == below[i]);
            if j < below.len() {
                assert(now[j] == below[j]);
            }
        }
    }
}

/// Completing the sections changes nothing that they were read with. Each section gains the pages of
/// its directory, all of them and no others, and its pages are in order, whatever else it holds. It
/// also gains the sections whose directories lie right in its own, all of them and no others, each
/// with the pages of its directory, in the order of their directories.
pub proof fn sections_are_completed(sections: Seq<SectionModel>, pages: Seq<PageModel>, i: int)
    requires
        0 <= i < sections.len(),
    ensures
        populated(sections, pages).len() == sections.len(),
        ({
            let before = sections[i];
            let after = populated(sections, pages)[i];
            let n = before.subsections.len() as int;
            &&& same_but_for_lists(after, before)
            &&& gained_pages_of(before.pages, after.pages, pages, before.parent_path)
            &&& forall|x: int, y: int|
                0 <= x < y < after.pages.len() ==> (#[trigger] after.pages[x]).rank <= (
                #[trigger] after.pages[y]).rank
            &&& n <= after.subsections.len()
            &&& forall|k: int| 0 <= k < n ==> #[trigger] after.subsections[k] == before.subsections[k]
            &&& forall|k: int|
                n <= k < after.subsections.len() ==> exists|j: int|
                    0 <= j < sections.len() && is_copy_with_pages(
                        #[trigger] after.subsections[k],
                        #[trigger] sections[j],
                        pages,
                    ) && sections[j].parent_path.drop_last() == before.parent_path
            &&& forall|j: int|
                0 <= j < sections.len() && (#[trigger] sections[j]).parent_path.drop_last()
                    == before.parent_path ==> exists|k: int|
                    n <= k < after.subsections.len() && is_copy_with_pages(
                        #[trigger] after.subsections[k],
                        sections[j],
                        pages,
                    )
            &&& ascending(sections) ==> forall|x: int, y: int|
                n <= x < y < after.subsections.len() ==> path_before(
                    #[trigger] after.subsections[x].parent_path,
                    #[trigger] after.subsections[y].parent_path,
                )
        }),
{
    let filled = all_with_own_pages(sections, pages);
    let before = sections[i];
    let after = populated(sections, pages)[i];
    let n = before.subsections.len() as int;
    let directory = before.parent_path;
    let is_below = lies_right_in(directory);
    let below = sections_below(filled, directory);
    let own = with_own_pages(before, pages);
    assert(filled[i] == own);
    assert(after == completed(own, filled));
    assert(after.subsections == before.subsections + below);
    lemma_own_pages(before, pages);
    pages_are_sorted(own.pages);
    assert forall|p: PageModel| #[trigger] count(after.pages, p) == count(before.pages, p) + if p.parent_path
        == directory {
        count(pages, p)
    } else {
        0
    } by {
        assert(count(own.pages, p) == count(after.pages, p));
    }
    assert forall|k: int| n <= k < after.subsections.len() implies exists|j: int|
        0 <= j < sections.len() && is_copy_with_pages(
            #[trigger] after.subsections[k],
            #[trigger] sections[j],
            pages,
        ) && sections[j].parent_path.drop_last() == before.parent_path by {
        let s = below[k - n];
        assert(after.subsections[k] == s);
        filled.lemma_filter_pred(is_below, k - n);
        assert(below.contains(s));
        filled.lemma_filter_contains_rev(is_below, s);
        let j = choose|j: int| 0 <= j < filled.len() && filled[j] == s;
        assert(s == with_own_pages(sections[j], pages));
        lemma_own_pages(sections[j], pages);
        assert(is_copy_with_pages(after.subsections[k], sections[j], pages));
    }
    assert forall|j: int|
        0 <= j < sections.len() && (#[trigger] sections[j]).parent_path.drop_last()
            == before.parent_path implies exists|k: int|
        n <= k < after.subsections.len() && is_copy_with_pages(
            #[trigger] after.subsections[k],
            sections[j],
            pages,
        ) by {
        assert(filled[j] == with_own_pages(sections[j], pages));
        lemma_own_pages(sections[j], pages);
        filled.lemma_filter_contains(is_below, j);
        let m = choose|m: int| 0 <= m < below.len() && below[m] == filled[j];
        assert(after.subsections[n + m] == filled[j]);
        assert(is_copy_with_pages(after.subsections[n + m], sections[j], pages));
    }
    if ascending(sections) {
        assert forall|x: int, y: int| 0 <= x < y < filled.len() implies path_before(
            #[trigger] filled[x].parent_path,
            #[trigger] filled[y].parent_path,
        ) by {
            assert(filled[x].parent_path == sections[x].parent_path);
            assert(filled[y].parent_path == sections[y].parent_path);
        }
        lemma_below_ascending(filled, directory);
        assert forall|x: int, y: int| n <= x < y < after.subsections.len() implies path_before(
            #[trigger] after.subsections[x].parent_path,
            #[trigger] after.subsections[y].parent_path,
        ) by {
            assert(after.subsections[x] == below[x - n]);
            assert(after.subsections[y] == below[y - n]);
        }
    }
}

/// Whether two sites differ in their pages at most.
pub open spec fn same_but_for_pages(a: SiteModel, b: SiteModel) -> bool {
    &&& a.base_path == b.base_path
    &&& a.config == b.config
    &&& a.sections == b.sections
    &&& a.live_reload == b.live_reload
    &&& a.output_path == b.output_path
    &&& a.tags == b.tags
    &&& a.categories == b.categories
}

/// A page that was read anew is the one page of its file from then on. Every other page stays, no
/// page comes besides, and nothing else about the site changes.
pub proof fn changed_page_leaves_the_rest(
    site: SiteModel,
    file: Seq<Seq<char>>,
    page: PageModel,
    other: PageModel,
)
    requires
        distinct_files(site.pages),
    ensures
        ({
            let now = with_change(site, file, Some(ContentModel::Page(page)));
            &&& distinct_files(now.pages)
            &&& now.pages.contains(page)
            &&& other.file_path != page.file_path ==> (now.pages.contains(other)
                <==> site.pages.contains(other))
            &&& other.file_path == page.file_path && now.pages.contains(other) ==> other == page
            &&& same_but_for_pages(now, site)
        }),
{
    added_page_is_found(site.pages, page, other);
}

/// A section that was read anew is the one section of its directory from then on. Every other
/// section stays, no section comes besides, and nothing else about the site changes.
pub proof fn changed_section_leaves_the_rest(
    site: SiteModel,
    file: Seq<Seq<char>>,
    section: SectionModel,
    other: SectionModel,
)
    requires
        ascending(site.sections),
    ensures
        ({
            let now = with_change(site, file, Some(ContentModel::Section(section)));
            &&& ascending(now.sections)
            &&& now.sections.contains(section)
            &&& other.parent_path != section.parent_path ==> (now.sections.contains(other)
                <==> site.sections.contains(other))
            &&& other.parent_path == section.parent_path && now.sections.contains(other) ==> other
                == section
            &&& now.pages == site.pages
            &&& same_but_for_pages(now, SiteModel { sections: now.sections, ..site })
        }),
{
    added_section_is_found(site.sections, section, other);
    lemma_put_keeps_order(site.sections, section);
}

/// When a content file is gone, the page of that file is no longer in the site. Every other page
/// stays, no page comes, and nothing else about the site changes.
pub proof fn removed_file_leaves_the_rest(site: SiteModel, file: Seq<Seq<char>>, other: PageModel)
    requires
        distinct_files(site.pages),
    ensures
        ({
            let now = with_change(site, file, None);
            &&& distinct_files(now.pages)
            &&& !has_page(now.pages, file)
            &&& other.file_path != file ==> (now.pages.contains(other) <==> site.pages.contains(
                other,
            ))
            &&& same_but_for_pages(now, site)
        }),
{
    removed_page_is_gone(site.pages, file, other);
    lemma_removed_distinct(site.pages, file);
}

proof fn lemma_removed_distinct(pages: Seq<PageModel>, file: Seq<Seq<char>>)
    requires
        distinct_files(pages),
    ensures
        distinct_files(without_page(pages, file)),
    decreases pages.len(),
{
    reveal(Seq::filter);
    if pages.len() > 0 {
        let front = pages.drop_last();
        let keep = |p: PageModel| p.file_path != file;
        assert forall|i: int, j: int| 0 <= i < j < front.len() implies (#[trigger] front[i]).file_path
            != (#[trigger] front[j]).file_path by {
            assert(front[i] == pages[i] && front[j] == pages[j]);
        }
        lemma_removed_distinct(front, file);
        let rest = without_page(front, file);
        assert forall|i: int| 0 <= i < rest.len() implies (#[trigger] rest[i]).file_path
            != pages.last().file_path by {
            assert(rest.contains(rest[i]));
            front.lemma_filter_contains_rev(keep, rest[i]);
            let k = choose|k: int| 0 <= k < front.len() && front[k] == rest[i];
            assert(pages[k] == front[k]);
        }
    }
}

/// Adding a section keeps the order of the directories.
proof fn lemma_put_keeps_order(sections: Seq<SectionModel>, section: SectionModel)
    requires
        ascending(sections),
    ensures
        ascending(put_section(sections, section)),
{
    let at = choose|at: int| is_place_of(sections, section, at);
    lemma_has_place(sections, section, sections.len() as int);
    crate::site::lemma_put_section(sections, section, at);
}

spec fn is_place_of(sections: Seq<SectionModel>, section: SectionModel, at: int) -> bool {
    &&& 0 <= at <= sections.len()
    &&& forall|i: int|
        0 <= i < at ==> path_before(#[trigger] sections[i].parent_path, section.parent_path)
    &&& at < sections.len() ==> !path_before(sections[at].parent_path, section.parent_path)
}

proof fn lemma_has_place(sections: Seq<SectionModel>, section: SectionModel, n: int)
    requires
        0 <= n <= sections.len(),
        n < sections.len() ==> !path_before(sections[n].parent_path, section.parent_path),
        ascending(sections),
    ensures
        exists|at: int| is_place_of(sections, section, at),
    decreases n,
{
    if forall|i: int|
        0 <= i < n ==> path_before(#[trigger] sections[i].parent_path, section.parent_path) {
        assert(is_place_of(sections, section, n));
    } else {
        let i = choose|i: int|
            0 <= i < n && !path_before(#[trigger] sections[i].parent_path, section.parent_path);
        lemma_has_place(sections, section, i);
    }
}

/// Whether one of `contents` from `start` on is a page from `file`.
pub open spec fn reads_page(contents: Seq<ContentModel>, file: Seq<Seq<char>>, start: int) -> bool {
    exists|i: int|
        start <= i < contents.len() && 0 <= i && #[trigger] contents[i] is Page
            && contents[i]->Page_0.file_path == file
}

/// Whether one of `contents` from `start` on is a section of `directory`.
pub open spec fn reads_section(
    contents: Seq<ContentModel>,
    directory: Seq<Seq<char>>,
    start: int,
) -> bool {
    exists|i: int|
        start <= i < contents.len() && 0 <= i && #[trigger] contents[i] is Section
            && contents[i]->Section_0.parent_path == directory
}

/// Loading adds every page that was read, whatever the page is like, unless a later one was read
/// from the same file. It keeps the pages of all other files, and adds nothing else.
pub proof fn loading_adds_every_page(
    pages: Seq<PageModel>,
    contents: Seq<ContentModel>,
    page: PageModel,
)
    requires
        distinct_files(pages),
    ensures
        distinct_files(pages_loaded(pages, contents)),
        forall|i: int|
            0 <= i < contents.len() && #[trigger] contents[i] == ContentModel::Page(page)
                && !reads_page(contents, page.file_path, i + 1) ==> pages_loaded(
                pages,
                contents,
            ).contains(page),
        !reads_page(contents, page.file_path, 0) ==> (pages_loaded(pages, contents).contains(page)
            <==> pages.contains(page)),
        pages_loaded(pages, contents).contains(page) && reads_page(contents, page.file_path, 0)
            ==> contents.contains(ContentModel::Page(page)),
        has_page(pages_loaded(pages, contents), page.file_path) <==> has_page(pages, page.file_path)
            || reads_page(contents, page.file_path, 0),
    decreases contents.len(),
{
    let file = page.file_path;
    let now = pages_loaded(pages, contents);
    if contents.len() > 0 {
        let front = contents.drop_last();
        let n = contents.len() - 1;
        let before = pages_loaded(pages, front);
        loading_adds_every_page(pages, front, page);
        assert forall|s: int| reads_page(contents, file, s) <==> (reads_page(front, file, s) || (s
            <= n && contents[n] is Page && contents[n]->Page_0.file_path == file)) by {
            if reads_page(contents, file, s) {
                let i = choose|i: int|
                    s <= i < contents.len() && 0 <= i && #[trigger] contents[i] is Page
                        && contents[i]->Page_0.file_path == file;
                if i < n {
                    assert(front[i] == contents[i]);
                }
            }
            if reads_page(front, file, s) {
                let i = choose|i: int|
                    s <= i < front.len() && 0 <= i && #[trigger] front[i] is Page
                        && front[i]->Page_0.file_path == file;
                assert(contents[i] == front[i]);
            }
        }
        if front.contains(ContentModel::Page(page)) {
            let k = choose|k: int| 0 <= k < front.len() && front[k] == ContentModel::Page(page);
            assert(contents[k] == front[k]);
        }
        assert forall|i: int|
            0 <= i < contents.len() && #[trigger] contents[i] == ContentModel::Page(page)
                && !reads_page(contents, file, i + 1) && i < n implies before.contains(page) by {
            assert(front[i] == contents[i]);
        }
        match contents[n] {
            ContentModel::Page(last) => {
                added_page_is_found(before, last, page);
                assert(contents[n] == ContentModel::Page(last));
                lemma_has_page_put(before, last, file);
            },
            ContentModel::Section(_) => {},
        }
    }
}

proof fn lemma_has_page_put(pages: Seq<PageModel>, page: PageModel, file: Seq<Seq<char>>)
    ensures
        has_page(put_page(pages, page), file) <==> has_page(pages, file) || page.file_path == file,
{
    let now = put_page(pages, page);
    if has_page(pages, page.file_path) {
        assert forall|j: int| 0 <= j < now.len() implies (#[trigger] now[j]).file_path
            == pages[j].file_path by {}
        if has_page(pages, file) {
            let j = choose|j: int| 0 <= j < pages.len() && #[trigger] pages[j].file_path == file;
            assert(now[j].file_path == file);
        }
        if has_page(now, file) {
            let j = choose|j: int| 0 <= j < now.len() && #[trigger] now[j].file_path == file;
            assert(pages[j].file_path == file);
        }
    } else {
        assert(now[pages.len() as int] == page);
        if has_page(pages, file) {
            let j = choose|j: int| 0 <= j < pages.len() && #[trigger] pages[j].file_path == file;
            assert(now[j].file_path == file);
        }
        if has_page(now, file) {
            let j = choose|j: int| 0 <= j < now.len() && #[trigger] now[j].file_path == file;
            if j < pages.len() {
                assert(pages[j].file_path == file);
            }
        }
    }
}

/// Loading adds every section that was read, unless a later one was read from the same directory. It
/// keeps the sections of all other directories, adds nothing else, and keeps the sections in order.
pub proof fn loading_adds_every_section(
    sections: Seq<SectionModel>,
    contents: Seq<ContentModel>,
    section: SectionModel,
)
    requires
        ascending(sections),
    ensures
        ascending(sections_loaded(sections, contents)),
        forall|i: int|
            0 <= i < contents.len() && #[trigger] contents[i] == ContentModel::Section(section)
                && !reads_section(contents, section.parent_path, i + 1) ==> sections_loaded(
                sections,
                contents,
            ).contains(section),
        !reads_section(contents, section.parent_path, 0) ==> (sections_loaded(
            sections,
            contents,
        ).contains(section) <==> sections.contains(section)),
        sections_loaded(sections, contents).contains(section) && reads_section(
            contents,
            section.parent_path,
            0,
        ) ==> contents.contains(ContentModel::Section(section)),
    decreases contents.len(),
{
    let directory = section.parent_path;
    if contents.len() > 0 {
        let front = contents.drop_last();
        let n = contents.len() - 1;
        let before = sections_loaded(sections, front);
        loading_adds_every_section(sections, front, section);
        assert forall|s: int| reads_section(contents, directory, s) <==> (reads_section(
            front,
            directory,
            s,
        ) || (s <= n && contents[n] is Section && contents[n]->Section_0.parent_path == directory)) by {
            if reads_section(contents, directory, s) {
                let i = choose|i: int|
                    s <= i < contents.len() && 0 <= i && #[trigger] contents[i] is Section
                        && contents[i]->Section_0.parent_path == directory;
                if i < n {
                    assert(front[i] == contents[i]);
                }
            }
            if reads_section(front, directory, s) {
                let i = choose|i: int|
                    s <= i < front.len() && 0 <= i && #[trigger] front[i] is Section
                        && front[i]->Section_0.parent_path == directory;
                assert(contents[i] == front[i]);
            }
        }
        if front.contains(ContentModel::Section(section)) {
            let k = choose|k: int| 0 <= k < front.len() && front[k] == ContentModel::Section(section);
            assert(contents[k] == front[k]);
        }
        assert forall|i: int|
            0 <= i < contents.len() && #[trigger] contents[i] == ContentModel::Section(section)
                && !reads_section(contents, directory, i + 1) && i < n implies before.contains(
            section,
        ) by {
            assert(front[i] == contents[i]);
        }
        match contents[n] {
            ContentModel::Page(_) => {},
            ContentModel::Section(last) => {
                added_section_is_found(before, last, section);
                lemma_put_keeps_order(before, last);
                assert(contents[n] == ContentModel::Section(last));
            },
        }
    }
}

/// Populating a site completes its sections with its pages, files all its pages, and changes nothing
/// else. Filing the pages alone leaves the sections too.
pub proof fn populating_keeps_the_rest(site: SiteModel)
    ensures
        ({
            let now = with_sections_and_terms(site);
            &&& now.base_path == site.base_path
            &&& now.config == site.config
            &&& now.pages == site.pages
            &&& now.sections == populated(site.sections, site.pages)
            &&& now.live_reload == site.live_reload
            &&& now.output_path == site.output_path
            &&& now.tags == tagged(site.tags, site.pages)
            &&& now.categories == categorized(site.categories, site.pages)
        }),
        ({
            let now = with_terms(site);
            &&& now.pages == site.pages
            &&& now.tags == tagged(site.tags, site.pages)
            &&& now.categories == categorized(site.categories, site.pages)
            &&& same_but_for_pages(
                now,
                SiteModel { tags: now.tags, categories: now.categories, ..site },
            )
        }),
{
}

/// Whether `after` is `before` with `file` added `times` times at the end.
pub open spec fn gained_file(
    before: Seq<Seq<Seq<char>>>,
    after: Seq<Seq<Seq<char>>>,
    file: Seq<Seq<char>>,
    times: nat,
) -> bool {
    &&& after.len() == before.len() + times
    &&& forall|i: int| 0 <= i < before.len() ==> #[trigger] after[i] == before[i]
    &&& forall|i: int| before.len() <= i < after.len() ==> #[trigger] after[i] == file
}

/// Each page adds itself to its category, if it has one, and to nothing else; the category is then
/// listed. Without pages the categories stay as they are.
pub proof fn page_joins_its_category(
    terms: Seq<TermModel>,
    pages: Seq<PageModel>,
    page: PageModel,
    name: Seq<char>,
)
    requires
        distinct_names(terms),
    ensures
        categorized(terms, Seq::empty()) == terms,
        distinct_names(categorized(terms, pages)),
        gained_file(
            pages_under(categorized(terms, pages), name),
            pages_under(categorized(terms, pages.push(page)), name),
            page.file_path,
            if page.category == Some(name) {
                1
            } else {
                0
            },
        ),
        is_listed(categorized(terms, pages.push(page)), name) <==> is_listed(
            categorized(terms, pages),
            name,
        ) || page.category == Some(name),
{
    crate::content_laws::categories_list_their_pages(terms, pages, name);
    assert(pages.push(page).drop_last() == pages);
    let before = categorized(terms, pages);
    if let Some(category) = page.category {
        filed_page_comes_last(before, category, page.file_path, name);
    }
}

/// Each page adds itself to every tag that it has, as often as it has it, and to nothing else; these
/// tags are then listed. Without pages the tags stay as they are.
pub proof fn page_joins_its_tags(
    terms: Seq<TermModel>,
    pages: Seq<PageModel>,
    page: PageModel,
    name: Seq<char>,
)
    requires
        distinct_names(terms),
    ensures
        tagged(terms, Seq::empty()) == terms,
        distinct_names(tagged(terms, pages)),
        gained_file(
            pages_under(tagged(terms, pages), name),
            pages_under(tagged(terms, pages.push(page)), name),
            page.file_path,
            match page.tags {
                Some(names) => count(names, name),
                None => 0,
            },
        ),
        is_listed(tagged(terms, pages.push(page)), name) <==> is_listed(tagged(terms, pages), name)
            || (page.tags is Some && page.tags->0.contains(name)),
{
    crate::content_laws::tags_list_their_pages(terms, pages, name);
    assert(pages.push(page).drop_last() == pages);
    let before = tagged(terms, pages);
    if let Some(names) = page.tags {
        lemma_filed_under_all(before, names, page.file_path, name);
        lemma_times_count(names, name);
    }
}

proof fn lemma_times_count(names: Seq<Seq<char>>, name: Seq<char>)
    ensures
        times(names, name) == count(names, name),
    decreases names.len(),
{
    broadcast use {vstd::seq_lib::group_to_multiset_ensures, vstd::multiset::group_multiset_axioms};

    if names.len() > 0 {
        lemma_times_count(names.drop_last(), name);
        assert(names == names.drop_last().push(names.last()));
    } else {
        assert(!names.contains(name));
    }
}

/// The permalink of a content file is that of the last section which was read from it, if there is
/// one.
pub proof fn last_section_decides(site: SiteModel, i: int)
    requires
        0 <= i < site.sections.len(),
        forall|j: int|
            i < j < site.sections.len() ==> (#[trigger] site.sections[j]).relative_path
                != site.sections[i].relative_path,
    ensures
        all_links(site).contains_key(site.sections[i].relative_path),
        all_links(site)[site.sections[i].relative_path] == site.sections[i].permalink,
{
    lemma_last_link(page_links(site.pages), site.sections, i);
}

proof fn lemma_last_link(links: Map<Seq<char>, Seq<char>>, sections: Seq<SectionModel>, i: int)
    requires
        0 <= i < sections.len(),
        forall|j: int|
            i < j < sections.len() ==> (#[trigger] sections[j]).relative_path
                != sections[i].relative_path,
    ensures
        section_links(links, sections).contains_key(sections[i].relative_path),
        section_links(links, sections)[sections[i].relative_path] == sections[i].permalink,
    decreases sections.len(),
{
    let front = sections.drop_last();
    if i < front.len() {
        assert forall|j: int| i < j < front.len() implies (#[trigger] front[j]).relative_path
            != front[i].relative_path by {
            assert(front[j] == sections[j]);
        }
        lemma_last_link(links, front, i);
        assert(sections[sections.len() - 1].relative_path != sections[i].relative_path);
    }
}

/// The list of a taxonomy has one item for each term, with its name, the slug of its name and the
/// number of its pages; no item comes before one with more pages.
pub proof fn every_term_is_an_item(terms: Seq<TermModel>)
    requires
        distinct_names(terms),
    ensures
        sorted_items(terms).len() == terms.len(),
        forall|i: int|
            0 <= i < terms.len() ==> exists|j: int|
                0 <= j < terms.len() && (#[trigger] sorted_items(terms)[i]).name == (
                #[trigger] terms[j]).name && sorted_items(terms)[i].slug == slug_of(terms[j].name)
                    && sorted_items(terms)[i].count == terms[j].pages.len(),
        forall|j: int|
            0 <= j < terms.len() ==> exists|i: int|
                0 <= i < terms.len() && (#[trigger] sorted_items(terms)[i]).name == (
                #[trigger] terms[j]).name,
        forall|i: int, j: int|
            0 <= i < j < terms.len() ==> (#[trigger] sorted_items(terms)[i]).count >= (
            #[trigger] sorted_items(terms)[j]).count,
{
    items_are_sorted(terms);
    let items = sorted_items(terms);
    let keys = terms.map_values(|t: TermModel| -(t.pages.len() as int));
    let positions = order(keys);
    order_sorts(keys);
    assert forall|i: int| 0 <= i < terms.len() implies exists|j: int|
        0 <= j < terms.len() && (#[trigger] items[i]).name == (#[trigger] terms[j]).name
            && items[i].slug == slug_of(terms[j].name) && items[i].count == terms[j].pages.len() by {
        assert(0 <= positions[i] < keys.len());
        assert(items[i] == item_of(terms[positions[i]]));
    }
    assert forall|j: int| 0 <= j < terms.len() implies exists|i: int|
        0 <= i < terms.len() && (#[trigger] items[i]).name == (#[trigger] terms[j]).name by {
        assert(positions.contains(j));
        let i = choose|i: int| 0 <= i < positions.len() && positions[i] == j;
        assert(items[i].name == terms[j].name);
    }
}

/// Sorted pages are the same pages, each as often, and in order.
pub proof fn sorting_keeps_every_page(pages: Seq<PageModel>, page: PageModel)
    ensures
        by_rank(pages).len() == pages.len(),
        count(by_rank(pages), page) == count(pages, page),
        forall|i: int, j: int|
            0 <= i < j < by_rank(pages).len() ==> (#[trigger] by_rank(pages)[i]).rank <= (
            #[trigger] by_rank(pages)[j]).rank,
{
    pages_are_sorted(pages);
}

/// A content file that is gone is removed. One that is there is read: as a section if a page was read
/// from it before and it is called `_index.md`, and otherwise as a page.
pub proof fn change_is_what_the_file_asks_for(pages: Seq<PageModel>, path: Seq<Seq<char>>)
    ensures
        needed_change(pages, path, false) == ContentChange::Remove,
        needed_change(pages, path, true) == ContentChange::ReadSection <==> path.len() > 0
            && path.last() == "_index.md"@ && exists|i: int|
            0 <= i < pages.len() && (#[trigger] pages[i]).file_path == path,
        needed_change(pages, path, true) == ContentChange::ReadPage || needed_change(
            pages,
            path,
            true,
        ) == ContentChange::ReadSection,
{
    if has_page(pages, path) {
        let i = choose|i: int| 0 <= i < pages.len() && #[trigger] pages[i].file_path == path;
        assert(pages[i].file_path == path);
    }
    if exists|i: int| 0 <= i < pages.len() && (#[trigger] pages[i]).file_path == path {
        let i = choose|i: int| 0 <= i < pages.len() && (#[trigger] pages[i]).file_path == path;
        assert(pages[i].file_path == path);
    }
}

} // verus!
