//! What holds of a site's content whatever it is.

use vstd::prelude::*;

use crate::content::{PageModel, SectionModel};
use crate::order::{arranged_keeps_items, order, order_of_ascending, order_sorts};
use crate::path::{path_before, paths_are_ordered};
use crate::site::{
    all_links, all_with_own_pages, by_rank, distinct_files, has_page, lemma_filter_prefix,
    lies_right_in, page_links, pages_in, populated, put_page, put_section, section_links,
    sections_after, sections_before, sections_below, with_change, with_own_pages, without_page,
    ContentModel, SiteModel,
};
use crate::taxonomy::{
    categorized, distinct_names, filed, filed_under_all, is_listed, item_of, sorted_items, tagged,
    with_page, TermModel,
};

verus! {

/// Pages in order of rank: all of them and no others, none with a smaller rank than one before it,
/// and those of equal rank in the order they came in.
pub proof fn pages_are_sorted(pages: Seq<PageModel>)
    ensures
        by_rank(pages).len() == pages.len(),
        by_rank(pages).to_multiset() == pages.to_multiset(),
        forall|i: int, j: int|
            0 <= i < j < pages.len() ==> (#[trigger] by_rank(pages)[i]).rank <= (
            #[trigger] by_rank(pages)[j]).rank,
        ({
            let positions = order(pages.map_values(|p: PageModel| p.rank));
            &&& forall|i: int| 0 <= i < pages.len() ==> #[trigger] by_rank(pages)[i] == pages[positions[i]]
            &&& forall|i: int, j: int|
                0 <= i < j < pages.len() && by_rank(pages)[i].rank == by_rank(pages)[j].rank
                    ==> #[trigger] positions[i] < #[trigger] positions[j]
        }),
{
    let ranks = pages.map_values(|p: PageModel| p.rank);
    order_sorts(ranks);
    arranged_keeps_items(pages, ranks);
    let positions = order(ranks);
    assert forall|i: int| 0 <= i < pages.len() implies #[trigger] by_rank(pages)[i]
        == pages[positions[i]] && by_rank(pages)[i].rank == ranks[positions[i]] by {
        assert(0 <= positions[i] < ranks.len());
    }
    assert forall|i: int, j: int| 0 <= i < j < pages.len() implies (#[trigger] by_rank(pages)[i]).rank
        <= (#[trigger] by_rank(pages)[j]).rank by {
        assert(ranks[positions[i]] <= ranks[positions[j]]);
    }
}

/// Pages that are sorted stay as they are when they are sorted again.
pub proof fn sorting_again_changes_nothing(pages: Seq<PageModel>)
    ensures
        by_rank(by_rank(pages)) == by_rank(pages),
{
    pages_are_sorted(pages);
    let once = by_rank(pages);
    let ranks = once.map_values(|p: PageModel| p.rank);
    assert forall|i: int, j: int| 0 <= i < j < ranks.len() implies #[trigger] ranks[i]
        <= #[trigger] ranks[j] by {
        assert(once[i].rank <= once[j].rank);
    }
    order_of_ascending(ranks);
    assert(by_rank(once) == once);
}

/// The tags or categories of a list page are those of the site, those with the most pages first.
pub proof fn items_are_sorted(terms: Seq<TermModel>)
    ensures
        sorted_items(terms).len() == terms.len(),
        sorted_items(terms).to_multiset() == terms.map_values(|t: TermModel| item_of(t)).to_multiset(),
        forall|i: int, j: int|
            0 <= i < j < terms.len() ==> (#[trigger] sorted_items(terms)[i]).count >= (
            #[trigger] sorted_items(terms)[j]).count,
{
    let items = terms.map_values(|t: TermModel| item_of(t));
    let keys = terms.map_values(|t: TermModel| -(t.pages.len() as int));
    order_sorts(keys);
    arranged_keeps_items(items, keys);
    let positions = order(keys);
    assert forall|i: int, j: int| 0 <= i < j < terms.len() implies (#[trigger] sorted_items(terms)[i]).count
        >= (#[trigger] sorted_items(terms)[j]).count by {
        assert(0 <= positions[i] < keys.len() && 0 <= positions[j] < keys.len());
        assert(keys[positions[i]] <= keys[positions[j]]);
    }
}

/// After a page is added it is the page of its file, and the pages of all other files are what they
/// were.
pub proof fn added_page_is_found(pages: Seq<PageModel>, page: PageModel, other: PageModel)
    requires
        distinct_files(pages),
    ensures
        distinct_files(put_page(pages, page)),
        put_page(pages, page).contains(page),
        other.file_path != page.file_path ==> (put_page(pages, page).contains(other)
            <==> pages.contains(other)),
        other.file_path == page.file_path && put_page(pages, page).contains(other) ==> other == page,
{
    let now = put_page(pages, page);
    if has_page(pages, page.file_path) {
        let i = choose|i: int| 0 <= i < pages.len() && #[trigger] pages[i].file_path == page.file_path;
        assert(now[i] == page);
        assert forall|j: int| 0 <= j < now.len() implies (#[trigger] now[j]).file_path
            == pages[j].file_path by {}
        if pages.contains(other) && other.file_path != page.file_path {
            let k = choose|k: int| 0 <= k < pages.len() && pages[k] == other;
            assert(now[k] == other);
        }
        if now.contains(other) {
            let k = choose|k: int| 0 <= k < now.len() && now[k] == other;
            assert(pages[k].file_path == other.file_path);
        }
    } else {
        assert(now == pages.push(page));
        assert(now[pages.len() as int] == page);
        assert forall|i: int, j: int| 0 <= i < j < now.len() implies (#[trigger] now[i]).file_path != (
        #[trigger] now[j]).file_path by {
            if j == pages.len() {
                assert(pages[i].file_path != page.file_path);
            }
        }
        if pages.contains(other) {
            let k = choose|k: int| 0 <= k < pages.len() && pages[k] == other;
            assert(now[k] == other);
        }
        if now.contains(other) {
            let k = choose|k: int| 0 <= k < now.len() && now[k] == other;
            if k < pages.len() {
                assert(pages[k] == other);
                assert(pages[k].file_path != page.file_path);
            }
        }
    }
}

/// Of two pages from one file that are added one after the other, only the later leaves a trace.
pub proof fn later_page_wins(pages: Seq<PageModel>, first: PageModel, second: PageModel)
    requires
        first.file_path == second.file_path,
    ensures
        put_page(put_page(pages, first), second) == put_page(pages, second),
{
    let once = put_page(pages, first);
    if has_page(pages, first.file_path) {
        let i = choose|i: int| 0 <= i < pages.len() && #[trigger] pages[i].file_path == first.file_path;
        assert(once[i].file_path == second.file_path);
    } else {
        assert(once[pages.len() as int].file_path == second.file_path);
        assert forall|j: int| 0 <= j < pages.len() implies (#[trigger] pages[j]).file_path
            != first.file_path by {}
    }
    assert(put_page(once, second) == put_page(pages, second));
}

/// After a page is removed its file has no page, and the pages of all other files are what they
/// were.
pub proof fn removed_page_is_gone(pages: Seq<PageModel>, file: Seq<Seq<char>>, other: PageModel)
    ensures
        !has_page(without_page(pages, file), file),
        other.file_path != file ==> (without_page(pages, file).contains(other) <==> pages.contains(
            other,
        )),
{
    let keep = |p: PageModel| p.file_path != file;
    let rest = without_page(pages, file);
    assert forall|i: int| 0 <= i < rest.len() implies (#[trigger] rest[i]).file_path != file by {
        pages.lemma_filter_pred(keep, i);
    }
    if other.file_path != file && pages.contains(other) {
        let i = choose|i: int| 0 <= i < pages.len() && pages[i] == other;
        pages.lemma_filter_contains(keep, i);
    }
    if rest.contains(other) {
        pages.lemma_filter_contains_rev(keep, other);
    }
}

/// Removing a page undoes adding it, up to the page of the same file that was there before.
pub proof fn removing_undoes_adding(pages: Seq<PageModel>, page: PageModel)
    ensures
        without_page(put_page(pages, page), page.file_path) == without_page(pages, page.file_path),
        !has_page(pages, page.file_path) ==> without_page(put_page(pages, page), page.file_path)
            == pages,
    decreases pages.len(),
{
    reveal(Seq::filter);
    let file = page.file_path;
    let keep = |p: PageModel| p.file_path != file;
    if !has_page(pages, file) {
        assert(pages.push(page).drop_last() == pages);
        lemma_filter_prefix(pages, keep, pages.len() as int);
        assert(pages.take(pages.len() as int) == pages);
    } else {
        lemma_filter_same(pages, put_page(pages, page), keep);
    }
}

proof fn lemma_filter_same(
    a: Seq<PageModel>,
    b: Seq<PageModel>,
    keep: spec_fn(PageModel) -> bool,
)
    requires
        a.len() == b.len(),
        forall|i: int|
            0 <= i < a.len() ==> keep(#[trigger] a[i]) == keep(b[i]) && (keep(a[i]) ==> a[i] == b[i]),
    ensures
        a.filter(keep) == b.filter(keep),
    decreases a.len(),
{
    reveal(Seq::filter);
    if a.len() > 0 {
        let x = a.drop_last();
        let y = b.drop_last();
        assert forall|i: int| 0 <= i < x.len() implies keep(#[trigger] x[i]) == keep(y[i]) && (keep(
            x[i],
        ) ==> x[i] == y[i]) by {
            assert(x[i] == a[i] && y[i] == b[i]);
        }
        lemma_filter_same(x, y, keep);
        assert(keep(a[a.len() - 1]) == keep(b[b.len() - 1]));
    }
}

/// After a section is added it is the section of its directory, and the sections of all other
/// directories are what they were.
pub proof fn added_section_is_found(
    sections: Seq<SectionModel>,
    section: SectionModel,
    other: SectionModel,
)
    ensures
        put_section(sections, section).contains(section),
        other.parent_path != section.parent_path ==> (put_section(sections, section).contains(other)
            <==> sections.contains(other)),
        other.parent_path == section.parent_path && put_section(sections, section).contains(other)
            ==> other == section,
{
    let path = section.parent_path;
    let is_before = |s: SectionModel| path_before(s.parent_path, path);
    let is_after = |s: SectionModel| path_before(path, s.parent_path);
    let front = sections_before(sections, path);
    let back = sections_after(sections, path);
    let now = put_section(sections, section);
    paths_are_ordered(path, other.parent_path, path);
    paths_are_ordered(path, path, path);
    assert(now[front.len() as int] == section);
    if sections.contains(other) && other.parent_path != path {
        let i = choose|i: int| 0 <= i < sections.len() && sections[i] == other;
        if path_before(other.parent_path, path) {
            sections.lemma_filter_contains(is_before, i);
            let k = choose|k: int| 0 <= k < front.len() && front[k] == other;
            assert(now[k] == other);
        } else {
            sections.lemma_filter_contains(is_after, i);
            let k = choose|k: int| 0 <= k < back.len() && back[k] == other;
            assert(now[front.len() + 1 + k] == other);
        }
    }
    if now.contains(other) {
        let k = choose|k: int| 0 <= k < now.len() && now[k] == other;
        if k < front.len() {
            assert(front[k] == other);
            sections.lemma_filter_pred(is_before, k);
            sections.lemma_filter_contains_rev(is_before, other);
        } else if k > front.len() {
            assert(back[k - front.len() - 1] == other);
            sections.lemma_filter_pred(is_after, k - front.len() - 1);
            sections.lemma_filter_contains_rev(is_after, other);
        }
    }
}

/// Completing the sections keeps their number, their order and everything that they were read with.
/// A page is added to a section if and only if it lies in the section's directory, and a section is
/// added to another if and only if its directory lies right in the other's.
pub proof fn sections_get_their_own(
    sections: Seq<SectionModel>,
    pages: Seq<PageModel>,
    i: int,
)
    requires
        0 <= i < sections.len(),
    ensures
        populated(sections, pages).len() == sections.len(),
        ({
            let before = sections[i];
            let after = populated(sections, pages)[i];
            &&& after.parent_path == before.parent_path
            &&& after.relative_path == before.relative_path
            &&& after.permalink == before.permalink
            &&& after.components == before.components
            &&& after.data == before.data
            &&& forall|p: PageModel| #[trigger]
                after.pages.contains(p) <==> before.pages.contains(p) || (pages.contains(p)
                    && p.parent_path == before.parent_path)
            &&& forall|s: SectionModel| #[trigger]
                after.subsections.contains(s) <==> before.subsections.contains(s) || exists|j: int|
                    0 <= j < sections.len() && #[trigger] with_own_pages(sections[j], pages) == s
                        && sections[j].parent_path.drop_last() == before.parent_path
        }),
{
    broadcast use vstd::seq_lib::group_to_multiset_ensures;

    let filled = all_with_own_pages(sections, pages);
    let before = sections[i];
    let after = populated(sections, pages)[i];
    let own = pages_in(pages, before.parent_path);
    let is_own = |p: PageModel| p.parent_path == before.parent_path;
    let all = before.pages + own;
    pages_are_sorted(all);
    assert forall|p: PageModel| #[trigger] after.pages.contains(p) <==> before.pages.contains(p) || (
    pages.contains(p) && p.parent_path == before.parent_path) by {
        assert(after.pages.contains(p) <==> all.contains(p)) by {
            assert(after.pages.to_multiset().count(p) == all.to_multiset().count(p));
        }
        if before.pages.contains(p) {
            let k = choose|k: int| 0 <= k < before.pages.len() && before.pages[k] == p;
            assert(all[k] == p);
        }
        if pages.contains(p) && p.parent_path == before.parent_path {
            let k = choose|k: int| 0 <= k < pages.len() && pages[k] == p;
            pages.lemma_filter_contains(is_own, k);
            let m = choose|m: int| 0 <= m < own.len() && own[m] == p;
            assert(all[before.pages.len() + m] == p);
        }
        if all.contains(p) {
            let k = choose|k: int| 0 <= k < all.len() && all[k] == p;
            if k < before.pages.len() {
                assert(before.pages[k] == p);
            } else {
                assert(own[k - before.pages.len()] == p);
                pages.lemma_filter_pred(is_own, k - before.pages.len());
                pages.lemma_filter_contains_rev(is_own, p);
            }
        }
    }
    let directory = before.parent_path;
    let is_below = lies_right_in(directory);
    let below = sections_below(filled, directory);
    assert(filled[i].parent_path == directory);
    assert(after.subsections == before.subsections + below);
    assert forall|s: SectionModel| #[trigger] after.subsections.contains(s)
        <==> before.subsections.contains(s) || exists|j: int|
        0 <= j < sections.len() && #[trigger] with_own_pages(sections[j], pages) == s
            && sections[j].parent_path.drop_last() == before.parent_path by {
        if before.subsections.contains(s) {
            let k = choose|k: int| 0 <= k < before.subsections.len() && before.subsections[k] == s;
            assert(after.subsections[k] == s);
        }
        if exists|j: int|
            0 <= j < sections.len() && #[trigger] with_own_pages(sections[j], pages) == s
                && sections[j].parent_path.drop_last() == before.parent_path {
            let j = choose|j: int|
                0 <= j < sections.len() && #[trigger] with_own_pages(sections[j], pages) == s
                    && sections[j].parent_path.drop_last() == before.parent_path;
            assert(filled[j] == s);
            filled.lemma_filter_contains(is_below, j);
            let m = choose|m: int| 0 <= m < below.len() && below[m] == s;
            assert(after.subsections[before.subsections.len() + m] == s);
        }
        if after.subsections.contains(s) {
            let k = choose|k: int| 0 <= k < after.subsections.len() && after.subsections[k] == s;
            if k < before.subsections.len() {
                assert(before.subsections[k] == s);
            } else {
                let m = k - before.subsections.len();
                assert(below[m] == s);
                filled.lemma_filter_pred(is_below, m);
                filled.lemma_filter_contains_rev(is_below, s);
                let j = choose|j: int| 0 <= j < filled.len() && filled[j] == s;
                assert(with_own_pages(sections[j], pages) == s);
            }
        }
    }
}

/// The pages that are filed under a name.
pub open spec fn pages_under(terms: Seq<TermModel>, name: Seq<char>) -> Seq<Seq<Seq<char>>> {
    if is_listed(terms, name) {
        terms[choose|i: int| 0 <= i < terms.len() && #[trigger] terms[i].name == name].pages
    } else {
        Seq::empty()
    }
}

/// The files of the pages of a category.
pub open spec fn files_in_category(pages: Seq<PageModel>, name: Seq<char>) -> Seq<Seq<Seq<char>>>
    decreases pages.len(),
{
    if pages.len() == 0 {
        Seq::empty()
    } else if pages.last().category == Some(name) {
        files_in_category(pages.drop_last(), name).push(pages.last().file_path)
    } else {
        files_in_category(pages.drop_last(), name)
    }
}

/// How often a name occurs among names.
pub open spec fn times(names: Seq<Seq<char>>, name: Seq<char>) -> nat
    decreases names.len(),
{
    if names.len() == 0 {
        0
    } else if names.last() == name {
        times(names.drop_last(), name) + 1
    } else {
        times(names.drop_last(), name)
    }
}

/// Whether a page has a tag.
pub open spec fn has_tag(page: PageModel, name: Seq<char>) -> bool {
    page.tags matches Some(names) && names.contains(name)
}

/// How often a page has a tag.
pub open spec fn tag_times(page: PageModel, name: Seq<char>) -> nat {
    match page.tags {
        Some(names) => times(names, name),
        None => 0,
    }
}

/// The files of the pages with a tag, each as often as the page has the tag.
pub open spec fn files_with_tag(pages: Seq<PageModel>, name: Seq<char>) -> Seq<Seq<Seq<char>>>
    decreases pages.len(),
{
    if pages.len() == 0 {
        Seq::empty()
    } else {
        files_with_tag(pages.drop_last(), name) + Seq::new(
            tag_times(pages.last(), name),
            |i: int| pages.last().file_path,
        )
    }
}

/// A listed name has the pages of its term.
pub(crate) proof fn lemma_pages_under(terms: Seq<TermModel>, i: int)
    requires
        distinct_names(terms),
        0 <= i < terms.len(),
    ensures
        pages_under(terms, terms[i].name) == terms[i].pages,
{
    let name = terms[i].name;
    assert(is_listed(terms, name));
    let k = choose|k: int| 0 <= k < terms.len() && #[trigger] terms[k].name == name;
    assert(terms[k].name == name);
}

/// A page that is filed under a name comes last there, and everything else stays.
pub proof fn filed_page_comes_last(
    terms: Seq<TermModel>,
    name: Seq<char>,
    page: Seq<Seq<char>>,
    other: Seq<char>,
)
    requires
        distinct_names(terms),
    ensures
        distinct_names(filed(terms, name, page)),
        pages_under(filed(terms, name, page), name) == pages_under(terms, name).push(page),
        is_listed(filed(terms, name, page), other) <==> is_listed(terms, other) || other == name,
        other != name ==> pages_under(filed(terms, name, page), other) == pages_under(terms, other),
{
    let now = filed(terms, name, page);
    if is_listed(terms, name) {
        assert forall|j: int| 0 <= j < now.len() implies (#[trigger] now[j]).name == terms[j].name by {
        }
        let i = choose|i: int| 0 <= i < terms.len() && #[trigger] terms[i].name == name;
        assert(now[i] == with_page(terms[i], page));
        lemma_pages_under(terms, i);
        lemma_pages_under(now, i);
        if is_listed(terms, other) {
            let k = choose|k: int| 0 <= k < terms.len() && #[trigger] terms[k].name == other;
            assert(now[k].name == other);
            lemma_pages_under(terms, k);
            lemma_pages_under(now, k);
        }
        if is_listed(now, other) {
            let k = choose|k: int| 0 <= k < now.len() && #[trigger] now[k].name == other;
            assert(terms[k].name == other);
        }
    } else {
        let n = terms.len() as int;
        assert forall|a: int, b: int| 0 <= a < b < now.len() implies (#[trigger] now[a]).name != (
        #[trigger] now[b]).name by {
            assert(terms[a].name == now[a].name);
            if b == n {
                assert(terms[a].name != name);
            }
        }
        assert(now[n].name == name);
        lemma_pages_under(now, n);
        assert(pages_under(terms, name).push(page) == seq![page]);
        if is_listed(terms, other) {
            let k = choose|k: int| 0 <= k < terms.len() && #[trigger] terms[k].name == other;
            assert(now[k].name == other);
            lemma_pages_under(terms, k);
            lemma_pages_under(now, k);
        }
        if is_listed(now, other) && other != name {
            let k = choose|k: int| 0 <= k < now.len() && #[trigger] now[k].name == other;
            assert(terms[k].name == other);
        }
    }
}

/// A category lists the files of exactly its pages, in the order of the pages, after what it listed
/// before. It is listed if and only if it was, or a page has it.
pub proof fn categories_list_their_pages(
    terms: Seq<TermModel>,
    pages: Seq<PageModel>,
    name: Seq<char>,
)
    requires
        distinct_names(terms),
    ensures
        distinct_names(categorized(terms, pages)),
        pages_under(categorized(terms, pages), name) == pages_under(terms, name)
            + files_in_category(pages, name),
        is_listed(categorized(terms, pages), name) <==> is_listed(terms, name) || exists|i: int|
            0 <= i < pages.len() && #[trigger] pages[i].category == Some(name),
    decreases pages.len(),
{
    if pages.len() == 0 {
        assert(pages_under(terms, name) + Seq::<Seq<Seq<char>>>::empty() == pages_under(
            terms,
            name,
        ));
    } else {
        let front = pages.drop_last();
        let last = pages.last();
        categories_list_their_pages(terms, front, name);
        let before = categorized(terms, front);
        if let Some(category) = last.category {
            filed_page_comes_last(before, category, last.file_path, name);
            if category == name {
                assert(pages[pages.len() - 1].category == Some(name));
                assert((pages_under(terms, name) + files_in_category(front, name)).push(
                    last.file_path,
                ) == pages_under(terms, name) + files_in_category(front, name).push(
                    last.file_path,
                ));
            }
        }
        assert((exists|i: int| 0 <= i < pages.len() && #[trigger] pages[i].category == Some(name))
            <==> (exists|i: int| 0 <= i < front.len() && #[trigger] front[i].category == Some(name))
            || last.category == Some(name)) by {
            if exists|i: int| 0 <= i < front.len() && #[trigger] front[i].category == Some(name) {
                let i = choose|i: int|
                    0 <= i < front.len() && #[trigger] front[i].category == Some(name);
                assert(pages[i].category == Some(name));
            }
            if exists|i: int| 0 <= i < pages.len() && #[trigger] pages[i].category == Some(name) {
                let i = choose|i: int|
                    0 <= i < pages.len() && #[trigger] pages[i].category == Some(name);
                if i < front.len() {
                    assert(front[i].category == Some(name));
                }
            }
        }
    }
}

proof fn lemma_times(names: Seq<Seq<char>>, name: Seq<char>)
    ensures
        times(names, name) > 0 <==> names.contains(name),
    decreases names.len(),
{
    if names.len() > 0 {
        let front = names.drop_last();
        lemma_times(front, name);
        if names.last() == name {
            assert(names[names.len() - 1] == name);
        } else if front.contains(name) {
            let i = choose|i: int| 0 <= i < front.len() && front[i] == name;
            assert(names[i] == name);
        } else if names.contains(name) {
            let i = choose|i: int| 0 <= i < names.len() && names[i] == name;
            assert(front[i] == name);
        }
    }
}

pub(crate) proof fn lemma_filed_under_all(
    terms: Seq<TermModel>,
    names: Seq<Seq<char>>,
    page: Seq<Seq<char>>,
    name: Seq<char>,
)
    requires
        distinct_names(terms),
    ensures
        distinct_names(filed_under_all(terms, names, page)),
        pages_under(filed_under_all(terms, names, page), name) == pages_under(terms, name)
            + Seq::new(times(names, name), |i: int| page),
        is_listed(filed_under_all(terms, names, page), name) <==> is_listed(terms, name)
            || names.contains(name),
    decreases names.len(),
{
    let copies = Seq::new(times(names, name), |i: int| page);
    if names.len() == 0 {
        assert(pages_under(terms, name) + copies == pages_under(terms, name));
    } else {
        let front = names.drop_last();
        lemma_filed_under_all(terms, front, page, name);
        lemma_times(front, name);
        lemma_times(names, name);
        let before = filed_under_all(terms, front, page);
        filed_page_comes_last(before, names.last(), page, name);
        let fewer = Seq::new(times(front, name), |i: int| page);
        if names.last() == name {
            assert((pages_under(terms, name) + fewer).push(page) == pages_under(terms, name)
                + copies);
        } else {
            assert(fewer == copies);
        }
    }
}

/// A tag lists the files of exactly the pages that have it, in the order of the pages, after what it
/// listed before. It is listed if and only if it was, or a page has it.
pub proof fn tags_list_their_pages(terms: Seq<TermModel>, pages: Seq<PageModel>, name: Seq<char>)
    requires
        distinct_names(terms),
    ensures
        distinct_names(tagged(terms, pages)),
        pages_under(tagged(terms, pages), name) == pages_under(terms, name) + files_with_tag(
            pages,
            name,
        ),
        is_listed(tagged(terms, pages), name) <==> is_listed(terms, name) || exists|i: int|
            0 <= i < pages.len() && has_tag(#[trigger] pages[i], name),
    decreases pages.len(),
{
    if pages.len() == 0 {
        assert(pages_under(terms, name) + Seq::<Seq<Seq<char>>>::empty() == pages_under(
            terms,
            name,
        ));
    } else {
        let front = pages.drop_last();
        let last = pages.last();
        tags_list_their_pages(terms, front, name);
        let before = tagged(terms, front);
        let own = Seq::new(tag_times(last, name), |i: int| last.file_path);
        let so_far = pages_under(terms, name) + files_with_tag(front, name);
        if let Some(names) = last.tags {
            lemma_filed_under_all(before, names, last.file_path, name);
        } else {
            assert(so_far + own == so_far);
        }
        assert(files_with_tag(pages, name) == files_with_tag(front, name) + own);
        assert(so_far + own == pages_under(terms, name) + (files_with_tag(front, name) + own));
        assert((exists|i: int| 0 <= i < pages.len() && has_tag(#[trigger] pages[i], name)) <==> (
        exists|i: int| 0 <= i < front.len() && has_tag(#[trigger] front[i], name)) || has_tag(
            last,
            name,
        )) by {
            if exists|i: int| 0 <= i < front.len() && has_tag(#[trigger] front[i], name) {
                let i = choose|i: int| 0 <= i < front.len() && has_tag(#[trigger] front[i], name);
                assert(has_tag(pages[i], name));
            }
            if has_tag(last, name) {
                assert(has_tag(pages[pages.len() - 1], name));
            }
            if exists|i: int| 0 <= i < pages.len() && has_tag(#[trigger] pages[i], name) {
                let i = choose|i: int| 0 <= i < pages.len() && has_tag(#[trigger] pages[i], name);
                if i < front.len() {
                    assert(has_tag(front[i], name));
                }
            }
        }
    }
}

/// The files of a category are those of the pages that have it.
pub proof fn files_in_category_are_of_its_pages(
    pages: Seq<PageModel>,
    name: Seq<char>,
    file: Seq<Seq<char>>,
)
    ensures
        files_in_category(pages, name).contains(file) <==> exists|i: int|
            0 <= i < pages.len() && (#[trigger] pages[i]).file_path == file && pages[i].category
                == Some(name),
    decreases pages.len(),
{
    if pages.len() > 0 {
        let front = pages.drop_last();
        let last = pages.last();
        let before = files_in_category(front, name);
        let now = files_in_category(pages, name);
        files_in_category_are_of_its_pages(front, name, file);
        if before.contains(file) {
            let k = choose|k: int| 0 <= k < before.len() && before[k] == file;
            assert(now[k] == file);
            let i = choose|i: int|
                0 <= i < front.len() && (#[trigger] front[i]).file_path == file && front[i].category
                    == Some(name);
            assert(pages[i].file_path == file && pages[i].category == Some(name));
        }
        if last.category == Some(name) && last.file_path == file {
            assert(now[now.len() - 1] == file);
            assert(pages[pages.len() - 1].file_path == file);
        }
        if now.contains(file) && !before.contains(file) {
            let k = choose|k: int| 0 <= k < now.len() && now[k] == file;
            if k < before.len() {
                assert(before[k] == file);
            }
            assert(pages[pages.len() - 1].category == Some(name));
        }
        if exists|i: int|
            0 <= i < pages.len() && (#[trigger] pages[i]).file_path == file && pages[i].category
                == Some(name) {
            let i = choose|i: int|
                0 <= i < pages.len() && (#[trigger] pages[i]).file_path == file && pages[i].category
                    == Some(name);
            if i < front.len() {
                assert(front[i].file_path == file && front[i].category == Some(name));
            }
        }
    }
}

/// The files of a tag are those of the pages that have it.
pub proof fn files_with_tag_are_of_its_pages(
    pages: Seq<PageModel>,
    name: Seq<char>,
    file: Seq<Seq<char>>,
)
    ensures
        files_with_tag(pages, name).contains(file) <==> exists|i: int|
            0 <= i < pages.len() && (#[trigger] pages[i]).file_path == file && has_tag(
                pages[i],
                name,
            ),
    decreases pages.len(),
{
    if pages.len() > 0 {
        let front = pages.drop_last();
        let last = pages.last();
        let before = files_with_tag(front, name);
        let now = files_with_tag(pages, name);
        files_with_tag_are_of_its_pages(front, name, file);
        if let Some(names) = last.tags {
            lemma_times(names, name);
        }
        if before.contains(file) {
            let k = choose|k: int| 0 <= k < before.len() && before[k] == file;
            assert(now[k] == file);
            let i = choose|i: int|
                0 <= i < front.len() && (#[trigger] front[i]).file_path == file && has_tag(
                    front[i],
                    name,
                );
            assert(pages[i].file_path == file && has_tag(pages[i], name));
        }
        if has_tag(last, name) && last.file_path == file {
            assert(now[before.len() as int] == file);
            assert(pages[pages.len() - 1].file_path == file);
        }
        if now.contains(file) && !before.contains(file) {
            let k = choose|k: int| 0 <= k < now.len() && now[k] == file;
            if k < before.len() {
                assert(before[k] == file);
            }
            assert(pages[pages.len() - 1].file_path == file);
        }
        if exists|i: int|
            0 <= i < pages.len() && (#[trigger] pages[i]).file_path == file && has_tag(
                pages[i],
                name,
            ) {
            let i = choose|i: int|
                0 <= i < pages.len() && (#[trigger] pages[i]).file_path == file && has_tag(
                    pages[i],
                    name,
                );
            if i < front.len() {
                assert(front[i].file_path == file && has_tag(front[i], name));
            }
        }
    }
}

proof fn lemma_page_links(pages: Seq<PageModel>, key: Seq<char>)
    ensures
        page_links(pages).contains_key(key) <==> exists|i: int|
            0 <= i < pages.len() && #[trigger] pages[i].relative_path == key,
        page_links(pages).contains_key(key) ==> exists|i: int|
            0 <= i < pages.len() && #[trigger] pages[i].relative_path == key && page_links(
                pages,
            )[key] == pages[i].permalink,
    decreases pages.len(),
{
    if pages.len() > 0 {
        let front = pages.drop_last();
        let n = pages.len() - 1;
        lemma_page_links(front, key);
        if pages[n].relative_path == key {
            assert(page_links(pages)[key] == pages[n].permalink);
        } else {
            if page_links(front).contains_key(key) {
                let i = choose|i: int|
                    0 <= i < front.len() && #[trigger] front[i].relative_path == key && page_links(
                        front,
                    )[key] == front[i].permalink;
                assert(pages[i].relative_path == key);
            }
            if exists|i: int| 0 <= i < pages.len() && #[trigger] pages[i].relative_path == key {
                let i = choose|i: int|
                    0 <= i < pages.len() && #[trigger] pages[i].relative_path == key;
                assert(front[i].relative_path == key);
            }
        }
    }
}

proof fn lemma_section_links(
    links: Map<Seq<char>, Seq<char>>,
    sections: Seq<SectionModel>,
    key: Seq<char>,
)
    ensures
        ({
            let all = section_links(links, sections);
            let own = exists|i: int|
                0 <= i < sections.len() && #[trigger] sections[i].relative_path == key;
            &&& all.contains_key(key) <==> links.contains_key(key) || own
            &&& !own && links.contains_key(key) ==> all[key] == links[key]
            &&& own ==> exists|i: int|
                0 <= i < sections.len() && #[trigger] sections[i].relative_path == key && all[key]
                    == sections[i].permalink
        }),
    decreases sections.len(),
{
    if sections.len() > 0 {
        let front = sections.drop_last();
        let n = sections.len() - 1;
        lemma_section_links(links, front, key);
        let all = section_links(links, sections);
        if sections[n].relative_path == key {
            assert(all[key] == sections[n].permalink);
        } else {
            if exists|i: int| 0 <= i < front.len() && #[trigger] front[i].relative_path == key {
                let i = choose|i: int|
                    0 <= i < front.len() && #[trigger] front[i].relative_path == key && section_links(
                        links,
                        front,
                    )[key] == front[i].permalink;
                assert(sections[i].relative_path == key);
            }
            if exists|i: int| 0 <= i < sections.len() && #[trigger] sections[i].relative_path == key {
                let i = choose|i: int|
                    0 <= i < sections.len() && #[trigger] sections[i].relative_path == key;
                assert(front[i].relative_path == key);
            }
        }
    }
}

/// Exactly the files of pages and sections have permalinks. That of a file which a section was read
/// from is the permalink of such a section; otherwise it is that of a page which was read from it.
pub proof fn permalinks_are_complete(site: SiteModel, file: Seq<char>)
    ensures
        ({
            let links = all_links(site);
            let of_section = exists|i: int|
                0 <= i < site.sections.len() && #[trigger] site.sections[i].relative_path == file;
            let of_page = exists|i: int|
                0 <= i < site.pages.len() && #[trigger] site.pages[i].relative_path == file;
            &&& links.contains_key(file) <==> of_section || of_page
            &&& of_section ==> exists|i: int|
                0 <= i < site.sections.len() && #[trigger] site.sections[i].relative_path == file
                    && links[file] == site.sections[i].permalink
            &&& !of_section && of_page ==> exists|i: int|
                0 <= i < site.pages.len() && #[trigger] site.pages[i].relative_path == file
                    && links[file] == site.pages[i].permalink
        }),
{
    lemma_page_links(site.pages, file);
    lemma_section_links(page_links(site.pages), site.sections, file);
}

/// A content file that was read is in the site afterwards, and one that is gone is not.
pub proof fn change_takes_effect(
    site: SiteModel,
    file: Seq<Seq<char>>,
    page: PageModel,
    section: SectionModel,
)
    requires
        distinct_files(site.pages),
    ensures
        with_change(site, file, Some(ContentModel::Page(page))).pages.contains(page),
        with_change(site, file, Some(ContentModel::Section(section))).sections.contains(section),
        !has_page(with_change(site, file, None).pages, file),
{
    added_page_is_found(site.pages, page, page);
    added_section_is_found(site.sections, section, section);
    removed_page_is_gone(site.pages, file, page);
}

} // verus!
