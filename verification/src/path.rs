//! Paths of files as lists of components.
//!
//! The components are those that `std::path::Path::components` gives on Unix: an absolute path
//! starts with the component `/`, repeated separators count once, and a component `.` is kept only
//! at the start of a relative path. Two paths are the same when their components are.

use vstd::prelude::*;

use crate::text::{
    chars_of, same_text, split, split_pieces_join, split_text, split_without_separator, texts,
};

verus! {

/// A path, from its first component to its last.
#[derive(Debug)]
pub struct FilePath {
    parts: Vec<String>,
}

impl View for FilePath {
    type V = Seq<Seq<char>>;

    closed spec fn view(&self) -> Seq<Seq<char>> {
        texts(self.parts@)
    }
}

/// Whether `path` is made of components as they can stand in a path: none is empty, none holds a
/// slash but `/` itself, and `/` and `.` stand at the start only.
pub open spec fn valid_path(path: Seq<Seq<char>>) -> bool {
    forall|i: int|
        0 <= i < path.len() ==> {
            let part = #[trigger] path[i];
            &&& part.len() > 0
            &&& part == "/"@ || part == "."@ ==> i == 0
            &&& part != "/"@ ==> !part.contains('/')
        }
}

/// The paths of a sequence.
pub open spec fn paths(all: Seq<FilePath>) -> Seq<Seq<Seq<char>>> {
    all.map_values(|p: FilePath| p@)
}

/// The components that `pieces`, the texts between the separators, add to a path of components
/// `base`. An empty piece adds nothing; neither does `.`, unless it comes first.
pub open spec fn extended(base: Seq<Seq<char>>, pieces: Seq<Seq<char>>) -> Seq<Seq<char>>
    decreases pieces.len(),
{
    if pieces.len() == 0 {
        base
    } else {
        let before = extended(base, pieces.drop_last());
        if pieces.last() == ""@ || (pieces.last() == "."@ && before.len() > 0) {
            before
        } else {
            before.push(pieces.last())
        }
    }
}

/// The path that results from appending `addition` to `base`. An absolute addition takes the place
/// of the whole path.
pub open spec fn joined(base: Seq<Seq<char>>, addition: Seq<char>) -> Seq<Seq<char>> {
    if addition.len() > 0 && addition[0] == '/' {
        extended(seq!["/"@], split(addition, '/'))
    } else {
        extended(base, split(addition, '/'))
    }
}

/// The components of a path that is written out.
pub open spec fn parsed(text: Seq<char>) -> Seq<Seq<char>> {
    joined(Seq::empty(), text)
}

/// Whether a path has a parent: all have but the empty path and `/`.
pub open spec fn has_parent(path: Seq<Seq<char>>) -> bool {
    path.len() > 0 && path.last() != "/"@
}

/// Whether a path ends in the name of a file or of a directory.
pub open spec fn has_name(path: Seq<Seq<char>>) -> bool {
    path.len() > 0 && path.last() != "/"@ && path.last() != "."@ && path.last() != ".."@
}

/// Whether a path is that of the page which describes a section.
pub open spec fn is_index(path: Seq<Seq<char>>) -> bool {
    path.len() > 0 && path.last() == "_index.md"@
}

/// Whether `a` comes before `b` when elements are compared one by one, by `before`; a sequence
/// comes before those that it begins.
pub open spec fn lexicographic<A>(a: Seq<A>, b: Seq<A>, before: spec_fn(A, A) -> bool) -> bool
    decreases a.len(),
{
    b.len() > 0 && (a.len() == 0 || before(a[0], b[0]) || a[0] == b[0] && lexicographic(
        a.skip(1),
        b.skip(1),
        before,
    ))
}

/// Whether one text comes before another in the order of their characters.
pub open spec fn text_before(a: Seq<char>, b: Seq<char>) -> bool {
    lexicographic(a, b, |x: char, y: char| x < y)
}

/// Where a component stands among the kinds of components.
pub open spec fn part_kind(part: Seq<char>) -> int {
    if part == "/"@ {
        0
    } else if part == "."@ {
        1
    } else if part == ".."@ {
        2
    } else {
        3
    }
}

/// Whether one component comes before another.
pub open spec fn part_before(a: Seq<char>, b: Seq<char>) -> bool {
    part_kind(a) < part_kind(b) || part_kind(a) == part_kind(b) && text_before(a, b)
}

/// Whether one path comes before another.
pub open spec fn path_before(a: Seq<Seq<char>>, b: Seq<Seq<char>>) -> bool {
    lexicographic(a, b, |x: Seq<char>, y: Seq<char>| part_before(x, y))
}

proof fn lemma_lexicographic_irreflexive<A>(a: Seq<A>, before: spec_fn(A, A) -> bool)
    requires
        forall|x: A| !#[trigger] before(x, x),
    ensures
        !lexicographic(a, a, before),
    decreases a.len(),
{
    if a.len() > 0 {
        lemma_lexicographic_irreflexive(a.skip(1), before);
    }
}

proof fn lemma_lexicographic_transitive<A>(
    a: Seq<A>,
    b: Seq<A>,
    c: Seq<A>,
    before: spec_fn(A, A) -> bool,
)
    requires
        forall|x: A, y: A, z: A| #[trigger]
            before(x, y) && #[trigger] before(y, z) ==> before(x, z),
        lexicographic(a, b, before),
        lexicographic(b, c, before),
    ensures
        lexicographic(a, c, before),
    decreases a.len(),
{
    if a.len() > 0 && a[0] == b[0] && b[0] == c[0] {
        if !before(a[0], b[0]) && !before(b[0], c[0]) {
            lemma_lexicographic_transitive(a.skip(1), b.skip(1), c.skip(1), before);
        }
    }
}

proof fn lemma_lexicographic_total<A>(a: Seq<A>, b: Seq<A>, before: spec_fn(A, A) -> bool)
    requires
        forall|x: A, y: A| #[trigger] before(x, y) || x == y || before(y, x),
    ensures
        lexicographic(a, b, before) || a == b || lexicographic(b, a, before),
    decreases a.len(),
{
    if a.len() == 0 || b.len() == 0 {
        if a.len() == 0 && b.len() == 0 {
            assert(a == b);
        }
    } else {
        assert(before(a[0], b[0]) || a[0] == b[0] || before(b[0], a[0]));
        lemma_lexicographic_total(a.skip(1), b.skip(1), before);
        if a[0] == b[0] && a.skip(1) == b.skip(1) {
            assert(a == seq![a[0]] + a.skip(1));
            assert(b == seq![b[0]] + b.skip(1));
        }
    }
}

proof fn lemma_part_order(a: Seq<char>, b: Seq<char>, c: Seq<char>)
    ensures
        !part_before(a, a),
        part_before(a, b) && part_before(b, c) ==> part_before(a, c),
        part_before(a, b) || a == b || part_before(b, a),
{
    let less = |x: char, y: char| x < y;
    lemma_lexicographic_irreflexive(a, less);
    lemma_lexicographic_total(a, b, less);
    if text_before(a, b) && text_before(b, c) {
        lemma_lexicographic_transitive(a, b, c, less);
    }
}

/// Paths are put in order by their components: no path comes before itself, of two different paths
/// one comes before the other, and what comes before a path comes before all that follow it.
pub proof fn paths_are_ordered(a: Seq<Seq<char>>, b: Seq<Seq<char>>, c: Seq<Seq<char>>)
    ensures
        !path_before(a, a),
        path_before(a, b) && path_before(b, c) ==> path_before(a, c),
        path_before(a, b) || a == b || path_before(b, a),
{
    let less = |x: Seq<char>, y: Seq<char>| part_before(x, y);
    assert forall|x: Seq<char>| !#[trigger] less(x, x) by {
        lemma_part_order(x, x, x);
    }
    assert forall|x: Seq<char>, y: Seq<char>| #[trigger] less(x, y) || x == y || less(y, x) by {
        lemma_part_order(x, y, y);
    }
    assert forall|x: Seq<char>, y: Seq<char>, z: Seq<char>| #[trigger]
        less(x, y) && #[trigger] less(y, z) implies less(x, z) by {
        lemma_part_order(x, y, z);
    }
    lemma_lexicographic_irreflexive(a, less);
    lemma_lexicographic_total(a, b, less);
    if path_before(a, b) && path_before(b, c) {
        lemma_lexicographic_transitive(a, b, c, less);
    }
}

/// Whether two texts are the same up to position `k`, where `a` ends or has the smaller character.
pub open spec fn texts_differ_first_at(a: Seq<char>, b: Seq<char>, k: int) -> bool {
    &&& 0 <= k <= a.len()
    &&& k < b.len()
    &&& a.take(k) == b.take(k)
    &&& k == a.len() || a[k] < b[k]
}

/// Whether two paths are the same up to position `k`, where `a` ends or has the component that comes
/// first.
pub open spec fn paths_differ_first_at(a: Seq<Seq<char>>, b: Seq<Seq<char>>, k: int) -> bool {
    &&& 0 <= k <= a.len()
    &&& k < b.len()
    &&& a.take(k) == b.take(k)
    &&& k == a.len() || part_before(a[k], b[k])
}

spec fn differ_first_at<A>(
    a: Seq<A>,
    b: Seq<A>,
    before: spec_fn(A, A) -> bool,
    k: int,
) -> bool {
    &&& 0 <= k <= a.len()
    &&& k < b.len()
    &&& a.take(k) == b.take(k)
    &&& k == a.len() || before(a[k], b[k])
}

proof fn lemma_first_difference<A>(a: Seq<A>, b: Seq<A>, before: spec_fn(A, A) -> bool)
    ensures
        lexicographic(a, b, before) <==> exists|k: int| differ_first_at(a, b, before, k),
    decreases a.len(),
{
    if lexicographic(a, b, before) {
        if a.len() == 0 || before(a[0], b[0]) {
            assert(a.take(0) == b.take(0));
            assert(differ_first_at(a, b, before, 0));
        } else {
            lemma_first_difference(a.skip(1), b.skip(1), before);
            let k = choose|k: int| differ_first_at(a.skip(1), b.skip(1), before, k);
            assert(a.take(k + 1) == seq![a[0]] + a.skip(1).take(k));
            assert(b.take(k + 1) == seq![b[0]] + b.skip(1).take(k));
            assert(differ_first_at(a, b, before, k + 1));
        }
    }
    if exists|k: int| differ_first_at(a, b, before, k) {
        let k = choose|k: int| differ_first_at(a, b, before, k);
        if k > 0 {
            lemma_first_difference(a.skip(1), b.skip(1), before);
            assert(a.take(k)[0] == b.take(k)[0]);
            assert(a.skip(1).take(k - 1) == a.take(k).skip(1));
            assert(b.skip(1).take(k - 1) == b.take(k).skip(1));
            assert(differ_first_at(a.skip(1), b.skip(1), before, k - 1));
        }
    }
}

/// The first component in which two paths differ decides which of them comes first; a path comes
/// before those that it begins. Of two components, `/` comes first, then `.`, then `..`, then the
/// names, which the first differing character puts in order.
pub proof fn first_difference_decides(a: Seq<Seq<char>>, b: Seq<Seq<char>>, x: Seq<char>, y: Seq<char>)
    ensures
        path_before(a, b) <==> exists|k: int| paths_differ_first_at(a, b, k),
        x != "/"@ && x != "."@ && x != ".."@ && y != "/"@ && y != "."@ && y != ".."@ ==> (
        part_before(x, y) <==> exists|k: int| texts_differ_first_at(x, y, k)),
        x != "/"@ ==> part_before("/"@, x) && !part_before(x, "/"@),
        x != "/"@ && x != "."@ ==> part_before("."@, x) && !part_before(x, "."@),
        x != "/"@ && x != "."@ && x != ".."@ ==> part_before(".."@, x) && !part_before(x, ".."@),
{
    reveal_strlit("/");
    reveal_strlit(".");
    reveal_strlit("..");
    assert("/"@[0] == '/' && "."@[0] == '.');
    assert("."@.len() == 1 && ".."@.len() == 2 && "/"@.len() == 1);
    let parts = |x: Seq<char>, y: Seq<char>| part_before(x, y);
    let chars = |c: char, d: char| c < d;
    lemma_first_difference(a, b, parts);
    lemma_first_difference(x, y, chars);
    assert forall|k: int| differ_first_at(a, b, parts, k) == #[trigger] paths_differ_first_at(
        a,
        b,
        k,
    ) by {}
    assert forall|k: int| differ_first_at(x, y, chars, k) == #[trigger] texts_differ_first_at(
        x,
        y,
        k,
    ) by {}
    if path_before(a, b) {
        let k = choose|k: int| differ_first_at(a, b, parts, k);
        assert(paths_differ_first_at(a, b, k));
    }
    if exists|k: int| paths_differ_first_at(a, b, k) {
        let k = choose|k: int| paths_differ_first_at(a, b, k);
        assert(differ_first_at(a, b, parts, k));
    }
    if text_before(x, y) {
        let k = choose|k: int| differ_first_at(x, y, chars, k);
        assert(texts_differ_first_at(x, y, k));
    }
    if exists|k: int| texts_differ_first_at(x, y, k) {
        let k = choose|k: int| texts_differ_first_at(x, y, k);
        assert(differ_first_at(x, y, chars, k));
    }
}

/// The last component says whether a path has a parent, whether it has a name, and whether it is the
/// page that describes a section.
pub proof fn last_component_decides(path: Seq<Seq<char>>, part: Seq<char>)
    ensures
        has_parent(path.push(part)) <==> part != "/"@,
        has_name(path.push(part)) <==> part != "/"@ && part != "."@ && part != ".."@,
        is_index(path.push(part)) <==> part == "_index.md"@,
        !has_parent(Seq::empty()) && !has_name(Seq::empty()) && !is_index(Seq::empty()),
{
}

/// Whether a text is one component of a path, and no other than itself.
pub open spec fn is_plain(name: Seq<char>) -> bool {
    name.len() > 0 && !name.contains('/') && name != "."@
}

/// A name that is appended to a path becomes its last component; what is left without it is the
/// path.
pub proof fn appended_name_comes_last(path: Seq<Seq<char>>, name: Seq<char>)
    requires
        is_plain(name),
    ensures
        joined(path, name) == path.push(name),
        joined(path, name).last() == name,
        joined(path, name).drop_last() == path,
{
    split_without_separator(name, '/');
    let pieces = split(name, '/');
    assert(name[0] != '/') by {
        assert(name.contains(name[0]));
    }
    reveal_strlit("");
    assert(pieces.drop_last() == Seq::<Seq<char>>::empty());
    assert(extended(path, pieces.drop_last()) == path);
    assert(joined(path, name) == path.push(name));
    assert(path.push(name).drop_last() == path);
}

/// Appending nothing leaves a path as it is.
pub proof fn appending_nothing_changes_nothing(path: Seq<Seq<char>>)
    ensures
        joined(path, Seq::empty()) == path,
{
    let nothing = Seq::<char>::empty();
    reveal_strlit("");
    assert(""@ == nothing);
    let pieces = split(nothing, '/');
    assert(pieces.drop_last() == Seq::<Seq<char>>::empty());
    assert(extended(path, pieces.drop_last()) == path);
}

/// Appending what does not start with a slash keeps the components that are there.
pub proof fn appending_keeps_what_is_there(path: Seq<Seq<char>>, addition: Seq<char>)
    requires
        addition.len() > 0 ==> addition[0] != '/',
    ensures
        path.is_prefix_of(joined(path, addition)),
{
    lemma_extended_prefix(path, split(addition, '/'));
}

proof fn lemma_extended_prefix(base: Seq<Seq<char>>, pieces: Seq<Seq<char>>)
    ensures
        base.is_prefix_of(extended(base, pieces)),
    decreases pieces.len(),
{
    if pieces.len() > 0 {
        lemma_extended_prefix(base, pieces.drop_last());
        let before = extended(base, pieces.drop_last());
        assert(base == before.take(base.len() as int));
        assert(before.push(pieces.last()).take(base.len() as int) == base);
    } else {
        assert(base.take(base.len() as int) == base);
    }
}

/// Whether one text comes before another.
fn text_is_before(a: &str, b: &str) -> (before: bool)
    ensures
        before == text_before(a@, b@),
{
    let x = chars_of(a);
    let y = chars_of(b);
    let ghost less = |x: char, y: char| x < y;
    let mut i: usize = 0;
    assert(a@.skip(0) == a@ && b@.skip(0) == b@);
    while i < x.len() && i < y.len()
        invariant
            x@ == a@,
            y@ == b@,
            i <= x.len(),
            i <= y.len(),
            less == (|x: char, y: char| x < y),
            lexicographic(a@, b@, less) == lexicographic(
                a@.skip(i as int),
                b@.skip(i as int),
                less,
            ),
        decreases x.len() - i,
    {
        assert(a@.skip(i as int).skip(1) == a@.skip(i + 1));
        assert(b@.skip(i as int).skip(1) == b@.skip(i + 1));
        if x[i] != y[i] {
            return x[i] < y[i];
        }
        i = i + 1;
    }
    i < y.len()
}

/// Adds a component, as it is, at the end.
fn add_part(parts: &mut Vec<String>, part: String)
    ensures
        texts(final(parts)@) == texts(old(parts)@).push(part@),
{
    let ghost before = parts@;
    parts.push(part);
    assert(parts@ == before.push(part));
    assert(texts(parts@) == texts(before).push(part@));
}

fn kind_of(part: &str) -> (kind: u8)
    ensures
        kind == part_kind(part@),
{
    if same_text(part, "/") {
        0
    } else if same_text(part, ".") {
        1
    } else if same_text(part, "..") {
        2
    } else {
        3
    }
}

fn part_is_before(a: &str, b: &str) -> (before: bool)
    ensures
        before == part_before(a@, b@),
{
    let x: u8 = kind_of(a);
    let y: u8 = kind_of(b);
    x < y || x == y && text_is_before(a, b)
}

/// What pieces without slashes add to a path keeps it valid.
proof fn lemma_extended_valid(base: Seq<Seq<char>>, pieces: Seq<Seq<char>>)
    requires
        valid_path(base),
        forall|i: int| 0 <= i < pieces.len() ==> !(#[trigger] pieces[i]).contains('/'),
    ensures
        valid_path(extended(base, pieces)),
    decreases pieces.len(),
{
    if pieces.len() > 0 {
        let front = pieces.drop_last();
        let last = pieces[pieces.len() - 1];
        assert forall|i: int| 0 <= i < front.len() implies !(#[trigger] front[i]).contains('/') by {
            assert(front[i] == pieces[i]);
        }
        lemma_extended_valid(base, front);
        reveal_strlit("");
        reveal_strlit("/");
        if last.len() == 0 {
            assert(last == ""@);
        }
        assert("/"@[0] == '/');
        assert("/"@.contains('/'));
    }
}

/// Appending to a path keeps it valid.
pub proof fn joined_paths_are_valid(base: Seq<Seq<char>>, addition: Seq<char>)
    requires
        valid_path(base),
    ensures
        valid_path(joined(base, addition)),
{
    split_pieces_join(addition, '/');
    reveal_strlit("/");
    let root = seq!["/"@];
    assert(valid_path(root));
    if addition.len() > 0 && addition[0] == '/' {
        lemma_extended_valid(root, split(addition, '/'));
    } else {
        lemma_extended_valid(base, split(addition, '/'));
    }
}

impl FilePath {
    #[verifier::type_invariant]
    spec fn is_valid(self) -> bool {
        valid_path(self@)
    }

    /// The path without components.
    pub fn new() -> (path: FilePath)
        ensures
            path@ == Seq::<Seq<char>>::empty(),
    {
        let parts: Vec<String> = Vec::new();
        assert(texts(parts@) == Seq::<Seq<char>>::empty());
        FilePath { parts }
    }

    /// The path that a text writes out.
    pub fn parse(text: &str) -> (path: FilePath)
        ensures
            path@ == parsed(text@),
            valid_path(path@),
    {
        FilePath::new().join(text)
    }

    /// The components.
    pub fn parts(&self) -> (parts: &Vec<String>)
        ensures
            texts(parts@) == self@,
            valid_path(self@),
    {
        proof {
            use_type_invariant(self);
        }
        &self.parts
    }

    /// Appends a written out path. An absolute one takes the place of the whole path.
    pub fn push(&mut self, addition: &str)
        ensures
            final(self)@ == joined(old(self)@, addition@),
            valid_path(final(self)@),
    {
        let path = self.join(addition);
        *self = path;
    }

    /// The path with a written out path appended. An absolute one takes the place of the whole path.
    pub fn join(&self, addition: &str) -> (path: FilePath)
        ensures
            path@ == joined(self@, addition@),
            valid_path(path@),
    {
        let pieces = split_text(addition, '/');
        let ghost pieces_text = split(addition@, '/');
        let mut parts: Vec<String> = Vec::new();
        assert(texts(parts@) == Seq::<Seq<char>>::empty());
        if !addition.is_empty() && chars_of(addition)[0] == '/' {
            add_part(&mut parts, "/".to_owned());
            assert(texts(parts@) == seq!["/"@]);
        } else {
            parts = self.parts.clone();
            assert(texts(parts@) == texts(self.parts@));
        }
        let ghost base = texts(parts@);
        assert(pieces_text.take(0) == Seq::<Seq<char>>::empty());
        for i in 0..pieces.len()
            invariant
                texts(pieces@) == pieces_text,
                texts(parts@) == extended(base, pieces_text.take(i as int)),
        {
            proof {
                let upto = pieces_text.take(i + 1);
                assert(upto.drop_last() == pieces_text.take(i as int));
                assert(upto.last() == pieces@[i as int]@);
            }
            let piece = &pieces[i];
            let skip = same_text(piece, "") || (same_text(piece, ".") && parts.len() > 0);
            if !skip {
                add_part(&mut parts, piece.clone());
            }
        }
        assert(pieces_text.take(pieces.len() as int) == pieces_text);
        proof {
            use_type_invariant(self);
            joined_paths_are_valid(self@, addition@);
        }
        FilePath { parts }
    }

    /// The path with another one in place of its first component.
    pub fn rebased(&self, onto: &FilePath) -> (path: FilePath)
        requires
            self@.len() > 0,
        ensures
            path@ == onto@ + self@.skip(1),
            valid_path(path@),
    {
        let mut parts = onto.parts.clone();
        assert(texts(parts@) == onto@);
        let ghost rest = self@.skip(1);
        assert(onto@ + rest.take(0) == onto@);
        for i in 1..self.parts.len()
            invariant
                rest == self@.skip(1),
                texts(parts@) == onto@ + rest.take(i - 1),
        {
            add_part(&mut parts, self.parts[i].clone());
            assert(rest.take(i as int) == rest.take(i - 1).push(rest[i - 1]));
            assert(onto@ + rest.take(i as int) == (onto@ + rest.take(i - 1)).push(rest[i - 1]));
        }
        assert(rest.take(rest.len() as int) == rest);
        proof {
            use_type_invariant(self);
            use_type_invariant(onto);
            let whole = onto@ + rest;
            assert forall|i: int| 0 <= i < whole.len() implies ({
                let part = #[trigger] whole[i];
                &&& part.len() > 0
                &&& part == "/"@ || part == "."@ ==> i == 0
                &&& part != "/"@ ==> !part.contains('/')
            }) by {
                if i < onto@.len() {
                    assert(whole[i] == onto@[i]);
                } else {
                    assert(whole[i] == self@[i - onto@.len() + 1]);
                }
            }
        }
        FilePath { parts }
    }

    /// The path without its last component, if it has a parent.
    pub fn parent(&self) -> (parent: Option<FilePath>)
        ensures
            parent is Some <==> has_parent(self@),
            parent is Some ==> parent->0@ == self@.drop_last(),
    {
        let n = self.parts.len();
        if n == 0 || same_text(&self.parts[n - 1], "/") {
            return None;
        }
        let mut parts = self.parts.clone();
        assert(texts(parts@) == self@);
        let ghost before = texts(parts@);
        parts.pop();
        assert(texts(parts@) == before.drop_last());
        proof {
            use_type_invariant(self);
            assert forall|i: int| 0 <= i < before.drop_last().len() implies before.drop_last()[i]
                == before[i] by {}
        }
        Some(FilePath { parts })
    }

    /// The last component, if it is the name of a file or of a directory.
    pub fn file_name(&self) -> (name: Option<String>)
        ensures
            name is Some <==> has_name(self@),
            name is Some ==> name->0@ == self@.last() && is_plain(name->0@),
    {
        let n = self.parts.len();
        if n == 0 {
            return None;
        }
        let last = &self.parts[n - 1];
        assert(self@.last() == last@);
        proof {
            use_type_invariant(self);
            assert(self@[n - 1] == last@);
        }
        if same_text(last, "/") || same_text(last, ".") || same_text(last, "..") {
            None
        } else {
            Some(last.clone())
        }
    }

    /// Whether this is the path of the page which describes a section.
    pub fn is_index(&self) -> (index: bool)
        ensures
            index == is_index(self@),
    {
        let n = self.parts.len();
        n > 0 && same_text(&self.parts[n - 1], "_index.md")
    }

    /// Whether two paths are the same.
    pub fn same(&self, other: &FilePath) -> (same: bool)
        ensures
            same == (self@ == other@),
    {
        if self.parts.len() != other.parts.len() {
            assert(self@.len() != other@.len());
            return false;
        }
        for i in 0..self.parts.len()
            invariant
                self.parts.len() == other.parts.len(),
                forall|j: int| 0 <= j < i ==> self@[j] == other@[j],
        {
            if !same_text(&self.parts[i], &other.parts[i]) {
                assert(self@[i as int] != other@[i as int]);
                return false;
            }
        }
        assert(self@ == other@);
        true
    }

    /// Whether this path comes before another.
    pub fn is_before(&self, other: &FilePath) -> (before: bool)
        ensures
            before == path_before(self@, other@),
    {
        let ghost less = |x: Seq<char>, y: Seq<char>| part_before(x, y);
        let mut i: usize = 0;
        assert(self@.skip(0) == self@ && other@.skip(0) == other@);
        while i < self.parts.len() && i < other.parts.len()
            invariant
                i <= self.parts.len(),
                i <= other.parts.len(),
                less == (|x: Seq<char>, y: Seq<char>| part_before(x, y)),
                lexicographic(self@, other@, less) == lexicographic(
                    self@.skip(i as int),
                    other@.skip(i as int),
                    less,
                ),
            decreases self.parts.len() - i,
        {
            let x = &self.parts[i];
            let y = &other.parts[i];
            assert(self@.skip(i as int)[0] == x@ && other@.skip(i as int)[0] == y@);
            assert(self@.skip(i as int).skip(1) == self@.skip(i + 1));
            assert(other@.skip(i as int).skip(1) == other@.skip(i + 1));
            proof {
                lemma_part_order(x@, y@, y@);
            }
            if !same_text(x, y) {
                return part_is_before(x, y);
            }
            i = i + 1;
        }
        i < other.parts.len()
    }
}

impl Clone for FilePath {
    fn clone(&self) -> (path: FilePath)
        ensures
            path@ == self@,
    {
        let parts = self.parts.clone();
        assert(texts(parts@) == texts(self.parts@));
        proof {
            use_type_invariant(self);
        }
        FilePath { parts }
    }
}

} // verus!
