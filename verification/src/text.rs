//! Text as sequences of characters: cutting it up, substituting in it, joining it.

use vstd::prelude::*;

verus! {

/// The pieces of `s` between the separators `sep`: one more piece than there are separators.
pub open spec fn split(s: Seq<char>, sep: char) -> Seq<Seq<char>>
    decreases s.len(),
{
    if s.len() == 0 {
        seq![Seq::<char>::empty()]
    } else {
        let before = split(s.drop_last(), sep);
        if s.last() == sep {
            before.push(Seq::<char>::empty())
        } else {
            before.drop_last().push(before.last().push(s.last()))
        }
    }
}

/// `s` with every occurrence of `from`, found from left to right, replaced by `to`.
pub open spec fn replace_all(s: Seq<char>, from: Seq<char>, to: Seq<char>) -> Seq<char>
    decreases s.len(),
{
    if from.len() == 0 || s.len() < from.len() {
        s
    } else if s.take(from.len() as int) == from {
        to + replace_all(s.skip(from.len() as int), from, to)
    } else {
        seq![s[0]] + replace_all(s.skip(1), from, to)
    }
}

/// Whether `part` occurs in `s` at position `at`.
pub open spec fn occurs_at(s: Seq<char>, part: Seq<char>, at: int) -> bool {
    &&& 0 <= at <= s.len() - part.len()
    &&& s.subrange(at, at + part.len()) == part
}

/// The texts of a sequence of strings.
pub open spec fn texts(strings: Seq<String>) -> Seq<Seq<char>> {
    strings.map_values(|s: String| s@)
}

/// The pieces with a separator between each two.
pub open spec fn joined_by(pieces: Seq<Seq<char>>, sep: char) -> Seq<char>
    decreases pieces.len(),
{
    if pieces.len() == 0 {
        Seq::empty()
    } else if pieces.len() == 1 {
        pieces[0]
    } else {
        joined_by(pieces.drop_last(), sep).push(sep) + pieces.last()
    }
}

/// `String::push`: one character is added at the end.
pub assume_specification[ String::push ](s: &mut String, c: char)
    ensures
        final(s)@ == old(s)@.push(c),
;

/// The pieces of a text hold no separator, and joined again they give the text.
pub proof fn split_pieces_join(s: Seq<char>, sep: char)
    ensures
        split(s, sep).len() > 0,
        joined_by(split(s, sep), sep) == s,
        forall|i: int| 0 <= i < split(s, sep).len() ==> !(#[trigger] split(s, sep)[i]).contains(sep),
    decreases s.len(),
{
    if s.len() > 0 {
        let front = s.drop_last();
        let before = split(front, sep);
        let now = split(s, sep);
        split_pieces_join(front, sep);
        let last = before.last();
        assert(before[before.len() - 1] == last);
        if s.last() == sep {
            assert(now.drop_last() == before);
            assert(joined_by(now, sep) == front.push(sep) + Seq::<char>::empty());
            assert(joined_by(now, sep) == s);
            assert forall|i: int| 0 <= i < now.len() implies !(#[trigger] now[i]).contains(sep) by {
                if i < before.len() {
                    assert(now[i] == before[i]);
                }
            }
        } else {
            let grown = last.push(s.last());
            assert(now.drop_last() == before.drop_last());
            if before.len() == 1 {
                assert(joined_by(now, sep) == s);
            } else {
                let head = joined_by(before.drop_last(), sep).push(sep);
                assert(head + grown == (head + last).push(s.last()));
                assert(joined_by(now, sep) == s);
            }
            assert forall|i: int| 0 <= i < now.len() implies !(#[trigger] now[i]).contains(sep) by {
                if i < before.len() - 1 {
                    assert(now[i] == before[i]);
                } else {
                    assert(now[i] == grown);
                    if grown.contains(sep) {
                        let k = choose|k: int| 0 <= k < grown.len() && grown[k] == sep;
                        assert(last[k] == sep);
                    }
                }
            }
        }
    }
}

/// A text without separators is one piece.
pub proof fn split_without_separator(s: Seq<char>, sep: char)
    requires
        !s.contains(sep),
    ensures
        split(s, sep) == seq![s],
    decreases s.len(),
{
    if s.len() > 0 {
        let front = s.drop_last();
        if front.contains(sep) {
            let k = choose|k: int| 0 <= k < front.len() && front[k] == sep;
            assert(s[k] == sep);
        }
        split_without_separator(front, sep);
        assert(s[s.len() - 1] == s.last());
        assert(front.push(s.last()) == s);
        assert(split(s, sep) == seq![s]);
    } else {
        assert(s == Seq::<char>::empty());
    }
}

/// Replacing one character by another leaves none of the first.
pub proof fn replaced_char_is_gone(s: Seq<char>, from: char, to: char)
    requires
        from != to,
    ensures
        !replace_all(s, seq![from], seq![to]).contains(from),
        replace_all(s, seq![from], seq![to]).len() == s.len(),
    decreases s.len(),
{
    let out = replace_all(s, seq![from], seq![to]);
    if s.len() > 0 {
        let rest = replace_all(s.skip(1), seq![from], seq![to]);
        replaced_char_is_gone(s.skip(1), from, to);
        if s.take(1) == seq![from] {
            assert(out == seq![to] + rest);
        } else {
            assert(out == seq![s[0]] + rest);
            if s[0] == from {
                assert(s.take(1) == seq![from]);
            }
        }
        if out.contains(from) {
            let k = choose|k: int| 0 <= k < out.len() && out[k] == from;
            assert(rest[k - 1] == from);
        }
    }
}

/// Where what is to be replaced occurs first, the replacement stands, after what comes before and
/// before what the rest becomes.
pub proof fn first_occurrence_is_replaced(s: Seq<char>, from: Seq<char>, to: Seq<char>, at: int)
    requires
        from.len() > 0,
        occurs_at(s, from, at),
        forall|i: int| 0 <= i < at ==> !occurs_at(s, from, i),
    ensures
        replace_all(s, from, to) == s.take(at) + to + replace_all(
            s.skip(at + from.len()),
            from,
            to,
        ),
    decreases s.len(),
{
    let n = from.len() as int;
    assert(s.subrange(0, n) == s.take(n));
    if at == 0 {
        assert(s.take(0) + to == to);
    } else {
        assert(!occurs_at(s, from, 0));
        let rest = s.skip(1);
        assert(rest.subrange(at - 1, at - 1 + n) == s.subrange(at, at + n));
        assert forall|i: int| 0 <= i < at - 1 implies !occurs_at(rest, from, i) by {
            assert(!occurs_at(s, from, i + 1));
            assert(rest.subrange(i, i + n) == s.subrange(i + 1, i + 1 + n));
        }
        first_occurrence_is_replaced(rest, from, to, at - 1);
        assert(rest.skip(at - 1 + n) == s.skip(at + n));
        let tail = replace_all(s.skip(at + n), from, to);
        assert(seq![s[0]] + (rest.take(at - 1) + to + tail) == s.take(at) + to + tail);
    }
}

/// Replacing one character by another changes it everywhere, and nothing else.
pub proof fn replaced_char_changes_everywhere(s: Seq<char>, from: char, to: char)
    ensures
        replace_all(s, seq![from], seq![to]).len() == s.len(),
        forall|i: int|
            0 <= i < s.len() ==> #[trigger] replace_all(s, seq![from], seq![to])[i] == if s[i]
                == from {
                to
            } else {
                s[i]
            },
    decreases s.len(),
{
    let out = replace_all(s, seq![from], seq![to]);
    if s.len() > 0 {
        let rest = replace_all(s.skip(1), seq![from], seq![to]);
        replaced_char_changes_everywhere(s.skip(1), from, to);
        assert(s.take(1)[0] == s[0]);
        if s[0] == from {
            assert(s.take(1) == seq![from]);
        } else {
            assert(seq![from][0] == from);
        }
        assert forall|i: int| 0 <= i < s.len() implies #[trigger] out[i] == if s[i] == from {
            to
        } else {
            s[i]
        } by {
            if i > 0 {
                assert(out[i] == rest[i - 1]);
            }
        }
    }
}

/// A text in which `from` does not occur stays as it is.
pub proof fn nothing_to_replace(s: Seq<char>, from: Seq<char>, to: Seq<char>)
    requires
        from.len() > 0,
        forall|i: int| !occurs_at(s, from, i),
    ensures
        replace_all(s, from, to) == s,
    decreases s.len(),
{
    if s.len() >= from.len() {
        let rest = s.skip(1);
        if s.take(from.len() as int) == from {
            assert(s.subrange(0, from.len() as int) == s.take(from.len() as int));
            assert(occurs_at(s, from, 0));
        }
        assert forall|i: int| !occurs_at(rest, from, i) by {
            if occurs_at(rest, from, i) {
                assert(rest.subrange(i, i + from.len()) == s.subrange(i + 1, i + 1 + from.len()));
                assert(occurs_at(s, from, i + 1));
            }
        }
        nothing_to_replace(rest, from, to);
        assert(seq![s[0]] + rest == s);
    }
}

/// The characters of a string.
pub fn chars_of(s: &str) -> (chars: Vec<char>)
    ensures
        chars@ == s@,
{
    let mut chars: Vec<char> = Vec::new();
    for c in it: s.chars()
        invariant
            chars@ == it.seq().take(it.index() as int),
    {
        chars.push(c);
    }
    chars
}

/// Whether two strings hold the same text.
pub fn same_text(a: &str, b: &str) -> (same: bool)
    ensures
        same == (a@ == b@),
{
    a.to_owned() == b.to_owned()
}

/// Two texts, one after the other.
pub fn concat(a: &str, b: &str) -> (joined: String)
    ensures
        joined@ == a@ + b@,
{
    let mut joined: String = a.to_owned();
    joined.append(b);
    joined
}

/// The pieces of a text between the separators.
pub fn split_text(s: &str, sep: char) -> (pieces: Vec<String>)
    ensures
        texts(pieces@) == split(s@, sep),
{
    let chars = chars_of(s);
    let mut done: Vec<String> = Vec::new();
    let mut piece: String = String::new();
    proof {
        assert(s@.take(0) == Seq::<char>::empty());
    }
    assert(texts(done@).push(piece@) == split(s@.take(0), sep));
    for i in 0..chars.len()
        invariant
            chars@ == s@,
            texts(done@).push(piece@) == split(s@.take(i as int), sep),
    {
        proof {
            let next = s@.take(i + 1);
            assert(next.drop_last() == s@.take(i as int));
            assert(next.last() == s@[i as int]);
        }
        let ghost before = texts(done@).push(piece@);
        assert(before.drop_last() == texts(done@));
        if chars[i] == sep {
            let ghost prior = done@;
            let ghost last = piece;
            done.push(piece);
            assert(done@ == prior.push(last));
            assert(texts(done@) == texts(prior).push(last@));
            piece = String::new();
        } else {
            piece.push(chars[i]);
        }
    }
    assert(s@.take(chars.len() as int) == s@);
    let ghost prior = done@;
    let ghost last = piece;
    done.push(piece);
    assert(done@ == prior.push(last));
    assert(texts(done@) == texts(prior).push(last@));
    done
}

/// Whether `part` occurs in `chars` at position `at`.
fn occurs(chars: &Vec<char>, part: &Vec<char>, at: usize) -> (found: bool)
    requires
        at <= chars.len(),
    ensures
        found == occurs_at(chars@, part@, at as int),
{
    if chars.len() - at < part.len() {
        return false;
    }
    for i in 0..part.len()
        invariant
            at + part.len() <= chars.len(),
            chars@.subrange(at as int, at + i) == part@.take(i as int),
    {
        if chars[at + i] != part[i] {
            proof {
                if chars@.subrange(at as int, at + part.len()) == part@ {
                    assert(chars@.subrange(at as int, at + part.len())[i as int] == part@[i as int]);
                }
            }
            return false;
        }
        assert(chars@.subrange(at as int, at + i + 1) == chars@.subrange(at as int, at + i).push(
            chars@[at + i],
        ));
        assert(part@.take(i + 1) == part@.take(i as int).push(part@[i as int]));
    }
    assert(part@.take(part.len() as int) == part@);
    true
}

/// A text with every occurrence of `from` replaced by `to`.
pub fn replace_text(s: &str, from: &str, to: &str) -> (replaced: String)
    requires
        from@.len() > 0,
    ensures
        replaced@ == replace_all(s@, from@, to@),
{
    let chars = chars_of(s);
    let part = chars_of(from);
    let mut replaced: String = String::new();
    let mut at: usize = 0;
    assert(s@.skip(0) == s@);
    while at < chars.len()
        invariant
            chars@ == s@,
            part@ == from@,
            from@.len() > 0,
            at <= chars.len(),
            replaced@ + replace_all(s@.skip(at as int), from@, to@) == replace_all(s@, from@, to@),
        decreases chars.len() - at,
    {
        let ghost rest = s@.skip(at as int);
        if occurs(&chars, &part, at) {
            proof {
                assert(rest.take(from@.len() as int) == s@.subrange(at as int, at + from@.len()));
                assert(rest.skip(from@.len() as int) == s@.skip(at + from@.len()));
                assert(replaced@ + (to@ + replace_all(s@.skip(at + from@.len()), from@, to@)) == (
                replaced@ + to@) + replace_all(s@.skip(at + from@.len()), from@, to@));
            }
            replaced.append(to);
            at = at + part.len();
        } else {
            proof {
                assert(rest.skip(1) == s@.skip(at + 1));
                assert(rest[0] == s@[at as int]);
                if rest.len() >= from@.len() {
                    assert(rest.take(from@.len() as int) == s@.subrange(
                        at as int,
                        at + from@.len(),
                    ));
                } else {
                    assert(replace_all(rest.skip(1), from@, to@) == rest.skip(1));
                    assert(rest == seq![rest[0]] + rest.skip(1));
                }
                assert(replace_all(rest, from@, to@) == seq![rest[0]] + replace_all(
                    rest.skip(1),
                    from@,
                    to@,
                ));
                assert(replaced@ + (seq![rest[0]] + replace_all(rest.skip(1), from@, to@))
                    == replaced@.push(rest[0]) + replace_all(rest.skip(1), from@, to@));
            }
            replaced.push(chars[at]);
            at = at + 1;
        }
    }
    assert(s@.skip(at as int) == Seq::<char>::empty());
    assert(replaced@ + Seq::<char>::empty() == replaced@);
    replaced
}

} // verus!
