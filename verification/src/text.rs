use vstd::prelude::*;

verus! {

/// The delimiter classes that the wire grammar and the auth header use.
/// `Marker` introduces a cell edit, `Blank` separates the two tokens of a
/// fragment, `Single` and `Pair` are the exact characters that the basic-auth
/// header is cut on.
#[derive(Clone, Copy, PartialEq, Eq, Structural)]
pub enum Sep {
    /// The `$` marker between cell edits.
    Marker,
    /// Any of the four ASCII whitespace characters.
    Blank,
    /// Exactly one space character.
    Single,
    /// The `:` between username and secret.
    Pair,
}

pub open spec fn sep_matches(sep: Sep, c: char) -> bool {
    match sep {
        Sep::Marker => c == '$',
        Sep::Blank => c == ' ' || c == '\n' || c == '\t' || c == '\r',
        Sep::Single => c == ' ',
        Sep::Pair => c == ':',
    }
}

/// One step of a left-to-right split: a delimiter opens a new segment, any
/// other character extends the segment currently being built.
pub open spec fn split_step(acc: Seq<Seq<char>>, sep: Sep, c: char) -> Seq<Seq<char>>
    recommends
        acc.len() > 0,
{
    if sep_matches(sep, c) {
        acc.push(Seq::empty())
    } else {
        acc.update(acc.len() - 1, acc.last().push(c))
    }
}

/// The segments of `s` between delimiters of class `sep`, empties included:
/// a string with `n` delimiters has exactly `n + 1` segments.
pub open spec fn segments(s: Seq<char>, sep: Sep) -> Seq<Seq<char>>
    decreases s.len(),
{
    if s.len() == 0 {
        seq![Seq::<char>::empty()]
    } else {
        split_step(segments(s.drop_last(), sep), sep, s.last())
    }
}

/// The segments of `s`, with the empty ones discarded.
pub open spec fn nonempty_segments(s: Seq<char>, sep: Sep) -> Seq<Seq<char>> {
    segments(s, sep).filter(|f: Seq<char>| f.len() > 0)
}

pub proof fn lemma_segments_nonempty(s: Seq<char>, sep: Sep)
    ensures
        segments(s, sep).len() > 0,
    decreases s.len(),
{
    if s.len() > 0 {
        lemma_segments_nonempty(s.drop_last(), sep);
    }
}

/// Pushing onto a vector of vectors pushes the view onto the deep view.
proof fn lemma_deep_view_push(v: Vec<Vec<char>>, x: Vec<char>, w: Vec<Vec<char>>)
    requires
        w@ == v@.push(x),
    ensures
        w.deep_view() == v.deep_view().push(x@),
{
    assert(w.deep_view() =~~= v.deep_view().push(x@));
}

fn sep_check(sep: Sep, c: char) -> (r: bool)
    ensures
        r == sep_matches(sep, c),
{
    match sep {
        Sep::Marker => c == '$',
        Sep::Blank => c == ' ' || c == '\n' || c == '\t' || c == '\r',
        Sep::Single => c == ' ',
        Sep::Pair => c == ':',
    }
}

/// Splits `s` on the delimiter class `sep`, keeping empty segments.
pub fn split_chars(s: &Vec<char>, sep: Sep) -> (r: Vec<Vec<char>>)
    ensures
        r.deep_view() == segments(s@, sep),
{
    let mut done: Vec<Vec<char>> = Vec::new();
    let mut cur: Vec<char> = Vec::new();
    for i in 0..s.len()
        invariant
            segments(s@.take(i as int), sep) == done.deep_view().push(cur@),
    {
        proof {
            lemma_segments_nonempty(s@.take(i as int), sep);
            assert(s@.take(i + 1).drop_last() == s@.take(i as int));
            assert(s@.take(i + 1).last() == s@[i as int]);
        }
        let ghost prev_done = done;
        let ghost prev = done.deep_view().push(cur@);
        if sep_check(sep, s[i]) {
            let ghost prev_cur = cur;
            done.push(cur);
            cur = Vec::new();
            proof {
                lemma_deep_view_push(prev_done, prev_cur, done);
                assert(segments(s@.take(i + 1), sep) =~~= done.deep_view().push(cur@));
            }
        } else {
            cur.push(s[i]);
            proof {
                assert(prev.update(prev.len() - 1, prev.last().push(s@[i as int]))
                    =~~= done.deep_view().push(cur@));
            }
        }
    }
    proof {
        assert(s@.take(s@.len() as int) == s@);
    }
    let ghost fin_done = done;
    let ghost fin_cur = cur;
    done.push(cur);
    proof {
        lemma_deep_view_push(fin_done, fin_cur, done);
    }
    done
}

/// Keeps only the non-empty fragments, in order.
pub fn drop_empty(frags: Vec<Vec<char>>) -> (r: Vec<Vec<char>>)
    ensures
        r.deep_view() == frags.deep_view().filter(|f: Seq<char>| f.len() > 0),
{
    let mut r: Vec<Vec<char>> = Vec::new();
    proof {
        reveal(Seq::filter);
    }
    for i in 0..frags.len()
        invariant
            r.deep_view() == frags.deep_view().take(i as int).filter(
                (|f: Seq<char>| f.len() > 0),
            ),
    {
        proof {
            reveal(Seq::filter);
            let pre = frags.deep_view().take(i + 1);
            assert(pre.drop_last() == frags.deep_view().take(i as int));
            assert(pre.last() == frags.deep_view()[i as int]);
        }
        if frags[i].len() > 0 {
            let frag = frags[i].clone();
            assert(frag@ == frags.deep_view()[i as int]);
            let ghost prev = r;
            r.push(frag);
            proof {
                lemma_deep_view_push(prev, frag, r);
            }
        }
    }
    proof {
        assert(frags.deep_view().take(frags@.len() as int) == frags.deep_view());
    }
    r
}

/// Whether `c` occurs in `s`.
pub fn contains_char(s: &Vec<char>, c: char) -> (r: bool)
    ensures
        r == s@.contains(c),
{
    for i in 0..s.len()
        invariant
            forall|j: int| 0 <= j < i ==> s@[j] != c,
    {
        if s[i] == c {
            return true;
        }
    }
    false
}

/// The characters of `s`, in order.
pub fn chars_of(s: &str) -> (r: Vec<char>)
    ensures
        r@ == s@,
{
    let mut r: Vec<char> = Vec::new();
    for c in it: s.chars()
        invariant
            it.seq() == s@,
            r@ == it.seq().take(it.index() as int),
    {
        r.push(c);
    }
    proof {
        assert(s@.take(s@.len() as int) == s@);
    }
    r
}

/// Relies on std's equality for string slices: two slices are equal exactly
/// when their character sequences are.
#[verifier::external_body]
pub(crate) fn str_eq(a: &str, b: &str) -> (r: bool)
    ensures
        r == (a@ == b@),
{
    a == b
}

/// Relies on std's `FromIterator` impl for `String`: collecting the
/// characters of a vector yields the string with exactly that character
/// sequence.
#[verifier::external_body]
pub(crate) fn string_from_chars(v: &Vec<char>) -> (r: String)
    ensures
        r@ == v@,
{
    v.iter().collect()
}

} // verus!
