use vstd::prelude::*;
use vstd::string::{StrSliceExecFns, StringExecFns};

verus! {

/// `needle` occurs in `hay` as a run of consecutive characters.
pub open spec fn has_substring(hay: Seq<char>, needle: Seq<char>) -> bool {
    exists|i: int| 0 <= i <= hay.len() - needle.len() && #[trigger] hay.subrange(i, i + needle.len()) == needle
}

/// Relies on `str::contains` with a `&str` pattern: true exactly when the
/// pattern matches a sub-slice of the string.
#[verifier::external_body]
pub(crate) fn str_contains(hay: &str, needle: &str) -> (r: bool)
    ensures
        r == has_substring(hay@, needle@),
{
    hay.contains(needle)
}

/// `n` spaces.
pub open spec fn spaces(n: nat) -> Seq<char> {
    Seq::new(n, |i: int| ' ')
}

/// `s`, followed by spaces up to `width` characters when it is shorter.
pub open spec fn padded(width: nat, s: Seq<char>) -> Seq<char> {
    if s.len() < width {
        s + spaces((width - s.len()) as nat)
    } else {
        s
    }
}

/// Pads `src` with trailing spaces to `width` characters; a longer `src` is
/// returned as it is.
pub fn pad_with_trailing_space(width: usize, src: &str) -> (r: String)
    ensures
        r@ == padded(width as nat, src@),
{
    let mut ret = String::from_str(src);
    let len = src.unicode_len();
    let mut i: usize = len;
    proof {
        reveal_strlit(" ");
    }
    while i < width
        invariant
            len == src@.len(),
            len <= i,
            i <= width || i == len,
            ret@ == src@ + spaces((i - len) as nat),
        decreases width - i,
    {
        ret.append(" ");
        proof {
            reveal_strlit(" ");
            assert(" "@ =~= seq![' ']);
            assert(ret@ =~= src@ + spaces((i + 1 - len) as nat));
        }
        i = i + 1;
    }
    proof {
        if src@.len() >= width {
            assert(ret@ =~= src@);
        }
    }
    ret
}

/// The words of `t` separated by single spaces.
pub open spec fn joined(t: Seq<Seq<char>>) -> Seq<char>
    decreases t.len(),
{
    if t.len() == 0 {
        Seq::empty()
    } else if t.len() == 1 {
        t[0]
    } else {
        joined(t.drop_last()) + seq![' '] + t.last()
    }
}

/// The text of each string.
pub open spec fn texts(v: Seq<String>) -> Seq<Seq<char>> {
    v.map_values(|x: String| x@)
}

/// Joins the words with single spaces, as a shell reads a command line.
pub fn join_words(words: &Vec<String>) -> (r: String)
    ensures
        r@ == joined(texts(words@)),
{
    let mut ret = String::new();
    if words.len() == 0 {
        return ret;
    }
    ret.append(words[0].as_str());
    proof {
        reveal_strlit(" ");
        assert(texts(words@).subrange(0, 1) =~= seq![words@[0]@]);
    }
    let mut i: usize = 1;
    while i < words.len()
        invariant
            1 <= i <= words@.len(),
            ret@ == joined(texts(words@).subrange(0, i as int)),
        decreases words@.len() - i,
    {
        let ghost r0 = ret@;
        ret.append(" ");
        ret.append(words[i].as_str());
        proof {
            reveal_strlit(" ");
            assert(" "@ =~= seq![' ']);
            let t = texts(words@).subrange(0, i + 1);
            assert(t.last() == words@[i as int]@);
            assert(t.drop_last() =~= texts(words@).subrange(0, i as int));
            assert(r0 == joined(t.drop_last()));
            assert(ret@ =~= r0 + seq![' '] + t.last());
        }
        i = i + 1;
    }
    proof {
        assert(texts(words@).subrange(0, words@.len() as int) =~= texts(words@));
    }
    ret
}

/// The marker put before each line a service writes to its error stream.
pub open spec fn stderr_marker() -> Seq<char> {
    seq!['[', 's', 't', 'd', 'e', 'r', 'r', ']', ' ']
}

/// Tags a line read from a child's error stream.
pub fn tag_stderr_line(line: &str) -> (r: String)
    ensures
        r@ == stderr_marker() + line@,
{
    let mut ret = String::from_str("[stderr] ");
    proof {
        reveal_strlit("[stderr] ");
        assert("[stderr] "@ =~= stderr_marker());
    }
    ret.append(line);
    ret
}

} // verus!
