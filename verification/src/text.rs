//! Small pieces of text handling shared by the puzzles: characters of a line,
//! Unicode white space, trimming, splitting on white space or on a character.
use vstd::prelude::*;
use vstd::string::StrSliceExecFns;

verus! {

broadcast use vstd::string::group_string_axioms;

/// The characters of `s`, in order.
pub fn chars_of(s: &str) -> (r: Vec<char>)
    ensures
        r@ == s@,
{
    let mut v: Vec<char> = Vec::new();
    for c in it: s.chars()
        invariant
            it.seq() == s@,
            v@ == it.seq().take(it.index()),
    {
        v.push(c);
        proof {
            assert(it.seq().take(it.index() + 1) =~= it.seq().take(it.index()).push(c));
        }
    }
    assert(s@.take(s@.len() as int) =~= s@);
    v
}

/// `char::is_whitespace`: the characters with Unicode's White_Space property.
pub open spec fn is_space(c: char) -> bool {
    let u = c as u32;
    (0x09 <= u && u <= 0x0D) || u == 0x20 || u == 0x85 || u == 0xA0 || u == 0x1680 || (0x2000
        <= u && u <= 0x200A) || u == 0x2028 || u == 0x2029 || u == 0x202F || u == 0x205F || u
        == 0x3000
}

/// Whether `c` is white space (`char::is_whitespace`).
pub fn char_is_space(c: char) -> (r: bool)
    ensures
        r == is_space(c),
{
    let u = c as u32;
    (0x09 <= u && u <= 0x0D) || u == 0x20 || u == 0x85 || u == 0xA0 || u == 0x1680 || (0x2000
        <= u && u <= 0x200A) || u == 0x2028 || u == 0x2029 || u == 0x202F || u == 0x205F || u
        == 0x3000
}

/// Index of the first character of `s` at or after `from` that is not white space.
pub open spec fn first_non_space(s: Seq<char>, from: int) -> int
    decreases s.len() - from,
{
    if from >= s.len() {
        s.len() as int
    } else if is_space(s[from]) {
        first_non_space(s, from + 1)
    } else {
        from
    }
}

/// One past the last character of `s` before `to` that is not white space.
pub open spec fn last_non_space(s: Seq<char>, to: int) -> int
    decreases to,
{
    if to <= 0 {
        0
    } else if is_space(s[to - 1]) {
        last_non_space(s, to - 1)
    } else {
        to
    }
}

/// `str::trim`: `s` without leading and trailing white space.
pub open spec fn trim(s: Seq<char>) -> Seq<char> {
    let a = first_non_space(s, 0);
    if a >= s.len() {
        Seq::empty()
    } else {
        s.subrange(a, last_non_space(s, s.len() as int))
    }
}

proof fn lemma_first_non_space(s: Seq<char>, from: int)
    requires
        0 <= from <= s.len(),
    ensures
        from <= first_non_space(s, from) <= s.len(),
        forall|k: int| from <= k < first_non_space(s, from) ==> is_space(#[trigger] s[k]),
        first_non_space(s, from) < s.len() ==> !is_space(s[first_non_space(s, from)]),
    decreases s.len() - from,
{
    if from < s.len() && is_space(s[from]) {
        lemma_first_non_space(s, from + 1);
    }
}

proof fn lemma_last_non_space(s: Seq<char>, to: int)
    requires
        0 <= to <= s.len(),
    ensures
        0 <= last_non_space(s, to) <= to,
        forall|k: int| last_non_space(s, to) <= k < to ==> is_space(#[trigger] s[k]),
        last_non_space(s, to) > 0 ==> !is_space(s[last_non_space(s, to) - 1]),
    decreases to,
{
    if to > 0 && is_space(s[to - 1]) {
        lemma_last_non_space(s, to - 1);
    }
}

/// `s` with white space removed at both ends.
pub fn trim_chars(s: &[char]) -> (r: Vec<char>)
    ensures
        r@ == trim(s@),
{
    let n = s.len();
    let mut a: usize = 0;
    while a < n && char_is_space(s[a])
        invariant
            a <= n,
            n == s@.len(),
            first_non_space(s@, 0) == first_non_space(s@, a as int),
        decreases n - a,
    {
        a = a + 1;
    }
    if a >= n {
        return Vec::new();
    }
    let mut b: usize = n;
    while b > 0 && char_is_space(s[b - 1])
        invariant
            b <= n,
            n == s@.len(),
            last_non_space(s@, n as int) == last_non_space(s@, b as int),
        decreases b,
    {
        b = b - 1;
    }
    proof {
        lemma_first_non_space(s@, 0);
        lemma_last_non_space(s@, n as int);
        assert(b > a) by {
            assert(!is_space(s@[a as int]));
        }
    }
    let mut r: Vec<char> = Vec::new();
    let mut i = a;
    while i < b
        invariant
            a <= i <= b <= n,
            n == s@.len(),
            r@ == s@.subrange(a as int, i as int),
        decreases b - i,
    {
        r.push(s[i]);
        i = i + 1;
        proof {
            assert(r@ =~= s@.subrange(a as int, i as int));
        }
    }
    r
}

/// ASCII white space (`char::is_ascii_whitespace`).
pub open spec fn is_ascii_space(c: char) -> bool {
    c == ' ' || c == '\t' || c == '\n' || c == '\x0C' || c == '\r'
}

/// A separator: ASCII white space when `ascii`, else Unicode white space.
pub open spec fn is_sep(c: char, ascii: bool) -> bool {
    if ascii {
        is_ascii_space(c)
    } else {
        is_space(c)
    }
}

fn char_is_sep(c: char, ascii: bool) -> (r: bool)
    ensures
        r == is_sep(c, ascii),
{
    if ascii {
        c == ' ' || c == '\t' || c == '\n' || c == '\x0C' || c == '\r'
    } else {
        char_is_space(c)
    }
}

/// The pieces of `s` between separators (`str::split_whitespace`, or
/// `str::split_ascii_whitespace` when `ascii`): the words of `s` at or after `from`.
pub open spec fn words_from(s: Seq<char>, from: int, ascii: bool) -> Seq<Seq<char>>
    decreases s.len() - from, 1int,
{
    if from >= s.len() {
        Seq::empty()
    } else if is_sep(s[from], ascii) {
        words_from(s, from + 1, ascii)
    } else {
        let e = word_end(s, from, ascii);
        if e <= from || e > s.len() {
            Seq::empty()
        } else {
            seq![s.subrange(from, e)] + words_from(s, e, ascii)
        }
    }
}

/// One past the end of the run of non-separator characters that starts at `from`.
pub open spec fn word_end(s: Seq<char>, from: int, ascii: bool) -> int
    decreases s.len() - from, 0int,
{
    if from >= s.len() || is_sep(s[from], ascii) {
        from
    } else {
        word_end(s, from + 1, ascii)
    }
}

/// `str::split_whitespace`.
pub open spec fn words(s: Seq<char>) -> Seq<Seq<char>> {
    words_from(s, 0, false)
}

/// `str::split_ascii_whitespace`.
pub open spec fn ascii_words(s: Seq<char>) -> Seq<Seq<char>> {
    words_from(s, 0, true)
}

/// `str::split_whitespace`, on characters.
pub fn split_words(s: &[char]) -> (r: Vec<Vec<char>>)
    ensures
        r@.len() == words(s@).len(),
        forall|k: int| 0 <= k < r@.len() ==> #[trigger] r@[k]@ == words(s@)[k],
{
    split_words_by(s, false)
}

/// `str::split_ascii_whitespace`, on characters.
pub fn split_ascii_words(s: &[char]) -> (r: Vec<Vec<char>>)
    ensures
        r@.len() == ascii_words(s@).len(),
        forall|k: int| 0 <= k < r@.len() ==> #[trigger] r@[k]@ == ascii_words(s@)[k],
{
    split_words_by(s, true)
}

fn split_words_by(s: &[char], ascii: bool) -> (r: Vec<Vec<char>>)
    ensures
        r@.len() == words_from(s@, 0, ascii).len(),
        forall|k: int| 0 <= k < r@.len() ==> #[trigger] r@[k]@ == words_from(s@, 0, ascii)[k],
{
    let n = s.len();
    let mut out: Vec<Vec<char>> = Vec::new();
    let mut i: usize = 0;
    while i < n
        invariant
            i <= n,
            n == s@.len(),
            out@.len() + words_from(s@, i as int, ascii).len() == words_from(s@, 0, ascii).len(),
            forall|k: int| 0 <= k < out@.len() ==> #[trigger] out@[k]@ == words_from(s@, 0, ascii)[k],
            forall|k: int|
                0 <= k < words_from(s@, i as int, ascii).len() ==> words_from(s@, 0, ascii)[out@.len() + k]
                    == #[trigger] words_from(s@, i as int, ascii)[k],
        decreases n - i,
    {
        if char_is_sep(s[i], ascii) {
            i = i + 1;
        } else {
            let start = i;
            let mut w: Vec<char> = Vec::new();
            while i < n && !char_is_sep(s[i], ascii)
                invariant
                    start <= i <= n,
                    n == s@.len(),
                    w@ == s@.subrange(start as int, i as int),
                    word_end(s@, start as int, ascii) == word_end(s@, i as int, ascii),
                decreases n - i,
            {
                w.push(s[i]);
                i = i + 1;
                proof {
                    assert(w@ =~= s@.subrange(start as int, i as int));
                }
            }
            proof {
                let ws = words_from(s@, start as int, ascii);
                assert(ws =~= seq![w@] + words_from(s@, i as int, ascii));
                assert(ws[0] == w@);
                assert(words_from(s@, 0, ascii)[out@.len() as int] == w@);
                assert forall|k: int| 0 <= k < words_from(s@, i as int, ascii).len() implies words_from(
                    s@,
                    0,
                    ascii,
                )[out@.len() + 1 + k] == #[trigger] words_from(s@, i as int, ascii)[k] by {
                    assert(ws[k + 1] == words_from(s@, i as int, ascii)[k]);
                }
            }
            out.push(w);
        }
    }
    out
}

/// The pieces of `s` between occurrences of `sep` (`str::split`), from index `from`.
pub open spec fn split_from(s: Seq<char>, sep: char, from: int) -> Seq<Seq<char>>
    decreases s.len() - from,
{
    if from > s.len() {
        Seq::empty()
    } else {
        let e = next_sep(s, sep, from);
        if e < from {
            Seq::empty()
        } else if e >= s.len() {
            seq![s.subrange(from, s.len() as int)]
        } else {
            seq![s.subrange(from, e)] + split_from(s, sep, e + 1)
        }
    }
}

/// The first index at or after `from` holding `sep`, or the length of `s`.
pub open spec fn next_sep(s: Seq<char>, sep: char, from: int) -> int
    decreases s.len() - from,
{
    if from >= s.len() {
        s.len() as int
    } else if s[from] == sep {
        from
    } else {
        next_sep(s, sep, from + 1)
    }
}

pub open spec fn split_on(s: Seq<char>, sep: char) -> Seq<Seq<char>> {
    split_from(s, sep, 0)
}

proof fn lemma_next_sep(s: Seq<char>, sep: char, from: int)
    requires
        0 <= from <= s.len(),
    ensures
        from <= next_sep(s, sep, from) <= s.len(),
        forall|k: int| from <= k < next_sep(s, sep, from) ==> #[trigger] s[k] != sep,
        next_sep(s, sep, from) < s.len() ==> s[next_sep(s, sep, from)] == sep,
    decreases s.len() - from,
{
    if from < s.len() && s[from] != sep {
        lemma_next_sep(s, sep, from + 1);
    }
}

/// `str::split` on one character.
pub fn split_char(s: &[char], sep: char) -> (r: Vec<Vec<char>>)
    ensures
        r@.len() == split_on(s@, sep).len(),
        forall|k: int| 0 <= k < r@.len() ==> #[trigger] r@[k]@ == split_on(s@, sep)[k],
{
    let n = s.len();
    let mut out: Vec<Vec<char>> = Vec::new();
    let mut start: usize = 0;
    loop
        invariant_except_break
            start <= n,
            n == s@.len(),
            out@.len() + split_from(s@, sep, start as int).len() == split_on(s@, sep).len(),
            forall|k: int| 0 <= k < out@.len() ==> #[trigger] out@[k]@ == split_on(s@, sep)[k],
            forall|k: int|
                0 <= k < split_from(s@, sep, start as int).len() ==> split_on(s@, sep)[out@.len()
                    + k] == #[trigger] split_from(s@, sep, start as int)[k],
        ensures
            out@.len() == split_on(s@, sep).len(),
            forall|k: int| 0 <= k < out@.len() ==> #[trigger] out@[k]@ == split_on(s@, sep)[k],
        decreases n - start,
    {
        let mut i = start;
        let mut w: Vec<char> = Vec::new();
        while i < n && s[i] != sep
            invariant
                start <= i <= n,
                n == s@.len(),
                w@ == s@.subrange(start as int, i as int),
                next_sep(s@, sep, start as int) == next_sep(s@, sep, i as int),
            decreases n - i,
        {
            w.push(s[i]);
            i = i + 1;
            proof {
                assert(w@ =~= s@.subrange(start as int, i as int));
            }
        }
        proof {
            lemma_next_sep(s@, sep, i as int);
        }
        let ghost pieces = split_from(s@, sep, start as int);
        if i >= n {
            proof {
                assert(pieces =~= seq![w@]);
            }
            out.push(w);
            proof {
                assert(split_on(s@, sep)[out@.len() - 1] == pieces[0]);
            }
            break ;
        }
        proof {
            assert(pieces =~= seq![w@] + split_from(s@, sep, i + 1));
            assert(split_on(s@, sep)[out@.len() as int] == pieces[0]);
            assert forall|k: int| 0 <= k < split_from(s@, sep, i + 1).len() implies split_on(
                s@,
                sep,
            )[out@.len() + 1 + k] == #[trigger] split_from(s@, sep, i + 1)[k] by {
                assert(pieces[k + 1] == split_from(s@, sep, i + 1)[k]);
            }
        }
        out.push(w);
        start = i + 1;
    }
    out
}

/// `s` with every `from` replaced by `to`.
pub open spec fn replace_all(s: Seq<char>, from: char, to: char) -> Seq<char> {
    Seq::new(s.len(), |i: int| if s[i] == from { to } else { s[i] })
}

/// `s` with every `from` replaced by `to`.
pub fn replace_char(s: &[char], from: char, to: char) -> (r: Vec<char>)
    ensures
        r@ == replace_all(s@, from, to),
{
    let mut r: Vec<char> = Vec::new();
    let mut i: usize = 0;
    while i < s.len()
        invariant
            i <= s.len(),
            r@ == replace_all(s@, from, to).take(i as int),
        decreases s.len() - i,
    {
        let c = if s[i] == from {
            to
        } else {
            s[i]
        };
        r.push(c);
        i = i + 1;
        proof {
            assert(r@ =~= replace_all(s@, from, to).take(i as int));
        }
    }
    proof {
        assert(replace_all(s@, from, to).take(s@.len() as int) =~= replace_all(s@, from, to));
    }
    r
}

/// The indices of `s` that hold `c`, in increasing order.
pub open spec fn positions(s: Seq<char>, c: char, upto: int) -> Seq<usize>
    decreases upto,
{
    if upto <= 0 {
        Seq::empty()
    } else if s[upto - 1] == c {
        positions(s, c, upto - 1).push((upto - 1) as usize)
    } else {
        positions(s, c, upto - 1)
    }
}

/// The indices of `s` that hold `c`, in increasing order.
pub fn positions_of(s: &[char], c: char) -> (r: Vec<usize>)
    ensures
        r@ == positions(s@, c, s@.len() as int),
{
    let mut r: Vec<usize> = Vec::new();
    let mut i: usize = 0;
    while i < s.len()
        invariant
            i <= s.len(),
            r@ == positions(s@, c, i as int),
        decreases s.len() - i,
    {
        if s[i] == c {
            r.push(i);
        }
        i = i + 1;
    }
    r
}

/// Appends `c` to `s` (`String::push`).
#[verifier::external_body]
pub(crate) fn push_char(s: &mut String, c: char)
    ensures
        final(s)@ == old(s)@.push(c),
{
    s.push(c);
}

/// Appends the characters `cs` to `s`.
pub fn push_chars(s: &mut String, cs: &[char])
    ensures
        final(s)@ == old(s)@ + cs@,
{
    let mut i: usize = 0;
    while i < cs.len()
        invariant
            i <= cs.len(),
            s@ == old(s)@ + cs@.take(i as int),
        decreases cs.len() - i,
    {
        push_char(s, cs[i]);
        i = i + 1;
        proof {
            assert(old(s)@ + cs@.take(i as int) =~= old(s)@ + cs@.take(i - 1) + seq![cs@[i - 1]]);
        }
    }
    assert(cs@.take(cs@.len() as int) =~= cs@);
}

/// A `String` holding the characters `cs`.
pub fn string_of(cs: &[char]) -> (r: String)
    ensures
        r@ == cs@,
{
    let mut s = String::new();
    push_chars(&mut s, cs);
    assert(Seq::<char>::empty() + cs@ =~= cs@);
    s
}

} // verus!
