//! Small reminders of Rust idioms: building vectors, appending to one through a
//! mutable reference, borrowing out of a `Result`, and replacing and finding
//! characters in a string.
use vstd::prelude::*;
use crate::decimal::{dec_str, int_to_chars};
use crate::text::{chars_of, positions, positions_of, push_chars, replace_all, replace_char, string_of};

verus! {

/// A tagged value: some text, or a number.
#[derive(Debug)]
pub enum Pan {
    A(String),
    B(i32),
}

/// Appends `value` to `vec`.
pub fn add_sth<T>(vec: &mut Vec<T>, value: T)
    ensures
        final(vec)@ == old(vec)@.push(value),
{
    vec.push(value);
}

/// What the vector examples build.
pub struct VectorsDemo {
    /// `[1, 2, 3]`.
    pub vec1: Vec<i32>,
    /// `0..5` shifted by 3.
    pub vec2: Vec<i32>,
    /// `test 0` to `test 4`, each tagged `A`.
    pub vec3: Vec<Pan>,
    /// `vec1` with `13` appended.
    pub vec11: Vec<i32>,
    /// The length of `vec11`.
    pub len: usize,
    /// That length as an `i32`, less 7.
    pub len_minus_seven: i32,
    /// That length less 7, stopping at 0.
    pub len_saturating: usize,
}

/// `test i`.
pub open spec fn test_text(i: int) -> Seq<char> {
    seq!['t', 'e', 's', 't', ' '] + dec_str(i)
}

/// Builds the vector examples.
pub fn vectors() -> (r: VectorsDemo)
    ensures
        r.vec1@ == seq![1i32, 2, 3],
        r.vec2@ == Seq::new(5, |x: int| (x + 3) as i32),
        r.vec3@.len() == 5,
        forall|i: int| 0 <= i < 5 ==> (#[trigger] r.vec3@[i] matches Pan::A(s) && s@ == test_text(i)),
        r.vec11@ == seq![1i32, 2, 3, 13],
        r.len == 4,
        r.len_minus_seven == -3,
        r.len_saturating == 0,
{
    let vec1: Vec<i32> = vec![1, 2, 3];
    let mut vec2: Vec<i32> = Vec::new();
    let mut x: i32 = 0;
    while x < 5
        invariant
            0 <= x <= 5,
            vec2@ == Seq::new(x as nat, |k: int| (k + 3) as i32),
        decreases 5 - x,
    {
        vec2.push(x + 3);
        x += 1;
        assert(vec2@ =~= Seq::new(x as nat, |k: int| (k + 3) as i32));
    }
    let mut vec3: Vec<Pan> = Vec::new();
    let mut i: i32 = 0;
    while i < 5
        invariant
            0 <= i <= 5,
            vec3@.len() == i,
            forall|k: int| 0 <= k < i ==> (#[trigger] vec3@[k] matches Pan::A(s) && s@ == test_text(k)),
        decreases 5 - i,
    {
        let mut s = string_of(&['t', 'e', 's', 't', ' ']);
        push_chars(&mut s, int_to_chars(i as i128).as_slice());
        assert(s@ =~= test_text(i as int));
        vec3.push(Pan::A(s));
        i += 1;
    }
    let mut vec11: Vec<i32> = vec![1, 2, 3];
    add_sth(&mut vec11, 13);
    assert(vec11@ =~= seq![1i32, 2, 3, 13]);
    let len = vec11.len();
    let len_minus_seven = len as i32 - 7;
    let len_saturating = if len >= 7 {
        len - 7
    } else {
        0
    };
    assert(vec1@ =~= seq![1i32, 2, 3]);
    VectorsDemo { vec1, vec2, vec3, vec11, len, len_minus_seven, len_saturating }
}

/// Whether `s` holds `c`.
fn has_char(s: &String, c: char) -> (r: bool)
    ensures
        r == s@.contains(c),
{
    let cs = chars_of(s.as_str());
    let mut i: usize = 0;
    while i < cs.len()
        invariant
            i <= cs.len(),
            cs@ == s@,
            forall|k: int| 0 <= k < i ==> cs@[k] != c,
        decreases cs.len() - i,
    {
        if cs[i] == c {
            return true;
        }
        i += 1;
    }
    false
}

/// Borrowing the text out of a `Result`, with `ref`, by value, and with `as_ref`;
/// tells whether the text holds a `-`.
pub fn refs() -> (r: bool)
    ensures
        r == false,
{
    let result: Result<String, ()> = Ok(string_of(&['h', 'e', 'l', 'l', 'o']));
    if let Ok(ref s) = result {
        let _borrowed: &String = s;
    }
    let result: Result<String, ()> = Ok(string_of(&['h', 'e', 'l', 'l', 'o']));
    let found = match result.as_ref() {
        Ok(s) => has_char(s, '-'),
        Err(_) => false,
    };
    assert(!seq!['h', 'e', 'l', 'l', 'o'].contains('-')) by {
        let h = seq!['h', 'e', 'l', 'l', 'o'];
        assert forall|k: int| 0 <= k < h.len() implies h[k] != '-' by {}
    }
    found
}

/// The text of the string example, and the positions of its beam.
pub open spec fn strings_text() -> Seq<char> {
    seq!['.', '.', '.', '.', '.', 'S', '.', '.', '.', '.', '.']
}

/// Replaces `S` by `|` in `.....S.....` and finds the positions of `|`.
pub fn strings() -> (r: (String, Vec<usize>))
    ensures
        r.0@ == replace_all(strings_text(), 'S', '|'),
        r.1@ == positions(r.0@, '|', r.0@.len() as int),
{
    let l = ['.', '.', '.', '.', '.', 'S', '.', '.', '.', '.', '.'];
    assert(l@ =~= strings_text());
    let replaced = replace_char(&l, 'S', '|');
    let pos = positions_of(replaced.as_slice(), '|');
    (string_of(replaced.as_slice()), pos)
}

} // verus!
