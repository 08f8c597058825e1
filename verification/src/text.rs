//! Reading text: its characters, the first place of a character, its
//! lines, and the numbers written in it.

use vstd::prelude::*;

verus! {

/// The characters of a text, one by one.
pub fn chars_of(s: &str) -> (r: Vec<char>)
    ensures
        r@ == s@,
{
    let mut r: Vec<char> = Vec::new();
    for c in it: s.chars()
        invariant
            r@ == it.seq().take(it.index()),
            it.seq() == s@,
    {
        r.push(c);
    }
    r
}

/// Whether `i` is the first place at which `c` stands in `s`.
pub open spec fn is_first(s: Seq<char>, c: char, i: int) -> bool {
    &&& 0 <= i < s.len()
    &&& s[i] == c
    &&& forall|j: int| 0 <= j < i ==> s[j] != c
}

/// The first place at which `c` stands in `s`, if it stands there at all.
pub open spec fn first_index(s: Seq<char>, c: char) -> Option<int> {
    if exists|i: int| is_first(s, c, i) {
        Some(choose|i: int| is_first(s, c, i))
    } else {
        None
    }
}

/// There is one first place at most.
pub proof fn lemma_first_index(s: Seq<char>, c: char, i: int)
    requires
        is_first(s, c, i),
    ensures
        first_index(s, c) == Some(i),
{
    let j = choose|j: int| is_first(s, c, j);
    if j < i {
        assert(s[j] != c);
    } else if i < j {
        assert(s[i] != c);
    }
}

/// The parts of `s` before and behind the first `c`.
pub open spec fn split_first(s: Seq<char>, c: char) -> Option<(Seq<char>, Seq<char>)> {
    match first_index(s, c) {
        Some(i) => Some((s.subrange(0, i), s.subrange(i + 1, s.len() as int))),
        None => None,
    }
}

/// The first place of `c` among the characters from `lo` up to `hi`.
pub fn find_first(chars: &Vec<char>, lo: usize, hi: usize, c: char) -> (r: Option<usize>)
    requires
        lo <= hi <= chars.len(),
    ensures
        match r {
            Some(i) => lo <= i < hi && first_index(chars@.subrange(lo as int, hi as int), c) == Some(
                i - lo,
            ),
            None => first_index(chars@.subrange(lo as int, hi as int), c) is None,
        },
{
    let ghost part = chars@.subrange(lo as int, hi as int);
    let mut i = lo;
    while i < hi
        invariant
            lo <= i <= hi <= chars.len(),
            part == chars@.subrange(lo as int, hi as int),
            forall|j: int| 0 <= j < i - lo ==> part[j] != c,
        decreases hi - i,
    {
        if chars[i] == c {
            proof {
                assert(part[i - lo] == c);
                lemma_first_index(part, c, i - lo);
            }
            return Some(i);
        }
        i = i + 1;
    }
    proof {
        if exists|k: int| is_first(part, c, k) {
            let k = choose|k: int| is_first(part, c, k);
            assert(part[k] != c);
        }
    }
    None
}

/// Whether `char::is_whitespace` holds of `c`: whether `c` has the Unicode
/// property `White_Space`.
pub uninterp spec fn is_white_space(c: char) -> bool;

/// `char::is_whitespace`.
#[verifier::external_body]
fn char_is_whitespace(c: char) -> (b: bool)
    ensures
        b == is_white_space(c),
{
    c.is_whitespace()
}

/// The text without the white space at its start.
pub open spec fn strip_front(s: Seq<char>) -> Seq<char>
    decreases s.len(),
{
    if s.len() > 0 && is_white_space(s[0]) {
        strip_front(s.drop_first())
    } else {
        s
    }
}

/// The text without the white space at its end.
pub open spec fn strip_back(s: Seq<char>) -> Seq<char>
    decreases s.len(),
{
    if s.len() > 0 && is_white_space(s.last()) {
        strip_back(s.drop_last())
    } else {
        s
    }
}

/// The text without the white space at its start and at its end.
pub open spec fn trimmed(s: Seq<char>) -> Seq<char> {
    strip_back(strip_front(s))
}

/// The part of the characters from `lo` up to `hi` that is left when the
/// white space at both ends is taken away.
pub fn trim(chars: &Vec<char>, lo: usize, hi: usize) -> (r: (usize, usize))
    requires
        lo <= hi <= chars.len(),
    ensures
        lo <= r.0 <= r.1 <= hi,
        chars@.subrange(r.0 as int, r.1 as int) == trimmed(chars@.subrange(lo as int, hi as int)),
        forall|k: int| lo <= k < r.0 || r.1 <= k < hi ==> is_white_space(#[trigger] chars[k]),
        r.0 < hi ==> !is_white_space(chars[r.0 as int]),
        r.0 < r.1 ==> !is_white_space(chars[r.1 - 1]),
        r.0 == hi ==> r.1 == hi,
{
    let ghost s = chars@;
    let mut i = lo;
    while i < hi && char_is_whitespace(chars[i])
        invariant
            s == chars@,
            lo <= i <= hi <= chars.len(),
            forall|k: int| lo <= k < i ==> is_white_space(#[trigger] chars[k]),
            strip_front(s.subrange(lo as int, hi as int)) == strip_front(
                s.subrange(i as int, hi as int),
            ),
        decreases hi - i,
    {
        assert(s.subrange(i as int, hi as int).drop_first() =~= s.subrange(i + 1, hi as int));
        i = i + 1;
    }
    assert(strip_front(s.subrange(i as int, hi as int)) == s.subrange(i as int, hi as int));
    let mut j = hi;
    while i < j && char_is_whitespace(chars[j - 1])
        invariant
            s == chars@,
            lo <= i <= j <= hi <= chars.len(),
            forall|k: int| lo <= k < i || j <= k < hi ==> is_white_space(#[trigger] chars[k]),
            i < hi ==> !is_white_space(chars[i as int]),
            strip_back(s.subrange(i as int, hi as int)) == strip_back(
                s.subrange(i as int, j as int),
            ),
        decreases j - i,
    {
        assert(s.subrange(i as int, j as int).drop_last() =~= s.subrange(i as int, j - 1));
        j = j - 1;
    }
    assert(strip_back(s.subrange(i as int, j as int)) == s.subrange(i as int, j as int));
    (i, j)
}

/// The lines of a text: the parts between its line feeds, and none for what
/// follows the last line feed if nothing follows it.
pub open spec fn lines_of(s: Seq<char>) -> Seq<Seq<char>>
    decreases s.len(),
{
    if s.len() == 0 {
        Seq::empty()
    } else {
        match first_index(s, '\n') {
            Some(i) => if 0 <= i < s.len() {
                seq![s.subrange(0, i)] + lines_of(s.subrange(i + 1, s.len() as int))
            } else {
                seq![s]
            },
            None => seq![s],
        }
    }
}

/// The parts of `s` that the pairs of `ranges` mark.
pub open spec fn parts(s: Seq<char>, ranges: Seq<(usize, usize)>) -> Seq<Seq<char>> {
    Seq::new(ranges.len(), |k: int| s.subrange(ranges[k].0 as int, ranges[k].1 as int))
}

/// Where each line of the text begins and ends.
pub fn split_lines(chars: &Vec<char>) -> (r: Vec<(usize, usize)>)
    ensures
        parts(chars@, r@) == lines_of(chars@),
        forall|k: int| 0 <= k < r.len() ==> (#[trigger] r[k]).0 <= r[k].1 <= chars.len(),
{
    let ghost s = chars@;
    let n = chars.len();
    let mut r: Vec<(usize, usize)> = Vec::new();
    let mut pos: usize = 0;
    assert(s.subrange(0, n as int) =~= s);
    assert(parts(s, r@) + lines_of(s.subrange(0, n as int)) =~= lines_of(s));
    while pos < n
        invariant
            s == chars@,
            n == chars.len(),
            pos <= n,
            forall|k: int| 0 <= k < r.len() ==> (#[trigger] r[k]).0 <= r[k].1 <= n,
            parts(s, r@) + lines_of(s.subrange(pos as int, n as int)) == lines_of(s),
        decreases n - pos,
    {
        let ghost rest = s.subrange(pos as int, n as int);
        let ghost done = parts(s, r@);
        match find_first(chars, pos, n, '\n') {
            Some(i) => {
                proof {
                    let k = i - pos;
                    assert(first_index(rest, '\n') == Some(k));
                    assert(rest.subrange(0, k) =~= s.subrange(pos as int, i as int));
                    assert(rest.subrange(k + 1, rest.len() as int) =~= s.subrange(i + 1, n as int));
                }
                r.push((pos, i));
                assert(parts(s, r@) =~= done + seq![s.subrange(pos as int, i as int)]);
                assert(parts(s, r@) + lines_of(s.subrange(i + 1, n as int)) =~= done + lines_of(rest));
                pos = i + 1;
            },
            None => {
                r.push((pos, n));
                assert(parts(s, r@) =~= done + seq![rest]);
                assert(lines_of(s.subrange(n as int, n as int)) =~= Seq::<Seq<char>>::empty());
                assert(parts(s, r@) + lines_of(s.subrange(n as int, n as int)) =~= done + lines_of(rest));
                pos = n;
            },
        }
    }
    assert(lines_of(s.subrange(n as int, n as int)) =~= Seq::<Seq<char>>::empty());
    assert(parts(s, r@) + Seq::<Seq<char>>::empty() =~= parts(s, r@));
    r
}

/// Whether `c` is one of the digits from 0 to 9.
pub open spec fn is_digit(c: char) -> bool {
    '0' <= c <= '9'
}

/// The number that a list of digits stands for in base ten.
pub open spec fn digits_value(s: Seq<char>) -> nat
    decreases s.len(),
{
    if s.len() == 0 {
        0
    } else {
        (10 * digits_value(s.drop_last()) + (s.last() as u32 - '0' as u32)) as nat
    }
}

/// Whether every character is a digit.
pub open spec fn all_digits(s: Seq<char>) -> bool {
    forall|k: int| 0 <= k < s.len() ==> is_digit(#[trigger] s[k])
}

/// The count that a text stands for: one or more digits, with a plus sign
/// before them or without, and a value that a `usize` can hold.
pub open spec fn count_text(s: Seq<char>) -> Option<nat> {
    let d = if s.len() > 0 && s[0] == '+' {
        s.drop_first()
    } else {
        s
    };
    if d.len() > 0 && all_digits(d) && digits_value(d) <= usize::MAX {
        Some(digits_value(d))
    } else {
        None
    }
}

/// Digits that follow only add to the value.
pub proof fn lemma_digits_grow(s: Seq<char>, k: int)
    requires
        all_digits(s),
        0 <= k <= s.len(),
    ensures
        digits_value(s.subrange(0, k)) <= digits_value(s),
    decreases s.len() - k,
{
    if k == s.len() {
        assert(s.subrange(0, k) =~= s);
    } else {
        let t = s.drop_last();
        assert(is_digit(s.last()));
        if k <= t.len() {
            assert(all_digits(t)) by {
                assert forall|j: int| 0 <= j < t.len() implies is_digit(#[trigger] t[j]) by {
                    assert(t[j] == s[j]);
                }
            }
            lemma_digits_grow(t, k);
            assert(t.subrange(0, k) =~= s.subrange(0, k));
        }
    }
}

/// The count written by the characters from `lo` up to `hi`.
pub fn parse_count(chars: &Vec<char>, lo: usize, hi: usize) -> (r: Option<usize>)
    requires
        lo <= hi <= chars.len(),
    ensures
        match r {
            Some(n) => count_text(chars@.subrange(lo as int, hi as int)) == Some(n as nat),
            None => count_text(chars@.subrange(lo as int, hi as int)) is None,
        },
{
    let ghost s = chars@.subrange(lo as int, hi as int);
    let start = if lo < hi && chars[lo] == '+' {
        lo + 1
    } else {
        lo
    };
    let ghost d = chars@.subrange(start as int, hi as int);
    proof {
        if lo < hi {
            assert(s[0] == chars[lo as int]);
        }
        if start > lo {
            assert(s.drop_first() =~= d);
        } else {
            assert(s =~= d);
        }
    }
    if start == hi {
        return None;
    }
    let mut acc: usize = 0;
    let mut i = start;
    assert(d.subrange(0, 0) =~= Seq::<char>::empty());
    while i < hi
        invariant
            start <= i <= hi <= chars.len(),
            start < hi,
            s == chars@.subrange(lo as int, hi as int),
            d == chars@.subrange(start as int, hi as int),
            d == if s.len() > 0 && s[0] == '+' {
                s.drop_first()
            } else {
                s
            },
            all_digits(d.subrange(0, i - start)),
            acc == digits_value(d.subrange(0, i - start)),
        decreases hi - i,
    {
        let c = chars[i];
        let ghost before = d.subrange(0, i - start);
        let ghost after = d.subrange(0, i - start + 1);
        proof {
            assert(d[i - start] == c);
            assert(after.drop_last() =~= before);
            assert(after.last() == c);
        }
        if c < '0' || c > '9' {
            proof {
                assert(!is_digit(d[i - start]));
                assert(!all_digits(d));
            }
            return None;
        }
        proof {
            assert forall|k: int| 0 <= k < after.len() implies is_digit(#[trigger] after[k]) by {
                if k < before.len() {
                    assert(after[k] == before[k]);
                }
            }
        }
        let digit = (c as u32 - '0' as u32) as usize;
        let next = match acc.checked_mul(10) {
            Some(t) => t.checked_add(digit),
            None => None,
        };
        match next {
            Some(v) => {
                acc = v;
            },
            None => {
                proof {
                    assert(digits_value(after) > usize::MAX);
                    if all_digits(d) {
                        lemma_digits_grow(d, i - start + 1);
                    }
                }
                return None;
            },
        }
        i = i + 1;
    }
    assert(d.subrange(0, hi - start) =~= d);
    Some(acc)
}

} // verus!
