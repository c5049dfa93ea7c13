//! Characters and strings: trimming, searching, splitting.
use vstd::prelude::*;
use vstd::slice::*;

verus! {

/// `String::push` appends one character at the end of the string.
pub assume_specification[ String::push ](s: &mut String, c: char)
    ensures
        final(s)@ == old(s)@.push(c),
;

/// The characters with the Unicode property `White_Space`.
pub open spec fn is_white_space(c: char) -> bool {
    ||| '\u{9}' <= c <= '\u{d}'
    ||| c == ' '
    ||| c == '\u{85}'
    ||| c == '\u{a0}'
    ||| c == '\u{1680}'
    ||| '\u{2000}' <= c <= '\u{200a}'
    ||| c == '\u{2028}'
    ||| c == '\u{2029}'
    ||| c == '\u{202f}'
    ||| c == '\u{205f}'
    ||| c == '\u{3000}'
}

/// `s` without its leading white space.
pub open spec fn trim_start(s: Seq<char>) -> Seq<char>
    decreases s.len(),
{
    if s.len() > 0 && is_white_space(s[0]) {
        trim_start(s.drop_first())
    } else {
        s
    }
}

/// `s` without its trailing white space.
pub open spec fn trim_end(s: Seq<char>) -> Seq<char>
    decreases s.len(),
{
    if s.len() > 0 && is_white_space(s.last()) {
        trim_end(s.drop_last())
    } else {
        s
    }
}

/// `s` without white space at either end.
pub open spec fn trim(s: Seq<char>) -> Seq<char> {
    trim_end(trim_start(s))
}

/// `s` without the copies of `c` at its end.
pub open spec fn strip_end(s: Seq<char>, c: char) -> Seq<char>
    decreases s.len(),
{
    if s.len() > 0 && s.last() == c {
        strip_end(s.drop_last(), c)
    } else {
        s
    }
}

/// The index of the first `c` in `s`, or the length of `s` if there is none.
pub open spec fn find(s: Seq<char>, c: char) -> nat
    decreases s.len(),
{
    if s.len() == 0 || s[0] == c {
        0
    } else {
        1 + find(s.drop_first(), c)
    }
}

/// The index of the last `c` in `s`, or `-1` if there is none.
pub open spec fn rfind(s: Seq<char>, c: char) -> int
    decreases s.len(),
{
    if s.len() == 0 {
        -1
    } else if s.last() == c {
        s.len() - 1
    } else {
        rfind(s.drop_last(), c)
    }
}

/// `s` with each `from` replaced by `to`.
pub open spec fn replace(s: Seq<char>, from: char, to: char) -> Seq<char> {
    s.map_values(|c: char| if c == from { to } else { c })
}

/// `c`, or the upper case letter if `c` is one of `a` to `z`.
pub open spec fn upper(c: char) -> char {
    if 'a' <= c <= 'z' {
        (c as u32 - 32) as char
    } else {
        c
    }
}

/// `s` with its letters `a` to `z` in upper case.
pub open spec fn uppercase(s: Seq<char>) -> Seq<char> {
    s.map_values(|c: char| upper(c))
}

/// Whether `part` stands somewhere in `s` as one piece.
pub open spec fn contains(s: Seq<char>, part: Seq<char>) -> bool {
    exists|i: int| #[trigger] occurs_at(s, part, i)
}

/// Whether `part` stands in `s` from index `i` on.
pub open spec fn occurs_at(s: Seq<char>, part: Seq<char>, i: int) -> bool {
    0 <= i && i + part.len() <= s.len() && s.subrange(i, i + part.len()) == part
}

/// White space is left away from the end as far back as something else stands.
pub proof fn lemma_trim_end_behind(s: Seq<char>, rest: Seq<char>)
    requires
        s.len() > 0,
        !is_white_space(s.last()),
    ensures
        trim_end(s + rest) == s + trim_end(rest),
    decreases rest.len(),
{
    if rest.len() == 0 {
        assert(s + rest =~= s);
    } else {
        assert((s + rest).last() == rest.last());
        if is_white_space(rest.last()) {
            assert((s + rest).drop_last() =~= s + rest.drop_last());
            lemma_trim_end_behind(s, rest.drop_last());
        }
    }
}

/// What is left without white space at the end is the beginning.
pub proof fn lemma_trim_end(s: Seq<char>)
    ensures
        trim_end(s).len() <= s.len(),
        trim_end(s) == s.take(trim_end(s).len() as int),
    decreases s.len(),
{
    if s.len() > 0 && is_white_space(s.last()) {
        lemma_trim_end(s.drop_last());
        let n = trim_end(s).len() as int;
        assert(s.drop_last().take(n) =~= s.take(n));
    } else {
        assert(s.take(s.len() as int) =~= s);
    }
}

/// The index of the first `c` splits `s`: none before it, `c` at it.
pub proof fn lemma_find(s: Seq<char>, c: char)
    ensures
        find(s, c) <= s.len(),
        forall|i: int| 0 <= i < find(s, c) ==> s[i] != c,
        find(s, c) < s.len() ==> s[find(s, c) as int] == c,
    decreases s.len(),
{
    if s.len() > 0 && s[0] != c {
        let rest = s.drop_first();
        lemma_find(rest, c);
        assert forall|i: int| 0 <= i < find(s, c) implies s[i] != c by {
            if i > 0 {
                assert(s[i] == rest[i - 1]);
            }
        }
    }
}

/// An index with `c` at it and none before it is the one that [`find`] gives.
pub proof fn lemma_find_is(s: Seq<char>, c: char, k: int)
    requires
        0 <= k <= s.len(),
        forall|i: int| 0 <= i < k ==> s[i] != c,
        k < s.len() ==> s[k] == c,
    ensures
        find(s, c) == k,
{
    lemma_find(s, c);
    if find(s, c) < k {
        assert(s[find(s, c) as int] != c);
    }
}

/// The index of the last `c` splits `s`: `c` at it, none behind it.
pub proof fn lemma_rfind(s: Seq<char>, c: char)
    ensures
        -1 <= rfind(s, c) < s.len(),
        forall|i: int| rfind(s, c) < i < s.len() ==> s[i] != c,
        rfind(s, c) >= 0 ==> s[rfind(s, c)] == c,
    decreases s.len(),
{
    if s.len() > 0 && s.last() != c {
        let front = s.drop_last();
        lemma_rfind(front, c);
        assert forall|i: int| rfind(s, c) < i < s.len() implies s[i] != c by {
            if i < front.len() {
                assert(s[i] == front[i]);
            }
        }
    }
}

/// An index with `c` at it and none behind it is the one that [`rfind`] gives.
pub proof fn lemma_rfind_is(s: Seq<char>, c: char, k: int)
    requires
        -1 <= k < s.len(),
        forall|i: int| k < i < s.len() ==> s[i] != c,
        k >= 0 ==> s[k] == c,
    ensures
        rfind(s, c) == k,
{
    lemma_rfind(s, c);
    if rfind(s, c) > k {
        assert(s[rfind(s, c)] != c);
    }
}

/// Appending copies of `c` does not change what is left once they are stripped.
pub proof fn lemma_strip_end(s: Seq<char>, c: char, n: nat)
    requires
        s.len() == 0 || s.last() != c,
    ensures
        strip_end(s + Seq::new(n, |i: int| c), c) == s,
    decreases n,
{
    let t = s + Seq::new(n, |i: int| c);
    if n == 0 {
        assert(t =~= s);
    } else {
        assert(t.drop_last() =~= s + Seq::new((n - 1) as nat, |i: int| c));
        lemma_strip_end(s, c, (n - 1) as nat);
    }
}

/// The characters that count as white space, by their code points.
pub proof fn lemma_white_space(c: char)
    ensures
        is_white_space(c) <==> {
            let u = c as u32;
            u == 9 || u == 10 || u == 11 || u == 12 || u == 13 || u == 32 || u == 133 || u == 160
                || u == 5760 || 8192 <= u <= 8202 || u == 8232 || u == 8233 || u == 8239 || u == 8287
                || u == 12288
        },
{
}

/// Nothing but white space is left away at the beginning, and all of it is.
pub proof fn lemma_trim_start(s: Seq<char>)
    ensures
        trim_start(s).len() <= s.len(),
        trim_start(s) == s.skip(s.len() - trim_start(s).len()),
        forall|i: int|
            0 <= i < s.len() - trim_start(s).len() ==> is_white_space(#[trigger] s[i]),
        trim_start(s).len() > 0 ==> !is_white_space(trim_start(s)[0]),
    decreases s.len(),
{
    if s.len() > 0 && is_white_space(s[0]) {
        let rest = s.drop_first();
        lemma_trim_start(rest);
        let n = s.len() - trim_start(s).len();
        assert(rest.skip(n - 1) =~= s.skip(n));
        assert forall|i: int| 0 <= i < n implies is_white_space(#[trigger] s[i]) by {
            if i > 0 {
                assert(s[i] == rest[i - 1]);
            }
        }
    } else {
        assert(s.skip(0) =~= s);
    }
}

/// Nothing but white space is left away at the end, and all of it is.
pub proof fn lemma_trim_end_white(s: Seq<char>)
    ensures
        trim_end(s).len() <= s.len(),
        forall|i: int| trim_end(s).len() <= i < s.len() ==> is_white_space(#[trigger] s[i]),
        trim_end(s).len() > 0 ==> !is_white_space(trim_end(s).last()),
    decreases s.len(),
{
    if s.len() > 0 && is_white_space(s.last()) {
        let front = s.drop_last();
        lemma_trim_end_white(front);
        assert forall|i: int| trim_end(s).len() <= i < s.len() implies is_white_space(
            #[trigger] s[i],
        ) by {
            if i < front.len() {
                assert(s[i] == front[i]);
            }
        }
    }
}

/// White space on both sides of something that neither begins nor ends with it is left away.
pub proof fn lemma_trim(before: Seq<char>, s: Seq<char>, behind: Seq<char>)
    requires
        forall|i: int| 0 <= i < before.len() ==> is_white_space(#[trigger] before[i]),
        forall|i: int| 0 <= i < behind.len() ==> is_white_space(#[trigger] behind[i]),
        s.len() > 0 ==> !is_white_space(s[0]) && !is_white_space(s.last()),
    ensures
        trim(before + s + behind) == s,
{
    let all = before + s + behind;
    lemma_trim_start(all);
    let t = trim_start(all);
    let n = all.len() - t.len();
    if s.len() > 0 {
        assert(all[before.len() as int] == s[0]);
        if n > before.len() {
            assert(is_white_space(all[before.len() as int]));
        } else if n < before.len() {
            assert(t[0] == all[n]);
            assert(all[n] == before[n]);
        }
        assert(t =~= s + behind);
        lemma_trim_end_behind(s, behind);
        lemma_trim_end_white(behind);
        let rest = trim_end(behind);
        lemma_trim_end(behind);
        if rest.len() > 0 {
            assert(rest.last() == behind[rest.len() - 1]);
        }
        assert(s + rest =~= s);
    } else {
        assert forall|i: int| 0 <= i < all.len() implies is_white_space(#[trigger] all[i]) by {
            if i < before.len() {
                assert(all[i] == before[i]);
            } else {
                assert(all[i] == behind[i - before.len()]);
            }
        }
        if t.len() > 0 {
            assert(t[0] == all[n]);
        }
        assert(t =~= s);
    }
}

/// What is left once the copies of `c` at the end are stripped does not end with `c`, and only
/// copies of `c` were behind it.
pub proof fn lemma_stripped(s: Seq<char>, c: char)
    ensures
        strip_end(s, c).len() <= s.len(),
        strip_end(s, c) == s.take(strip_end(s, c).len() as int),
        forall|i: int| strip_end(s, c).len() <= i < s.len() ==> s[i] == c,
        strip_end(s, c).len() > 0 ==> strip_end(s, c).last() != c,
    decreases s.len(),
{
    if s.len() > 0 && s.last() == c {
        let front = s.drop_last();
        lemma_stripped(front, c);
        let n = strip_end(s, c).len() as int;
        assert(front.take(n) =~= s.take(n));
        assert forall|i: int| n <= i < s.len() implies s[i] == c by {
            if i < front.len() {
                assert(s[i] == front[i]);
            }
        }
    } else {
        assert(s.take(s.len() as int) =~= s);
    }
}

/// Replacing one character by another changes nothing else.
pub proof fn lemma_replace(s: Seq<char>, from: char, to: char)
    ensures
        replace(s, from, to).len() == s.len(),
        forall|i: int|
            0 <= i < s.len() ==> (#[trigger] replace(s, from, to)[i]) == if s[i] == from {
                to
            } else {
                s[i]
            },
{
}

/// Only the letters `a` to `z` have another upper case, and it lies 32 before them.
pub proof fn lemma_upper(c: char)
    ensures
        97 <= c as u32 <= 122 ==> upper(c) as u32 == c as u32 - 32,
        !(97 <= c as u32 <= 122) ==> upper(c) == c,
{
}

/// The upper case of a text is that of its characters, one by one.
pub proof fn lemma_uppercase(s: Seq<char>)
    ensures
        uppercase(s).len() == s.len(),
        forall|i: int|
            0 <= i < s.len() ==> {
                &&& 97 <= s[i] as u32 <= 122 ==> (#[trigger] uppercase(s)[i]) as u32 == s[i] as u32
                    - 32
                &&& !(97 <= s[i] as u32 <= 122) ==> uppercase(s)[i] == s[i]
            },
{
}

/// A part stands in a text wherever something stands before it and something behind it, be it
/// nothing.
pub proof fn lemma_contains(before: Seq<char>, part: Seq<char>, behind: Seq<char>)
    ensures
        contains(before + part + behind, part),
{
    let s = before + part + behind;
    let i = before.len() as int;
    assert(s.subrange(i, i + part.len()) =~= part);
    assert(occurs_at(s, part, i));
}

/// A text in which a part stands is made of what is before it, the part and what is behind it.
pub proof fn lemma_contained(s: Seq<char>, part: Seq<char>)
    requires
        contains(s, part),
    ensures
        exists|i: int|
            0 <= i <= s.len() - part.len() && s == (#[trigger] s.take(i)) + part + s.skip(
                i + part.len(),
            ),
{
    let i = choose|i: int| #[trigger] occurs_at(s, part, i);
    assert(occurs_at(s, part, i));
    assert(s =~= s.take(i) + s.subrange(i, i + part.len()) + s.skip(i + part.len()));
}

/// The characters of `s`.
pub fn chars_of(s: &str) -> (chars: Vec<char>)
    ensures
        chars@ == s@,
{
    let mut chars: Vec<char> = Vec::new();
    for c in it: s.chars()
        invariant
            it.seq() == s@,
            chars@ == s@.take(it.index()),
    {
        chars.push(c);
    }
    assert(s@.take(s@.len() as int) =~= s@);
    chars
}

/// The string of the characters in `chars`.
pub fn text_of(chars: &[char]) -> (s: String)
    ensures
        s@ == chars@,
{
    let mut s = String::new();
    let mut i: usize = 0;
    while i < chars.len()
        invariant
            i <= chars@.len(),
            s@ == chars@.take(i as int),
        decreases chars@.len() - i,
    {
        s.push(chars[i]);
        i += 1;
        assert(chars@.take(i as int) =~= chars@.take(i - 1).push(chars@[i - 1]));
    }
    assert(chars@.take(i as int) =~= chars@);
    s
}

/// Whether `c` has the Unicode property `White_Space`.
pub fn white_space(c: char) -> (r: bool)
    ensures
        r == is_white_space(c),
{
    ('\u{9}' <= c && c <= '\u{d}') || c == ' ' || c == '\u{85}' || c == '\u{a0}' || c == '\u{1680}'
        || ('\u{2000}' <= c && c <= '\u{200a}') || c == '\u{2028}' || c == '\u{2029}'
        || c == '\u{202f}' || c == '\u{205f}' || c == '\u{3000}'
}

/// `s` without white space at either end.
pub fn trimmed(s: &[char]) -> (r: &[char])
    ensures
        r@ == trim(s@),
{
    let mut lo: usize = 0;
    assert(s@.skip(0) =~= s@);
    while lo < s.len() && white_space(s[lo])
        invariant
            lo <= s@.len(),
            trim_start(s@.skip(lo as int)) == trim_start(s@),
        decreases s@.len() - lo,
    {
        assert(s@.skip(lo as int).drop_first() =~= s@.skip(lo + 1));
        lo += 1;
    }
    let mut hi: usize = s.len();
    assert(s@.subrange(lo as int, hi as int) =~= s@.skip(lo as int));
    while lo < hi && white_space(s[hi - 1])
        invariant
            lo <= hi <= s@.len(),
            trim_end(s@.subrange(lo as int, hi as int)) == trim(s@),
        decreases hi,
    {
        assert(s@.subrange(lo as int, hi as int).drop_last() =~= s@.subrange(lo as int, hi - 1));
        hi -= 1;
    }
    slice_subrange(s, lo, hi)
}

/// `s` without the copies of `c` at its end.
pub fn stripped(s: &[char], c: char) -> (r: &[char])
    ensures
        r@ == strip_end(s@, c),
{
    let mut hi: usize = s.len();
    assert(s@.subrange(0, hi as int) =~= s@);
    while hi > 0 && s[hi - 1] == c
        invariant
            hi <= s@.len(),
            strip_end(s@.subrange(0, hi as int), c) == strip_end(s@, c),
        decreases hi,
    {
        assert(s@.subrange(0, hi as int).drop_last() =~= s@.subrange(0, hi - 1));
        hi -= 1;
    }
    slice_subrange(s, 0, hi)
}

/// The index of the first `c` in `s`, or the length of `s`.
pub fn position(s: &[char], c: char) -> (k: usize)
    ensures
        k == find(s@, c),
        k <= s@.len(),
        k < s@.len() ==> s@[k as int] == c,
{
    let mut k: usize = 0;
    while k < s.len() && s[k] != c
        invariant
            k <= s@.len(),
            forall|i: int| 0 <= i < k ==> s@[i] != c,
        decreases s@.len() - k,
    {
        k += 1;
    }
    proof {
        lemma_find_is(s@, c, k as int);
    }
    k
}

/// The index of the last `c` in `s`.
pub fn last_position(s: &[char], c: char) -> (k: Option<usize>)
    ensures
        k is None ==> rfind(s@, c) == -1,
        k matches Some(i) ==> rfind(s@, c) == i && i < s@.len(),
{
    let mut hi: usize = s.len();
    while hi > 0
        invariant
            hi <= s@.len(),
            forall|i: int| hi <= i < s@.len() ==> s@[i] != c,
        decreases hi,
    {
        if s[hi - 1] == c {
            proof {
                lemma_rfind_is(s@, c, hi - 1);
            }
            return Some(hi - 1);
        }
        hi -= 1;
    }
    proof {
        lemma_rfind_is(s@, c, -1);
    }
    None
}

/// Whether `a` and `b` hold the same characters.
pub fn same(a: &[char], b: &[char]) -> (r: bool)
    ensures
        r == (a@ == b@),
{
    if a.len() != b.len() {
        return false;
    }
    let mut i: usize = 0;
    while i < a.len()
        invariant
            i <= a@.len(),
            a@.len() == b@.len(),
            forall|j: int| 0 <= j < i ==> a@[j] == b@[j],
        decreases a@.len() - i,
    {
        if a[i] != b[i] {
            return false;
        }
        i += 1;
    }
    assert(a@ =~= b@);
    true
}

/// Whether the strings `a` and `b` hold the same characters.
pub fn same_text(a: &str, b: &str) -> (r: bool)
    ensures
        r == (a@ == b@),
{
    same(chars_of(a).as_slice(), chars_of(b).as_slice())
}

/// The upper case of `c`, if it is one of `a` to `z`.
pub fn to_upper(c: char) -> (r: char)
    ensures
        r == upper(c),
{
    if 'a' <= c && c <= 'z' {
        ((c as u8) - 32) as char
    } else {
        c
    }
}

/// `s` with its letters `a` to `z` in upper case.
pub fn to_uppercase(s: &[char]) -> (r: Vec<char>)
    ensures
        r@ == uppercase(s@),
{
    let mut r: Vec<char> = Vec::new();
    let mut i: usize = 0;
    while i < s.len()
        invariant
            i <= s@.len(),
            r@ =~= uppercase(s@.take(i as int)),
        decreases s@.len() - i,
    {
        r.push(to_upper(s[i]));
        i += 1;
    }
    assert(s@.take(i as int) =~= s@);
    r
}

/// `s` with each `from` replaced by `to`.
pub fn replaced(s: &str, from: char, to: char) -> (r: String)
    ensures
        r@ == replace(s@, from, to),
{
    let mut r = String::new();
    for c in it: s.chars()
        invariant
            it.seq() == s@,
            r@ == replace(s@.take(it.index()), from, to),
    {
        if c == from {
            r.push(to);
        } else {
            r.push(c);
        }
        assert(s@.take(it.index() + 1) =~= s@.take(it.index()).push(c));
        assert(replace(s@.take(it.index() + 1), from, to) =~= replace(
            s@.take(it.index()),
            from,
            to,
        ).push(if c == from { to } else { c }));
    }
    assert(s@.take(s@.len() as int) =~= s@);
    r
}

/// Whether `part` stands somewhere in `s` as one piece.
pub fn has_part(s: &[char], part: &[char]) -> (r: bool)
    ensures
        r == contains(s@, part@),
{
    let mut i: usize = 0;
    while part.len() <= s.len() - i
        invariant
            i <= s@.len(),
            forall|j: int| 0 <= j < i ==> !#[trigger] occurs_at(s@, part@, j),
        decreases s@.len() - i,
    {
        if same(slice_subrange(s, i, i + part.len()), part) {
            assert(occurs_at(s@, part@, i as int));
            return true;
        }
        assert(part@.len() > 0) by {
            if part@.len() == 0 {
                assert(s@.subrange(i as int, i + part@.len()) =~= part@);
            }
        }
        i += 1;
    }
    false
}

} // verus!
