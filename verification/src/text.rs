//! Character-level helpers on strings, stated over `Seq<char>`.

use vstd::prelude::*;
use vstd::string::*;

verus! {

/// Appends one character to a `String` (std's `String::push`).
/// Trusted: the new contents are the old contents followed by `c`.
#[verifier::external_body]
pub(crate) fn push_char(s: &mut String, c: char)
    ensures
        final(s)@ == old(s)@.push(c),
{
    s.push(c)
}

/// The characters of `s`, in order.
pub fn chars_of(s: &str) -> (v: Vec<char>)
    ensures
        v@ == s@,
{
    let n = s.unicode_len();
    let mut v: Vec<char> = Vec::new();
    let mut i: usize = 0;
    while i < n
        invariant
            n == s@.len(),
            i <= n,
            v@ == s@.take(i as int),
        decreases n - i,
    {
        let c = s.get_char(i);
        v.push(c);
        i = i + 1;
        assert(v@ =~= s@.take(i as int));
    }
    assert(v@ =~= s@);
    v
}

/// A `String` holding exactly the characters of `v`.
pub fn string_of(v: &[char]) -> (s: String)
    ensures
        s@ == v@,
{
    let mut s = String::new();
    let mut i: usize = 0;
    while i < v.len()
        invariant
            i <= v@.len(),
            s@ == v@.take(i as int),
        decreases v@.len() - i,
    {
        push_char(&mut s, v[i]);
        i = i + 1;
        assert(s@ =~= v@.take(i as int));
    }
    assert(s@ =~= v@);
    s
}

/// Position of the first occurrence of `c` in `v`.
pub fn first_index_of(v: &[char], c: char) -> (r: Option<usize>)
    ensures
        r matches Some(i) ==> v@.index_of_first(c) == Some(i as int),
        r matches Some(i) ==> i < v@.len() && v@[i as int] == c,
        r matches Some(i) ==> forall|j: int| 0 <= j < i ==> v@[j] != c,
        r is None ==> v@.index_of_first(c) is None,
        r is None <==> !v@.contains(c),
{
    proof { v@.index_of_first_ensures(c); }
    let mut i: usize = 0;
    while i < v.len()
        invariant
            i <= v@.len(),
            forall|j: int| 0 <= j < i ==> v@[j] != c,
        decreases v@.len() - i,
    {
        if v[i] == c {
            proof {
                v@.index_of_first_ensures(c);
                let k = v@.index_of_first(c).unwrap();
                assert(v@.contains(c)) by { assert(v@[i as int] == c); }
                if k < i {
                    assert(v@[k] != c);
                } else if k > i {
                    assert(v@[i as int] != c);
                }
            }
            return Some(i);
        }
        i = i + 1;
    }
    None
}

/// Position of the last occurrence of `c` in `v`.
pub fn last_index_of(v: &[char], c: char) -> (r: Option<usize>)
    ensures
        r matches Some(i) ==> v@.index_of_last(c) == Some(i as int),
        r matches Some(i) ==> i < v@.len() && v@[i as int] == c,
        r matches Some(i) ==> forall|j: int| i < j < v@.len() ==> v@[j] != c,
        r is None ==> v@.index_of_last(c) is None,
        r is None <==> !v@.contains(c),
{
    proof { v@.index_of_last_ensures(c); }
    let mut i: usize = v.len();
    while i > 0
        invariant
            i <= v@.len(),
            forall|j: int| i <= j < v@.len() ==> v@[j] != c,
        decreases i,
    {
        if v[i - 1] == c {
            proof {
                v@.index_of_last_ensures(c);
                let k = v@.index_of_last(c).unwrap();
                assert(v@.contains(c)) by { assert(v@[i - 1] == c); }
                if k < i - 1 {
                    assert(v@[i - 1] != c);
                } else if k > i - 1 {
                    assert(v@[k] != c);
                }
            }
            return Some(i - 1);
        }
        i = i - 1;
    }
    None
}

/// Whether `a` and `b` hold the same characters.
pub fn chars_eq(a: &[char], b: &[char]) -> (r: bool)
    ensures
        r == (a@ == b@),
{
    if a.len() != b.len() {
        return false;
    }
    let mut i: usize = 0;
    while i < a.len()
        invariant
            a@.len() == b@.len(),
            i <= a@.len(),
            forall|j: int| 0 <= j < i ==> a@[j] == b@[j],
        decreases a@.len() - i,
    {
        if a[i] != b[i] {
            return false;
        }
        i = i + 1;
    }
    assert(a@ =~= b@);
    true
}

/// Whether `v` begins with `prefix`.
pub fn starts_with(v: &[char], prefix: &[char]) -> (r: bool)
    ensures
        r == prefix@.is_prefix_of(v@),
{
    if prefix.len() > v.len() {
        return false;
    }
    let mut i: usize = 0;
    while i < prefix.len()
        invariant
            prefix@.len() <= v@.len(),
            i <= prefix@.len(),
            forall|j: int| 0 <= j < i ==> prefix@[j] == v@[j],
        decreases prefix@.len() - i,
    {
        if prefix[i] != v[i] {
            return false;
        }
        i = i + 1;
    }
    true
}

/// `c` equals the lowercase ASCII character `t`, in either case.
pub open spec fn ascii_ieq_char(c: char, t: char) -> bool {
    c == t || (97 <= t as u32 <= 122 && c as u32 + 32 == t as u32)
}

/// `s` equals the lowercase ASCII text `t` when ASCII case is ignored.
pub open spec fn ascii_ieq(s: Seq<char>, t: Seq<char>) -> bool {
    s.len() == t.len() && forall|i: int| 0 <= i < s.len() ==> ascii_ieq_char(#[trigger] s[i], t[i])
}

/// Whether `s` equals `t` (whose letters are lowercase ASCII) when ASCII case is ignored.
pub fn ascii_ieq_chars(s: &[char], t: &[char]) -> (r: bool)
    ensures
        r == ascii_ieq(s@, t@),
{
    if s.len() != t.len() {
        return false;
    }
    let mut i: usize = 0;
    while i < s.len()
        invariant
            s@.len() == t@.len(),
            i <= s@.len(),
            forall|j: int| 0 <= j < i ==> ascii_ieq_char(#[trigger] s@[j], t@[j]),
        decreases s@.len() - i,
    {
        let c = s[i];
        let d = t[i];
        let cu = c as u32;
        let du = d as u32;
        let same = c == d || (97 <= du && du <= 122 && 65 <= cu && cu <= 90 && cu + 32 == du);
        if !same {
            assert(!ascii_ieq_char(s@[i as int], t@[i as int]));
            return false;
        }
        i = i + 1;
    }
    true
}

/// `c` has the Unicode White_Space property, which is what
/// `char::is_whitespace` tests.
pub open spec fn is_whitespace(c: char) -> bool {
    let u = c as u32;
    ||| 0x09 <= u <= 0x0d
    ||| u == 0x20
    ||| u == 0x85
    ||| u == 0xa0
    ||| u == 0x1680
    ||| 0x2000 <= u <= 0x200a
    ||| u == 0x2028
    ||| u == 0x2029
    ||| u == 0x202f
    ||| u == 0x205f
    ||| u == 0x3000
}

/// Whether `c` is white space (Unicode White_Space).
pub fn char_is_whitespace(c: char) -> (r: bool)
    ensures
        r == is_whitespace(c),
{
    let u = c as u32;
    (0x09 <= u && u <= 0x0d) || u == 0x20 || u == 0x85 || u == 0xa0 || u == 0x1680
        || (0x2000 <= u && u <= 0x200a) || u == 0x2028 || u == 0x2029 || u == 0x202f
        || u == 0x205f || u == 0x3000
}

/// How many characters at the start of `s` are not white space.
pub open spec fn word_end(s: Seq<char>) -> nat
    decreases s.len(),
{
    if s.len() == 0 || is_whitespace(s[0]) {
        0
    } else {
        1 + word_end(s.drop_first())
    }
}

/// The maximal runs of non-white-space characters of `s`, in order (what
/// `split_whitespace` yields).
pub open spec fn words(s: Seq<char>) -> Seq<Seq<char>>
    decreases s.len(),
{
    if s.len() == 0 {
        seq![]
    } else if is_whitespace(s[0]) {
        words(s.drop_first())
    } else {
        proof { lemma_word_end_bound(s); }
        seq![s.take(word_end(s) as int)] + words(s.skip(word_end(s) as int))
    }
}

/// How many characters at the start of `s` come before the first `\n`.
pub open spec fn line_end(s: Seq<char>) -> nat
    decreases s.len(),
{
    if s.len() == 0 || s[0] == '\n' {
        0
    } else {
        1 + line_end(s.drop_first())
    }
}

/// The pieces of `s` between `\n` characters, in order.
pub open spec fn lines(s: Seq<char>) -> Seq<Seq<char>>
    decreases s.len(),
{
    if line_end(s) >= s.len() {
        seq![s]
    } else {
        seq![s.take(line_end(s) as int)] + lines(s.skip(line_end(s) + 1int))
    }
}

pub proof fn lemma_word_end(s: Seq<char>, e: int)
    requires
        0 <= e <= s.len(),
        forall|k: int| 0 <= k < e ==> !is_whitespace(#[trigger] s[k]),
        e == s.len() || is_whitespace(s[e]),
    ensures
        word_end(s) == e,
    decreases e,
{
    if e > 0 {
        lemma_word_end(s.drop_first(), e - 1);
    }
}

pub proof fn lemma_line_end(s: Seq<char>, e: int)
    requires
        0 <= e <= s.len(),
        forall|k: int| 0 <= k < e ==> #[trigger] s[k] != '\n',
        e == s.len() || s[e] == '\n',
    ensures
        line_end(s) == e,
    decreases e,
{
    if e > 0 {
        lemma_line_end(s.drop_first(), e - 1);
    }
}

pub proof fn lemma_word_end_bound(s: Seq<char>)
    ensures
        word_end(s) <= s.len(),
    decreases s.len(),
{
    if s.len() > 0 && !is_whitespace(s[0]) {
        lemma_word_end_bound(s.drop_first());
    }
}

proof fn lemma_line_end_bound(s: Seq<char>)
    ensures
        line_end(s) <= s.len(),
    decreases s.len(),
{
    if s.len() > 0 && s[0] != '\n' {
        lemma_line_end_bound(s.drop_first());
    }
}

/// The view of a vector of character vectors.
pub open spec fn char_vecs_view(v: Seq<Vec<char>>) -> Seq<Seq<char>> {
    v.map_values(|w: Vec<char>| w@)
}

/// The words of `v[from..to]`.
pub fn words_in(v: &[char], from: usize, to: usize) -> (r: Vec<Vec<char>>)
    requires
        from <= to <= v@.len(),
    ensures
        char_vecs_view(r@) == words(v@.subrange(from as int, to as int)),
{
    let mut acc: Vec<Vec<char>> = Vec::new();
    let mut i = from;
    while i < to
        invariant
            from <= i <= to <= v@.len(),
            char_vecs_view(acc@) + words(v@.subrange(i as int, to as int))
                == words(v@.subrange(from as int, to as int)),
        decreases to - i,
    {
        let ghost rest = v@.subrange(i as int, to as int);
        if char_is_whitespace(v[i]) {
            assert(rest.drop_first() =~= v@.subrange(i + 1, to as int));
            i = i + 1;
        } else {
            let mut j = i;
            let mut word: Vec<char> = Vec::new();
            while j < to && !char_is_whitespace(v[j])
                invariant
                    i <= j <= to <= v@.len(),
                    word@ == v@.subrange(i as int, j as int),
                    forall|k: int| i <= k < j ==> !is_whitespace(#[trigger] v@[k]),
                decreases to - j,
            {
                word.push(v[j]);
                j = j + 1;
                assert(word@ =~= v@.subrange(i as int, j as int));
            }
            proof {
                assert forall|k: int| 0 <= k < j - i implies !is_whitespace(#[trigger] rest[k]) by {
                    assert(rest[k] == v@[i + k]);
                }
                lemma_word_end(rest, j - i);
                assert(rest.take(j - i) =~= word@);
                assert(rest.skip(j - i) =~= v@.subrange(j as int, to as int));
            }
            let ghost before = acc@;
            acc.push(word);
            assert(char_vecs_view(acc@) =~= char_vecs_view(before) + seq![word@]);
            i = j;
        }
    }
    assert(words(v@.subrange(to as int, to as int)) =~= Seq::<Seq<char>>::empty());
    assert(char_vecs_view(acc@) + Seq::<Seq<char>>::empty() =~= char_vecs_view(acc@));
    acc
}

/// `needle` occurs in `hay` starting at `i`.
pub open spec fn occurs_at(hay: Seq<char>, needle: Seq<char>, i: int) -> bool {
    0 <= i && i + needle.len() <= hay.len() && hay.subrange(i, i + needle.len()) == needle
}

/// `needle` occurs somewhere in `hay`.
pub open spec fn has_substring(hay: Seq<char>, needle: Seq<char>) -> bool {
    exists|i: int| occurs_at(hay, needle, i)
}

/// Whether `needle` occurs in `hay`.
pub fn contains_chars(hay: &[char], needle: &[char]) -> (r: bool)
    ensures
        r == has_substring(hay@, needle@),
{
    if needle.len() > hay.len() {
        assert forall|i: int| !occurs_at(hay@, needle@, i) by {}
        return false;
    }
    let hlen = hay.len();
    let mut i: usize = 0;
    while i <= hay.len() - needle.len()
        invariant
            hlen == hay@.len(),
            needle@.len() <= hay@.len(),
            i <= hay@.len() - needle@.len() + 1,
            forall|j: int| 0 <= j < i ==> !occurs_at(hay@, needle@, j),
        decreases hay@.len() - needle@.len() + 1 - i,
    {
        let mut k: usize = 0;
        let mut same = true;
        while k < needle.len()
            invariant
                hlen == hay@.len(),
                i + needle@.len() <= hay@.len(),
                k <= needle@.len(),
                same == (forall|t: int| 0 <= t < k ==> hay@[i + t] == needle@[t]),
            decreases needle@.len() - k,
        {
            if hay[i + k] != needle[k] {
                same = false;
            }
            k = k + 1;
        }
        if same {
            assert(hay@.subrange(i as int, i + needle@.len()) =~= needle@);
            assert(occurs_at(hay@, needle@, i as int));
            return true;
        }
        proof {
            if occurs_at(hay@, needle@, i as int) {
                assert forall|t: int| 0 <= t < k implies hay@[i + t] == needle@[t] by {
                    assert(hay@.subrange(i as int, i + needle@.len())[t] == needle@[t]);
                }
            }
        }
        i = i + 1;
    }
    false
}

} // verus!
