//! Character-level helpers shared by the parsers: character classes,
//! trimming, line splitting and conversions between `str` and `char` buffers.

use vstd::prelude::*;

verus! {

/// Trusted: `String::push` of the standard library appends the character
/// to the end of the string and changes nothing else of it.
pub assume_specification[ String::push ](s: &mut String, c: char)
    ensures
        final(s)@ == old(s)@.push(c),
;

/// The characters that carry the Unicode `White_Space` property.
pub open spec fn is_whitespace(c: char) -> bool {
    let u = c as u32;
    ||| 0x09 <= u <= 0x0D
    ||| u == 0x20
    ||| u == 0x85
    ||| u == 0xA0
    ||| u == 0x1680
    ||| 0x2000 <= u <= 0x200A
    ||| u == 0x2028
    ||| u == 0x2029
    ||| u == 0x202F
    ||| u == 0x205F
    ||| u == 0x3000
}

/// Whether `c` is whitespace.
pub fn char_is_whitespace(c: char) -> (r: bool)
    ensures
        r == is_whitespace(c),
{
    let u: u32 = c as u32;
    (0x09 <= u && u <= 0x0D) || u == 0x20 || u == 0x85 || u == 0xA0 || u == 0x1680 || (0x2000 <= u
        && u <= 0x200A) || u == 0x2028 || u == 0x2029 || u == 0x202F || u == 0x205F || u == 0x3000
}

/// An ASCII decimal digit.
pub open spec fn is_digit(c: char) -> bool {
    '0' <= c <= '9'
}

/// Whether `c` is an ASCII decimal digit.
pub fn char_is_digit(c: char) -> (r: bool)
    ensures
        r == is_digit(c),
{
    '0' <= c && c <= '9'
}

/// Number of characters at the front of `s` that satisfy `p`.
pub open spec fn count_leading(s: Seq<char>, p: spec_fn(char) -> bool) -> nat
    decreases s.len(),
{
    if s.len() > 0 && p(s[0]) {
        1 + count_leading(s.drop_first(), p)
    } else {
        0
    }
}

/// Number of characters at the back of `s` that satisfy `p`.
pub open spec fn count_trailing(s: Seq<char>, p: spec_fn(char) -> bool) -> nat
    decreases s.len(),
{
    if s.len() > 0 && p(s.last()) {
        1 + count_trailing(s.drop_last(), p)
    } else {
        0
    }
}

/// The leading count stays within the text, the characters it counts
/// satisfy the predicate, and the character after them does not.
pub proof fn lemma_count_leading_bound(s: Seq<char>, p: spec_fn(char) -> bool)
    ensures
        count_leading(s, p) <= s.len(),
        forall|i: int| 0 <= i < count_leading(s, p) ==> p(#[trigger] s[i]),
        count_leading(s, p) < s.len() ==> !p(s[count_leading(s, p) as int]),
    decreases s.len(),
{
    if s.len() > 0 && p(s[0]) {
        lemma_count_leading_bound(s.drop_first(), p);
        let k = count_leading(s.drop_first(), p);
        assert forall|i: int| 0 <= i < count_leading(s, p) implies p(#[trigger] s[i]) by {
            if i > 0 {
                assert(s[i] == s.drop_first()[i - 1]);
            }
        }
        if count_leading(s, p) < s.len() {
            assert(s[count_leading(s, p) as int] == s.drop_first()[k as int]);
        }
    }
}

/// A prefix of `k` matching characters followed by a mismatch (or the end)
/// fixes the leading count.
pub proof fn lemma_count_leading_is(s: Seq<char>, p: spec_fn(char) -> bool, k: int)
    requires
        0 <= k <= s.len(),
        forall|i: int| 0 <= i < k ==> p(#[trigger] s[i]),
        k < s.len() ==> !p(s[k]),
    ensures
        count_leading(s, p) == k,
    decreases s.len(),
{
    if k > 0 {
        let t = s.drop_first();
        assert forall|i: int| 0 <= i < k - 1 implies p(#[trigger] t[i]) by {
            assert(t[i] == s[i + 1]);
        }
        if k - 1 < t.len() {
            assert(t[k - 1] == s[k]);
        }
        lemma_count_leading_is(t, p, k - 1);
    }
}

/// The trailing count stays within the text, the characters it counts
/// satisfy the predicate, and the character before them does not.
pub proof fn lemma_count_trailing_bound(s: Seq<char>, p: spec_fn(char) -> bool)
    ensures
        count_trailing(s, p) <= s.len(),
        forall|i: int| s.len() - count_trailing(s, p) <= i < s.len() ==> p(#[trigger] s[i]),
        count_trailing(s, p) < s.len() ==> !p(s[s.len() - count_trailing(s, p) - 1]),
    decreases s.len(),
{
    if s.len() > 0 && p(s.last()) {
        lemma_count_trailing_bound(s.drop_last(), p);
        let t = s.drop_last();
        assert forall|i: int| s.len() - count_trailing(s, p) <= i < s.len() implies p(
            #[trigger] s[i],
        ) by {
            if i < s.len() - 1 {
                assert(s[i] == t[i]);
            }
        }
        if count_trailing(s, p) < s.len() {
            assert(s[s.len() - count_trailing(s, p) - 1] == t[t.len() - count_trailing(t, p) - 1]);
        }
    }
}

/// A suffix of `k` matching characters preceded by a mismatch (or the
/// start) fixes the trailing count.
pub proof fn lemma_count_trailing_is(s: Seq<char>, p: spec_fn(char) -> bool, k: int)
    requires
        0 <= k <= s.len(),
        forall|i: int| s.len() - k <= i < s.len() ==> p(#[trigger] s[i]),
        k < s.len() ==> !p(s[s.len() - k - 1]),
    ensures
        count_trailing(s, p) == k,
    decreases s.len(),
{
    if k > 0 {
        let t = s.drop_last();
        assert forall|i: int| t.len() - (k - 1) <= i < t.len() implies p(#[trigger] t[i]) by {
            assert(t[i] == s[i]);
        }
        if k - 1 < t.len() {
            assert(t[t.len() - (k - 1) - 1] == s[s.len() - k - 1]);
        }
        lemma_count_trailing_is(t, p, k - 1);
    }
}

/// `s` without its leading whitespace.
pub open spec fn trim_start(s: Seq<char>) -> Seq<char> {
    s.skip(count_leading(s, |c: char| is_whitespace(c)) as int)
}

/// `s` without its trailing whitespace.
pub open spec fn trim_end(s: Seq<char>) -> Seq<char> {
    s.take(s.len() - count_trailing(s, |c: char| is_whitespace(c)))
}

/// `s` without leading and trailing whitespace.
pub open spec fn trim(s: Seq<char>) -> Seq<char> {
    trim_end(trim_start(s))
}

/// Number of leading spaces of `s`.
pub open spec fn indent_of(s: Seq<char>) -> nat {
    count_leading(s, |c: char| c == ' ')
}

/// The characters of a string slice, in order.
pub fn to_chars(s: &str) -> (v: Vec<char>)
    ensures
        v@ == s@,
{
    let mut v: Vec<char> = Vec::new();
    let it0 = s.chars();
    for c in it: it0
        invariant
            v@ == it.seq().take(it.index() as int),
    {
        v.push(c);
    }
    v
}

/// A string holding the characters of `v`, in order.
pub fn from_chars(v: &[char]) -> (s: String)
    ensures
        s@ == v@,
{
    let mut s = String::new();
    let mut i: usize = 0;
    while i < v.len()
        invariant
            i <= v.len(),
            s@ == v@.take(i as int),
        decreases v.len() - i,
    {
        s.push(v[i]);
        i += 1;
    }
    s
}

/// Appends the characters of `src` to `dst`.
pub fn extend_chars(dst: &mut Vec<char>, src: &[char])
    ensures
        final(dst)@ == old(dst)@ + src@,
{
    let mut i: usize = 0;
    while i < src.len()
        invariant
            i <= src.len(),
            dst@ == old(dst)@ + src@.take(i as int),
        decreases src.len() - i,
    {
        dst.push(src[i]);
        i += 1;
    }
}

/// Index of the first non-whitespace character of `s` (its length if none).
pub fn leading_whitespace(s: &[char]) -> (k: usize)
    ensures
        k == count_leading(s@, |c: char| is_whitespace(c)),
        k <= s.len(),
{
    let mut k: usize = 0;
    while k < s.len() && char_is_whitespace(s[k])
        invariant
            k <= s.len(),
            forall|i: int| 0 <= i < k ==> is_whitespace(#[trigger] s@[i]),
        decreases s.len() - k,
    {
        k += 1;
    }
    proof {
        lemma_count_leading_is(s@, |c: char| is_whitespace(c), k as int);
    }
    k
}

/// Number of whitespace characters at the end of `s`.
pub fn trailing_whitespace(s: &[char]) -> (k: usize)
    ensures
        k == count_trailing(s@, |c: char| is_whitespace(c)),
        k <= s.len(),
{
    let n = s.len();
    let mut k: usize = 0;
    while k < n && char_is_whitespace(s[n - k - 1])
        invariant
            n == s.len(),
            k <= n,
            forall|i: int| n - k <= i < n ==> is_whitespace(#[trigger] s@[i]),
        decreases n - k,
    {
        k += 1;
    }
    proof {
        lemma_count_trailing_is(s@, |c: char| is_whitespace(c), k as int);
    }
    k
}

/// `s` without its leading whitespace.
pub fn trim_start_chars<'a>(s: &'a [char]) -> (r: &'a [char])
    ensures
        r@ == trim_start(s@),
{
    let k = leading_whitespace(s);
    vstd::slice::slice_subrange(s, k, s.len())
}

/// `s` without its trailing whitespace.
pub fn trim_end_chars<'a>(s: &'a [char]) -> (r: &'a [char])
    ensures
        r@ == trim_end(s@),
{
    let k = trailing_whitespace(s);
    vstd::slice::slice_subrange(s, 0, s.len() - k)
}

/// `s` without leading and trailing whitespace.
pub fn trim_chars<'a>(s: &'a [char]) -> (r: &'a [char])
    ensures
        r@ == trim(s@),
{
    trim_end_chars(trim_start_chars(s))
}

/// Number of leading spaces of `s`.
pub fn count_indent(s: &[char]) -> (k: usize)
    ensures
        k == indent_of(s@),
        k <= s.len(),
{
    let mut k: usize = 0;
    while k < s.len() && s[k] == ' '
        invariant
            k <= s.len(),
            forall|i: int| 0 <= i < k ==> #[trigger] s@[i] == ' ',
        decreases s.len() - k,
    {
        k += 1;
    }
    proof {
        lemma_count_leading_is(s@, |c: char| c == ' ', k as int);
    }
    k
}

/// Index of the first occurrence of `c` in `s`, or the length of `s` if
/// there is none.
pub open spec fn index_of(s: Seq<char>, c: char) -> nat {
    count_leading(s, is_not(c))
}

/// The predicate "differs from `c`".
pub open spec fn is_not(c: char) -> spec_fn(char) -> bool {
    |x: char| x != c
}

/// Whether `c` occurs in `s`.
pub open spec fn contains_char(s: Seq<char>, c: char) -> bool {
    index_of(s, c) < s.len()
}

/// `s` without one trailing carriage return, if it ends in one.
pub open spec fn strip_cr(s: Seq<char>) -> Seq<char> {
    if s.len() > 0 && s.last() == '\r' {
        s.drop_last()
    } else {
        s
    }
}

/// The lines of `s`: the text is cut at every line feed, a carriage return
/// directly before the cut is dropped, and text after the last line feed
/// makes a final line only if it is not empty.
pub open spec fn split_lines(s: Seq<char>) -> Seq<Seq<char>>
    decreases s.len(),
{
    if s.len() == 0 {
        seq![]
    } else {
        let k = index_of(s, '\n');
        if k < s.len() {
            seq![strip_cr(s.take(k as int))] + split_lines(s.skip(k as int + 1))
        } else {
            seq![strip_cr(s)]
        }
    }
}

/// The lines joined into one text with a line feed between neighbours.
pub open spec fn join_lines(lines: Seq<Seq<char>>) -> Seq<char>
    decreases lines.len(),
{
    if lines.len() == 0 {
        seq![]
    } else if lines.len() == 1 {
        lines[0]
    } else {
        join_lines(lines.drop_last()) + seq!['\n'] + lines.last()
    }
}

/// The character sequences that a list of slices stands for.
pub open spec fn slices_view(v: Seq<&[char]>) -> Seq<Seq<char>> {
    v.map_values(|l: &[char]| l@)
}

/// The character sequences that a list of buffers stands for.
pub open spec fn vecs_view(v: Seq<Vec<char>>) -> Seq<Seq<char>> {
    v.map_values(|l: Vec<char>| l@)
}

/// Position of the first `c` at or after `from`, or the length of `s`.
pub fn find_char(s: &[char], from: usize, c: char) -> (k: usize)
    requires
        from <= s.len(),
    ensures
        from <= k <= s.len(),
        k == from + index_of(s@.skip(from as int), c),
        forall|i: int| from <= i < k ==> #[trigger] s@[i] != c,
        k < s.len() ==> s@[k as int] == c,
{
    let mut k: usize = from;
    while k < s.len() && s[k] != c
        invariant
            from <= k <= s.len(),
            forall|i: int| from <= i < k ==> #[trigger] s@[i] != c,
        decreases s.len() - k,
    {
        k += 1;
    }
    proof {
        let t = s@.skip(from as int);
        assert forall|i: int| 0 <= i < k - from implies is_not(c)(#[trigger] t[i]) by {
            assert(t[i] == s@[i + from]);
        }
        if k < s.len() {
            assert(t[k - from] == s@[k as int]);
        }
        lemma_count_leading_is(t, is_not(c), k - from);
    }
    k
}

/// `s` without one trailing carriage return.
pub fn strip_cr_chars<'a>(s: &'a [char]) -> (r: &'a [char])
    ensures
        r@ == strip_cr(s@),
{
    let n = s.len();
    if n > 0 && s[n - 1] == '\r' {
        vstd::slice::slice_subrange(s, 0, n - 1)
    } else {
        s
    }
}

/// The lines of `s`, each a slice of it.
pub fn split_lines_chars<'a>(s: &'a [char]) -> (r: Vec<&'a [char]>)
    ensures
        slices_view(r@) == split_lines(s@),
{
    let mut out: Vec<&'a [char]> = Vec::new();
    let mut start: usize = 0;
    let n = s.len();
    proof {
        assert(s@.skip(0) == s@);
        assert(slices_view(out@) + split_lines(s@) == split_lines(s@));
    }
    while start < n
        invariant
            n == s.len(),
            start <= n,
            slices_view(out@) + split_lines(s@.skip(start as int)) == split_lines(s@),
        decreases n - start,
    {
        let k = find_char(s, start, '\n');
        let line = strip_cr_chars(vstd::slice::slice_subrange(s, start, k));
        let ghost rest = s@.skip(start as int);
        let ghost before = slices_view(out@);
        out.push(line);
        proof {
            assert(slices_view(out@) == before.push(line@));
            if k < n {
                assert(rest.take(k - start) == s@.subrange(start as int, k as int));
                assert(rest.skip(k - start + 1) == s@.skip(k + 1));
                assert(before.push(line@) + split_lines(s@.skip(k + 1)) == before + split_lines(
                    rest,
                ));
            } else {
                assert(rest == s@.subrange(start as int, k as int));
                assert(s@.skip(n as int).len() == 0);
                assert(before.push(line@) + split_lines(s@.skip(n as int)) == before + split_lines(
                    rest,
                ));
            }
        }
        if k < n {
            start = k + 1;
        } else {
            start = n;
        }
    }
    proof {
        assert(split_lines(s@.skip(n as int)) == Seq::<Seq<char>>::empty());
        assert(slices_view(out@) + Seq::<Seq<char>>::empty() == slices_view(out@));
    }
    out
}

/// The lines joined with a line feed between neighbours.
pub fn join_lines_chars(lines: &Vec<&[char]>) -> (r: Vec<char>)
    ensures
        r@ == join_lines(slices_view(lines@)),
{
    let mut out: Vec<char> = Vec::new();
    let mut i: usize = 0;
    let ghost all = slices_view(lines@);
    while i < lines.len()
        invariant
            i <= lines.len(),
            all == slices_view(lines@),
            out@ == join_lines(all.take(i as int)),
        decreases lines.len() - i,
    {
        if i > 0 {
            out.push('\n');
        }
        extend_chars(&mut out, lines[i]);
        proof {
            let t = all.take(i + 1);
            assert(t.drop_last() == all.take(i as int));
            assert(t.last() == lines@[i as int]@);
        }
        i += 1;
    }
    proof {
        assert(all.take(lines.len() as int) == all);
    }
    out
}

} // verus!
