//! String helpers: truncation with ellipsis, padding, splitting and trimming.
//! Lengths and widths are counted in `char`s.

use vstd::prelude::*;
use vstd::string::*;
use vstd::std_specs::iter::IteratorSpec;

verus! {

/// `s` padded on the right with spaces up to `width` chars, or `s` itself when it is
/// already at least that long.
pub open spec fn spec_pad_right(s: Seq<char>, width: nat) -> Seq<char> {
    if s.len() >= width {
        s
    } else {
        s + Seq::new((width - s.len()) as nat, |i: int| ' ')
    }
}

/// Pad `s` on the right with spaces to reach `width` chars.
pub fn pad_right(s: &str, width: usize) -> (r: String)
    ensures
        r@ == spec_pad_right(s@, width as nat),
{
    let char_count = s.unicode_len();
    if char_count >= width {
        return s.to_owned();
    }
    let mut result = s.to_owned();
    let mut i: usize = char_count;
    let space = " ";
    proof {
        reveal_strlit(" ");
    }
    while i < width
        invariant
            char_count == s@.len(),
            char_count <= i <= width,
            space@ == seq![' '],
            result@ == s@ + Seq::new((i - char_count) as nat, |k: int| ' '),
        decreases width - i,
    {
        result.append(space);
        i = i + 1;
        assert(result@ =~= s@ + Seq::new((i - char_count) as nat, |k: int| ' '));
    }
    result
}


/// `s` padded on the left with spaces up to `width` chars, or `s` itself when it is
/// already at least that long.
pub open spec fn spec_pad_left(s: Seq<char>, width: nat) -> Seq<char> {
    if s.len() >= width {
        s
    } else {
        Seq::new((width - s.len()) as nat, |i: int| ' ') + s
    }
}

/// Pad `s` on the left with spaces to reach `width` chars.
pub fn pad_left(s: &str, width: usize) -> (r: String)
    ensures
        r@ == spec_pad_left(s@, width as nat),
{
    let char_count = s.unicode_len();
    if char_count >= width {
        return s.to_owned();
    }
    let mut result = String::new();
    let mut i: usize = char_count;
    let space = " ";
    proof {
        reveal_strlit(" ");
    }
    while i < width
        invariant
            char_count == s@.len(),
            char_count <= i <= width,
            space@ == seq![' '],
            result@ == Seq::new((i - char_count) as nat, |k: int| ' '),
        decreases width - i,
    {
        result.append(space);
        i = i + 1;
        assert(result@ =~= Seq::new((i - char_count) as nat, |k: int| ' '));
    }
    result.append(s);
    result
}

/// The result of truncating `s` to at most `max_width` chars: `s` itself when it fits;
/// its first `max_width` chars when `max_width` is less than the ellipsis length;
/// otherwise its first `max_width - |ellipsis|` chars followed by `ellipsis`.
pub open spec fn spec_truncate(s: Seq<char>, max_width: nat, ellipsis: Seq<char>) -> Seq<char> {
    if s.len() <= max_width {
        s
    } else if max_width < ellipsis.len() {
        s.take(max_width as int)
    } else {
        s.take(max_width - ellipsis.len()) + ellipsis
    }
}

/// Truncate `s` to at most `max_width` chars, ending in `ellipsis` when it was cut
/// and there is room for it.
pub fn truncate(s: &str, max_width: usize, ellipsis: &str) -> (r: String)
    ensures
        r@ == spec_truncate(s@, max_width as nat, ellipsis@),
        r@.len() <= max_width || r@ == s@,
{
    let char_count = s.unicode_len();
    if char_count <= max_width {
        return s.to_owned();
    }
    let ellipsis_len = ellipsis.unicode_len();
    if max_width < ellipsis_len {
        return s.substring_char(0, max_width).to_owned();
    }
    let keep = max_width - ellipsis_len;
    let mut result = s.substring_char(0, keep).to_owned();
    result.append(ellipsis);
    result
}


/// The chars of `s`, in order.
pub(crate) fn chars_of(s: &str) -> (v: Vec<char>)
    ensures
        v@ == s@,
{
    broadcast use vstd::string::group_string_axioms;
    let mut v: Vec<char> = Vec::new();
    let mut it = s.chars();
    loop
        invariant
            v@ + it.remaining() == s@,
            it.decrease() is Some,
        ensures
            v@ == s@,
        decreases it.decrease()->0,
    {
        match it.next() {
            Some(c) => {
                v.push(c);
                assert(v@ + it.remaining() =~= s@);
            },
            None => {
                break;
            },
        }
    }
    v
}

/// Split `s` at the first occurrence of `delim`, returning the parts before and after
/// it, or `None` when `delim` does not occur.
pub fn split_first(s: &str, delim: char) -> (r: Option<(&str, &str)>)
    ensures
        r is None <==> !s@.contains(delim),
        r matches Some(parts) ==> {
            &&& s@ == parts.0@ + seq![delim] + parts.1@
            &&& !parts.0@.contains(delim)
        },
{
    let chars = chars_of(s);
    let n = chars.len();
    let mut i: usize = 0;
    while i < n
        invariant
            n == chars@.len(),
            chars@ == s@,
            i <= n,
            forall|j: int| 0 <= j < i ==> chars@[j] != delim,
        decreases n - i,
    {
        if chars[i] == delim {
            let before = s.substring_char(0, i);
            let after = s.substring_char(i + 1, n);
            assert(s@ =~= before@ + seq![delim] + after@);
            return Some((before, after));
        }
        i = i + 1;
    }
    None
}


/// Whether `c` has the Unicode `White_Space` property (the set `char::is_whitespace`
/// documents).
pub open spec fn is_white_space(c: char) -> bool {
    let n = c as u32;
    ||| 0x9 <= n <= 0xD
    ||| n == 0x20
    ||| n == 0x85
    ||| n == 0xA0
    ||| n == 0x1680
    ||| 0x2000 <= n <= 0x200A
    ||| n == 0x2028
    ||| n == 0x2029
    ||| n == 0x202F
    ||| n == 0x205F
    ||| n == 0x3000
}

/// Decide [`is_white_space`] for `c`.
pub fn is_whitespace_char(c: char) -> (b: bool)
    ensures
        b == is_white_space(c),
{
    let n = c as u32;
    (0x9 <= n && n <= 0xD) || n == 0x20 || n == 0x85 || n == 0xA0 || n == 0x1680 || (0x2000
        <= n && n <= 0x200A) || n == 0x2028 || n == 0x2029 || n == 0x202F || n == 0x205F || n
        == 0x3000
}

/// `s` without its leading white space.
pub open spec fn trim_start_seq(s: Seq<char>) -> Seq<char>
    decreases s.len(),
{
    if s.len() > 0 && is_white_space(s[0]) {
        trim_start_seq(s.drop_first())
    } else {
        s
    }
}

/// `s` without its trailing white space.
pub open spec fn trim_end_seq(s: Seq<char>) -> Seq<char>
    decreases s.len(),
{
    if s.len() > 0 && is_white_space(s.last()) {
        trim_end_seq(s.drop_last())
    } else {
        s
    }
}

/// `s` without white space at either end.
pub open spec fn trim_seq(s: Seq<char>) -> Seq<char> {
    trim_end_seq(trim_start_seq(s))
}

/// Skipping a white-space prefix does not change what trimming the start gives.
proof fn lemma_trim_start_skip(s: Seq<char>, k: int)
    requires
        0 <= k <= s.len(),
        forall|j: int| 0 <= j < k ==> is_white_space(#[trigger] s[j]),
    ensures
        trim_start_seq(s) == trim_start_seq(s.skip(k)),
    decreases k,
{
    if k > 0 {
        assert(s.drop_first().skip(k - 1) =~= s.skip(k));
        lemma_trim_start_skip(s.drop_first(), k - 1);
    } else {
        assert(s.skip(0) =~= s);
    }
}

/// Dropping a white-space suffix does not change what trimming the end gives.
proof fn lemma_trim_end_take(s: Seq<char>, k: int)
    requires
        0 <= k <= s.len(),
        forall|j: int| k <= j < s.len() ==> is_white_space(#[trigger] s[j]),
    ensures
        trim_end_seq(s) == trim_end_seq(s.take(k)),
    decreases s.len() - k,
{
    if k < s.len() {
        assert(s.drop_last().take(k) =~= s.take(k));
        lemma_trim_end_take(s.drop_last(), k);
    } else {
        assert(s.take(k) =~= s);
    }
}

/// Index of the first char of `chars` at or after `from` that is not white space, or
/// `chars.len()` when there is none.
fn first_non_ws(chars: &Vec<char>, from: usize) -> (i: usize)
    requires
        from <= chars@.len(),
    ensures
        from <= i <= chars@.len(),
        forall|j: int| from <= j < i ==> is_white_space(#[trigger] chars@[j]),
        i < chars@.len() ==> !is_white_space(chars@[i as int]),
{
    let mut i = from;
    while i < chars.len()
        invariant
            from <= i <= chars@.len(),
            forall|j: int| from <= j < i ==> is_white_space(#[trigger] chars@[j]),
        decreases chars@.len() - i,
    {
        if !is_whitespace_char(chars[i]) {
            return i;
        }
        i = i + 1;
    }
    i
}

/// Index just past the last char of `chars` before `to` and at or after `from` that is
/// not white space, or `from` when there is none.
fn end_non_ws(chars: &Vec<char>, from: usize, to: usize) -> (i: usize)
    requires
        from <= to <= chars@.len(),
    ensures
        from <= i <= to,
        forall|j: int| i <= j < to ==> is_white_space(#[trigger] chars@[j]),
        i > from ==> !is_white_space(chars@[i - 1]),
{
    let mut i = to;
    while i > from
        invariant
            from <= i <= to,
            to <= chars@.len(),
            forall|j: int| i <= j < to ==> is_white_space(#[trigger] chars@[j]),
        decreases i,
    {
        if !is_whitespace_char(chars[i - 1]) {
            return i;
        }
        i = i - 1;
    }
    i
}

/// Remove leading white space from `s`.
pub fn trim_start(s: &str) -> (r: String)
    ensures
        r@ == trim_start_seq(s@),
{
    let chars = chars_of(s);
    let n = chars.len();
    let i = first_non_ws(&chars, 0);
    proof {
        lemma_trim_start_skip(s@, i as int);
    }
    s.substring_char(i, n).to_owned()
}

/// Remove trailing white space from `s`.
pub fn trim_end(s: &str) -> (r: String)
    ensures
        r@ == trim_end_seq(s@),
{
    let chars = chars_of(s);
    let n = chars.len();
    let j = end_non_ws(&chars, 0, n);
    proof {
        lemma_trim_end_take(s@, j as int);
        assert(s@ =~= s@.take(n as int));
    }
    s.substring_char(0, j).to_owned()
}

/// Remove white space from both ends of `s`.
pub fn trim(s: &str) -> (r: String)
    ensures
        r@ == trim_seq(s@),
{
    let chars = chars_of(s);
    let n = chars.len();
    let i = first_non_ws(&chars, 0);
    let j = end_non_ws(&chars, i, n);
    proof {
        lemma_trim_start_skip(s@, i as int);
        let t = s@.skip(i as int);
        assert forall|k: int| j - i <= k < t.len() implies is_white_space(#[trigger] t[k]) by {
            assert(t[k] == chars@[k + i]);
        }
        lemma_trim_end_take(t, j - i);
        assert(t.take(j - i) =~= s@.subrange(i as int, j as int));
    }
    s.substring_char(i, j).to_owned()
}


/// Trimming the start of `s` drops exactly its first `i` chars when those are white
/// space and the next one (if any) is not.
proof fn lemma_trim_start_eq(s: Seq<char>, i: int)
    requires
        0 <= i <= s.len(),
        forall|k: int| 0 <= k < i ==> is_white_space(#[trigger] s[k]),
        i < s.len() ==> !is_white_space(s[i]),
    ensures
        trim_start_seq(s) == s.skip(i),
{
    lemma_trim_start_skip(s, i);
    if i < s.len() {
        assert(s.skip(i)[0] == s[i]);
    }
}

/// Trimming the end of `s` keeps exactly its first `j` chars when the rest is white
/// space and the char before (if any) is not.
proof fn lemma_trim_end_eq(s: Seq<char>, j: int)
    requires
        0 <= j <= s.len(),
        forall|k: int| j <= k < s.len() ==> is_white_space(#[trigger] s[k]),
        j > 0 ==> !is_white_space(s[j - 1]),
    ensures
        trim_end_seq(s) == s.take(j),
{
    lemma_trim_end_take(s, j);
    if j > 0 {
        assert(s.take(j).last() == s[j - 1]);
    }
}

/// The number of leading white-space chars of `s`.
proof fn lemma_leading_ws(s: Seq<char>) -> (i: int)
    ensures
        0 <= i <= s.len(),
        forall|k: int| 0 <= k < i ==> is_white_space(#[trigger] s[k]),
        i < s.len() ==> !is_white_space(s[i]),
    decreases s.len(),
{
    if s.len() > 0 && is_white_space(s[0]) {
        let i = lemma_leading_ws(s.drop_first());
        assert forall|k: int| 0 <= k < i + 1 implies is_white_space(#[trigger] s[k]) by {
            if k > 0 {
                assert(s[k] == s.drop_first()[k - 1]);
            }
        }
        if i + 1 < s.len() {
            assert(s[i + 1] == s.drop_first()[i]);
        }
        i + 1
    } else {
        0
    }
}

/// The length of `s` without its trailing white space.
proof fn lemma_trailing_ws(s: Seq<char>) -> (j: int)
    ensures
        0 <= j <= s.len(),
        forall|k: int| j <= k < s.len() ==> is_white_space(#[trigger] s[k]),
        j > 0 ==> !is_white_space(s[j - 1]),
    decreases s.len(),
{
    if s.len() > 0 && is_white_space(s.last()) {
        let j = lemma_trailing_ws(s.drop_last());
        assert forall|k: int| j <= k < s.len() implies is_white_space(#[trigger] s[k]) by {
            if k < s.len() - 1 {
                assert(s[k] == s.drop_last()[k]);
            }
        }
        if j > 0 {
            assert(s[j - 1] == s.drop_last()[j - 1]);
        }
        j
    } else {
        s.len() as int
    }
}

/// Trimming keeps the chars of `s` between its leading and trailing white space, and
/// what is left neither starts nor ends with white space.
pub proof fn lemma_trim_bounds(s: Seq<char>)
    ensures
        exists|i: int, j: int| 0 <= i <= j <= s.len() && trim_seq(s) == s.subrange(i, j),
        trim_seq(s).len() > 0 ==> !is_white_space(trim_seq(s)[0]) && !is_white_space(
            trim_seq(s).last(),
        ),
{
    let i = lemma_leading_ws(s);
    let j = lemma_trailing_ws(s);
    lemma_trim_start_eq(s, i);
    let t = s.skip(i);
    if i == s.len() {
        assert(t.len() == 0);
        assert(trim_end_seq(t) == t);
        assert(trim_seq(s) == s.subrange(i, i));
    } else {
        assert(i < j) by {
            if j <= i {
                assert(is_white_space(s[i]));
            }
        }
        assert forall|k: int| j - i <= k < t.len() implies is_white_space(#[trigger] t[k]) by {
            assert(t[k] == s[k + i]);
        }
        assert(t[j - i - 1] == s[j - 1]);
        lemma_trim_end_eq(t, j - i);
        assert(t.take(j - i) =~= s.subrange(i, j));
        assert(s.subrange(i, j)[0] == s[i]);
        assert(s.subrange(i, j).last() == s[j - 1]);
    }
}

/// Trimming removes white space and nothing else: `trim(s)` is the run of `s` between a
/// prefix and a suffix made of white space only, and it neither starts nor ends with
/// white space, so every char between the first and the last non-white-space char of
/// `s` is kept.
pub proof fn lemma_trim_keeps_inner(s: Seq<char>)
    ensures
        exists|i: int, j: int|
            #![trigger s.subrange(i, j)]
            {
                &&& 0 <= i <= j <= s.len()
                &&& trim_seq(s) == s.subrange(i, j)
                &&& forall|k: int| 0 <= k < i ==> is_white_space(#[trigger] s[k])
                &&& forall|k: int| j <= k < s.len() ==> is_white_space(#[trigger] s[k])
                &&& i < j ==> !is_white_space(s[i]) && !is_white_space(s[j - 1])
            },
{
    let i = lemma_leading_ws(s);
    let j = lemma_trailing_ws(s);
    lemma_trim_start_eq(s, i);
    let t = s.skip(i);
    if i == s.len() {
        assert(t.len() == 0);
        assert(trim_end_seq(t) == t);
        assert(trim_seq(s) =~= s.subrange(i, i));
    } else {
        assert(i < j) by {
            if j <= i {
                assert(is_white_space(s[i]));
            }
        }
        assert forall|k: int| j - i <= k < t.len() implies is_white_space(#[trigger] t[k]) by {
            assert(t[k] == s[k + i]);
        }
        assert(t[j - i - 1] == s[j - 1]);
        lemma_trim_end_eq(t, j - i);
        assert(t.take(j - i) =~= s.subrange(i, j));
    }
}

/// Trimming the start removes a white-space prefix and nothing else: the result is `s`
/// from its first non-white-space char on.
pub proof fn lemma_trim_start_keeps_rest(s: Seq<char>)
    ensures
        exists|i: int|
            #![trigger s.skip(i)]
            {
                &&& 0 <= i <= s.len()
                &&& trim_start_seq(s) == s.skip(i)
                &&& forall|k: int| 0 <= k < i ==> is_white_space(#[trigger] s[k])
                &&& i < s.len() ==> !is_white_space(s[i])
            },
{
    let i = lemma_leading_ws(s);
    lemma_trim_start_eq(s, i);
}

/// Trimming the end removes a white-space suffix and nothing else: the result is `s` up
/// to and including its last non-white-space char.
pub proof fn lemma_trim_end_keeps_rest(s: Seq<char>)
    ensures
        exists|j: int|
            #![trigger s.take(j)]
            {
                &&& 0 <= j <= s.len()
                &&& trim_end_seq(s) == s.take(j)
                &&& forall|k: int| j <= k < s.len() ==> is_white_space(#[trigger] s[k])
                &&& j > 0 ==> !is_white_space(s[j - 1])
            },
{
    let j = lemma_trailing_ws(s);
    lemma_trim_end_eq(s, j);
}

/// Trimming the start and then the end gives what trimming the end and then the start
/// gives.
pub proof fn lemma_trim_commutes(s: Seq<char>)
    ensures
        trim_end_seq(trim_start_seq(s)) == trim_start_seq(trim_end_seq(s)),
{
    let i = lemma_leading_ws(s);
    let j = lemma_trailing_ws(s);
    lemma_trim_start_eq(s, i);
    lemma_trim_end_eq(s, j);
    let t = s.skip(i);
    let u = s.take(j);
    if i == s.len() {
        assert(j == 0) by {
            if j > 0 {
                assert(is_white_space(s[j - 1]));
            }
        }
        assert(t.len() == 0 && u.len() == 0);
        assert(trim_end_seq(t) == t);
        assert(trim_start_seq(u) == u);
        assert(t =~= u);
    } else {
        assert(i < j) by {
            if j <= i {
                assert(is_white_space(s[i]));
            }
        }
        assert forall|k: int| j - i <= k < t.len() implies is_white_space(#[trigger] t[k]) by {
            assert(t[k] == s[k + i]);
        }
        assert(t[j - i - 1] == s[j - 1]);
        lemma_trim_end_eq(t, j - i);
        assert forall|k: int| 0 <= k < i implies is_white_space(#[trigger] u[k]) by {
            assert(u[k] == s[k]);
        }
        assert(u[i] == s[i]);
        lemma_trim_start_eq(u, i);
        assert(t.take(j - i) =~= u.skip(i));
    }
}

/// Trimming, or trimming either end, a second time changes nothing.
pub proof fn lemma_trim_idempotent(s: Seq<char>)
    ensures
        trim_seq(trim_seq(s)) == trim_seq(s),
        trim_start_seq(trim_start_seq(s)) == trim_start_seq(s),
        trim_end_seq(trim_end_seq(s)) == trim_end_seq(s),
{
    lemma_trim_bounds(s);
    let t = trim_seq(s);
    if t.len() > 0 {
        lemma_trim_start_eq(t, 0);
        assert(t.skip(0) =~= t);
        lemma_trim_end_eq(t, t.len() as int);
        assert(t.take(t.len() as int) =~= t);
    } else {
        assert(trim_start_seq(t) == t);
        assert(trim_end_seq(t) == t);
    }
    let i = lemma_leading_ws(s);
    lemma_trim_start_eq(s, i);
    let a = s.skip(i);
    lemma_trim_start_eq(a, 0);
    if i < s.len() {
        assert(a[0] == s[i]);
    }
    assert(a.skip(0) =~= a);
    let j = lemma_trailing_ws(s);
    lemma_trim_end_eq(s, j);
    let b = s.take(j);
    if j > 0 {
        assert(b[j - 1] == s[j - 1]);
    }
    lemma_trim_end_eq(b, j);
    assert(b.take(j) =~= b);
}

/// Padding gives `max(len, width)` chars: `s` followed (on the right) or preceded (on
/// the left) by spaces only.
pub proof fn lemma_pad_shape(s: Seq<char>, width: nat)
    ensures
        spec_pad_right(s, width).len() == if s.len() >= width {
            s.len()
        } else {
            width
        },
        spec_pad_left(s, width).len() == spec_pad_right(s, width).len(),
        spec_pad_right(s, width).take(s.len() as int) == s,
        spec_pad_left(s, width).skip(spec_pad_left(s, width).len() - s.len()) == s,
        forall|k: int|
            s.len() <= k < spec_pad_right(s, width).len() ==> #[trigger] spec_pad_right(s, width)[k]
                == ' ',
        forall|k: int|
            0 <= k < spec_pad_left(s, width).len() - s.len() ==> #[trigger] spec_pad_left(s, width)[k]
                == ' ',
{
    let r = spec_pad_right(s, width);
    let l = spec_pad_left(s, width);
    assert(r.take(s.len() as int) =~= s);
    assert(l.skip(l.len() - s.len()) =~= s);
}

/// A truncated string never exceeds the width unless it is `s` itself, begins with a
/// prefix of `s`, and ends with the ellipsis exactly when it was cut with room for it.
pub proof fn lemma_truncate_shape(s: Seq<char>, max_width: nat, ellipsis: Seq<char>)
    ensures
        s.len() <= max_width ==> spec_truncate(s, max_width, ellipsis) == s,
        s.len() > max_width ==> spec_truncate(s, max_width, ellipsis).len() == max_width,
        s.len() > max_width && max_width >= ellipsis.len() ==> {
            &&& spec_truncate(s, max_width, ellipsis).take(max_width - ellipsis.len()) == s.take(
                max_width - ellipsis.len(),
            )
            &&& spec_truncate(s, max_width, ellipsis).skip(max_width - ellipsis.len()) == ellipsis
        },
        s.len() > max_width && max_width < ellipsis.len() ==> spec_truncate(
            s,
            max_width,
            ellipsis,
        ) == s.take(max_width as int),
{
    if s.len() > max_width && max_width >= ellipsis.len() {
        let k = max_width - ellipsis.len();
        let r = spec_truncate(s, max_width, ellipsis);
        assert(r.take(k) =~= s.take(k));
        assert(r.skip(k) =~= ellipsis);
    }
}

} // verus!
