//! Character-level building blocks: equality of string slices, line
//! splitting, whitespace tokens and substring search, each with a
//! mathematical model over `Seq<char>`.
use vstd::prelude::*;
use vstd::utf8::{encode_utf8, encode_utf8_decode_utf8};

verus! {

/// The code points that carry the Unicode `White_Space` property.
pub open spec fn whitespace(c: char) -> bool {
    let u = c as u32;
    ||| 0x09 <= u <= 0x0D
    ||| u == 0x20
    ||| u == 0x85
    ||| u == 0xA0
    ||| u == 0x1680
    ||| 0x2000 <= u <= 0x200A
    ||| u == 0x2028
    ||| u == 0x2029
    ||| u == 0x202F
    ||| u == 0x205F
    ||| u == 0x3000
}

/// Tells whether `c` is a Unicode whitespace character.
pub fn is_whitespace(c: char) -> (b: bool)
    ensures
        b == whitespace(c),
{
    let u: u32 = c as u32;
    (0x09 <= u && u <= 0x0D) || u == 0x20 || u == 0x85 || u == 0xA0 || u == 0x1680 || (0x2000 <= u
        && u <= 0x200A) || u == 0x2028 || u == 0x2029 || u == 0x202F || u == 0x205F || u == 0x3000
}

/// The characters of `s`, in order.
pub fn to_chars(s: &str) -> (v: Vec<char>)
    ensures
        v@ == s@,
{
    let mut v: Vec<char> = Vec::new();
    for c in it: s.chars()
        invariant
            v@ == it.seq().take(it.index() as int),
            it.seq() == s@,
    {
        v.push(c);
    }
    v
}

/// Two string slices hold the same characters exactly when their UTF-8
/// encodings agree byte for byte.
pub fn str_eq(a: &str, b: &str) -> (r: bool)
    ensures
        r == (a@ == b@),
{
    let x = a.as_bytes();
    let y = b.as_bytes();
    proof {
        encode_utf8_decode_utf8(a@);
        encode_utf8_decode_utf8(b@);
    }
    if x.len() != y.len() {
        return false;
    }
    let n = x.len();
    let mut i: usize = 0;
    while i < n
        invariant
            i <= n,
            n == x@.len(),
            n == y@.len(),
            x@ == encode_utf8(a@),
            y@ == encode_utf8(b@),
            forall|k: int| 0 <= k < i ==> x@[k] == y@[k],
        decreases n - i,
    {
        if x[i] != y[i] {
            assert(x@[i as int] != y@[i as int]);
            return false;
        }
        i += 1;
    }
    assert(x@ =~= y@);
    true
}

/// Position of the first line feed in `s`, or `s.len()` where there is none.
pub open spec fn newline_index(s: Seq<char>) -> int
    decreases s.len(),
{
    if s.len() == 0 || s[0] == '\n' {
        0
    } else {
        1 + newline_index(s.drop_first())
    }
}

/// `line` without one trailing carriage return.
pub open spec fn strip_cr(line: Seq<char>) -> Seq<char> {
    if line.len() > 0 && line.last() == '\r' {
        line.drop_last()
    } else {
        line
    }
}

/// The lines of `s`. A line ends at a line feed; a carriage return just
/// before that line feed belongs to the terminator. The terminator of the
/// last line is optional, and a last line without one is kept as it stands.
pub open spec fn lines_of(s: Seq<char>) -> Seq<Seq<char>>
    decreases s.len(),
{
    let n = newline_index(s);
    if s.len() == 0 {
        Seq::empty()
    } else if 0 <= n < s.len() {
        seq![strip_cr(s.take(n))] + lines_of(s.skip(n + 1))
    } else {
        seq![s]
    }
}

/// `newline_index` is the least position that holds a line feed.
pub proof fn lemma_newline_index(s: Seq<char>, n: int)
    requires
        0 <= n <= s.len(),
        forall|k: int| 0 <= k < n ==> s[k] != '\n',
        n < s.len() ==> s[n] == '\n',
    ensures
        newline_index(s) == n,
    decreases n,
{
    if n > 0 {
        lemma_newline_index(s.drop_first(), n - 1);
    }
}

/// `newline_index` is a position at or before the end, with no line feed
/// before it and a line feed at it unless it is the end.
pub proof fn lemma_newline_index_is_first(s: Seq<char>)
    ensures
        0 <= newline_index(s) <= s.len(),
        forall|k: int| 0 <= k < newline_index(s) ==> s[k] != '\n',
        newline_index(s) < s.len() ==> s[newline_index(s)] == '\n',
    decreases s.len(),
{
    if s.len() == 0 || s[0] == '\n' {
    } else {
        let rest = s.drop_first();
        lemma_newline_index_is_first(rest);
        assert forall|k: int| 0 <= k < newline_index(s) implies s[k] != '\n' by {
            if k > 0 {
                assert(s[k] == rest[k - 1]);
            }
        }
    }
}

/// Text without a line feed, put after complete lines, is one more line.
pub proof fn lemma_lines_of_unterminated_tail(head: Seq<char>, tail: Seq<char>)
    requires
        head.len() == 0 || head.last() == '\n',
        tail.len() > 0,
        !tail.contains('\n'),
    ensures
        lines_of(head + tail) == lines_of(head) + seq![tail],
    decreases head.len(),
{
    let whole = head + tail;
    if head.len() == 0 {
        assert(whole =~= tail);
        assert forall|k: int| 0 <= k < tail.len() implies tail[k] != '\n' by {
            if tail[k] == '\n' {
                assert(tail.contains('\n'));
            }
        }
        lemma_newline_index(tail, tail.len() as int);
        assert(lines_of(head) + seq![tail] =~= seq![tail]);
    } else {
        lemma_newline_index_is_first(head);
        let n = newline_index(head);
        assert(n < head.len()) by {
            if n == head.len() {
                assert(head[head.len() - 1] != '\n');
            }
        }
        lemma_newline_index(whole, n);
        let rest = head.skip(n + 1);
        assert(whole.take(n) =~= head.take(n));
        assert(whole.skip(n + 1) =~= rest + tail);
        if rest.len() > 0 {
            assert(rest.last() == head.last());
        }
        lemma_lines_of_unterminated_tail(rest, tail);
        assert(lines_of(whole) =~= lines_of(head) + seq![tail]);
    }
}

/// The views of a vector of string slices.
pub open spec fn views(v: Seq<&str>) -> Seq<Seq<char>> {
    Seq::new(v.len(), |i: int| v[i]@)
}

/// Splits `text` into its lines.
pub fn split_lines<'a>(text: &'a str) -> (lines: Vec<&'a str>)
    ensures
        views(lines@) == lines_of(text@),
{
    let cs = to_chars(text);
    let n = cs.len();
    let mut lines: Vec<&'a str> = Vec::new();
    let mut pos: usize = 0;
    proof {
        assert(text@.skip(0) =~= text@);
        assert(views(lines@) + lines_of(text@) =~= lines_of(text@));
    }
    while pos < n
        invariant
            pos <= n,
            n == cs@.len(),
            cs@ == text@,
            lines_of(text@) == views(lines@) + lines_of(text@.skip(pos as int)),
        decreases n - pos,
    {
        let mut e: usize = pos;
        while e < n && cs[e] != '\n'
            invariant
                pos <= e <= n,
                n == cs@.len(),
                forall|k: int| pos <= k < e ==> cs@[k] != '\n',
            decreases n - e,
        {
            e += 1;
        }
        let ghost rest = text@.skip(pos as int);
        let ghost before = views(lines@);
        proof {
            lemma_newline_index(rest, e - pos);
        }
        if e == n {
            let line = text.substring_char(pos, n);
            lines.push(line);
            proof {
                assert(rest =~= line@);
                assert(text@.skip(n as int) =~= Seq::<char>::empty());
                assert(views(lines@) =~= before + seq![rest]);
            }
            pos = n;
        } else {
            let end = if e > pos && cs[e - 1] == '\r' {
                e - 1
            } else {
                e
            };
            let line = text.substring_char(pos, end);
            lines.push(line);
            proof {
                assert(rest.take(e - pos) =~= text@.subrange(pos as int, e as int));
                assert(line@ =~= strip_cr(rest.take(e - pos)));
                assert(rest.skip(e - pos + 1) =~= text@.skip(e + 1));
                assert(views(lines@) =~= before + seq![line@]);
            }
            pos = e + 1;
        }
    }
    proof {
        assert(views(lines@) + Seq::<Seq<char>>::empty() =~= views(lines@));
    }
    lines
}

/// `needle` stands in `hay` at position `i`.
pub open spec fn occurs_at(hay: Seq<char>, needle: Seq<char>, i: int) -> bool {
    &&& 0 <= i
    &&& i + needle.len() <= hay.len()
    &&& hay.subrange(i, i + needle.len()) == needle
}

/// The least position at or after `from` at which `needle` stands in `hay`.
pub open spec fn first_occurrence_from(hay: Seq<char>, needle: Seq<char>, from: int) -> Option<int>
    decreases hay.len() + 1 - from,
{
    if from < 0 || from + needle.len() > hay.len() {
        None
    } else if occurs_at(hay, needle, from) {
        Some(from)
    } else {
        first_occurrence_from(hay, needle, from + 1)
    }
}

/// The least position at which `needle` stands in `hay`.
pub open spec fn first_occurrence(hay: Seq<char>, needle: Seq<char>) -> Option<int> {
    first_occurrence_from(hay, needle, 0)
}

/// Positions that hold no occurrence can be skipped.
pub proof fn lemma_first_occurrence_skip(hay: Seq<char>, needle: Seq<char>, from: int, to: int)
    requires
        0 <= from <= to,
        forall|j: int| from <= j < to ==> !occurs_at(hay, needle, j),
    ensures
        first_occurrence_from(hay, needle, from) == first_occurrence_from(hay, needle, to),
    decreases to - from,
{
    if from < to {
        lemma_first_occurrence_skip(hay, needle, from + 1, to);
        if from + needle.len() > hay.len() {
            lemma_first_occurrence_past_end(hay, needle, to);
        }
    }
}

/// No occurrence starts where the needle no longer fits.
pub proof fn lemma_first_occurrence_past_end(hay: Seq<char>, needle: Seq<char>, from: int)
    requires
        from + needle.len() > hay.len(),
    ensures
        first_occurrence_from(hay, needle, from) is None,
{
}

/// `first_occurrence` is an occurrence, the least one, and `None` only
/// where there is none at all.
pub proof fn lemma_first_occurrence(hay: Seq<char>, needle: Seq<char>)
    ensures
        match first_occurrence(hay, needle) {
            Some(i) => occurs_at(hay, needle, i) && forall|j: int|
                0 <= j < i ==> !occurs_at(hay, needle, j),
            None => forall|j: int| !occurs_at(hay, needle, j),
        },
{
    lemma_first_occurrence_from(hay, needle, 0);
}

proof fn lemma_first_occurrence_from(hay: Seq<char>, needle: Seq<char>, from: int)
    requires
        0 <= from,
    ensures
        match first_occurrence_from(hay, needle, from) {
            Some(i) => from <= i && occurs_at(hay, needle, i) && forall|j: int|
                from <= j < i ==> !occurs_at(hay, needle, j),
            None => forall|j: int| from <= j ==> !occurs_at(hay, needle, j),
        },
    decreases hay.len() + 1 - from,
{
    if from + needle.len() > hay.len() {
    } else if occurs_at(hay, needle, from) {
    } else {
        lemma_first_occurrence_from(hay, needle, from + 1);
    }
}

/// Finds the first place at which `needle` stands in `hay`.
pub fn find(hay: &[char], needle: &[char]) -> (r: Option<usize>)
    ensures
        match r {
            Some(i) => first_occurrence(hay@, needle@) == Some(i as int),
            None => first_occurrence(hay@, needle@) is None,
        },
{
    let n = hay.len();
    let m = needle.len();
    if m > n {
        return None;
    }
    let last = n - m;
    let mut i: usize = 0;
    while i <= last
        invariant
            n == hay@.len(),
            m == needle@.len(),
            last == n - m,
            i <= last + 1,
            forall|j: int| 0 <= j < i ==> !occurs_at(hay@, needle@, j),
        decreases last + 1 - i,
    {
        let mut k: usize = 0;
        while k < m && hay[i + k] == needle[k]
            invariant
                n == hay@.len(),
                m == needle@.len(),
                i + m <= n,
                k <= m,
                forall|t: int| 0 <= t < k ==> hay@[i + t] == needle@[t],
            decreases m - k,
        {
            k += 1;
        }
        if k == m {
            proof {
                assert(hay@.subrange(i as int, i + m) =~= needle@);
                lemma_first_occurrence_skip(hay@, needle@, 0, i as int);
            }
            return Some(i);
        }
        proof {
            assert(hay@.subrange(i as int, i + m)[k as int] == hay@[i + k]);
        }
        i += 1;
    }
    proof {
        lemma_first_occurrence_skip(hay@, needle@, 0, i as int);
    }
    None
}

/// Tells whether `c` occurs in `hay`.
pub fn contains_char(hay: &[char], c: char) -> (b: bool)
    ensures
        b == hay@.contains(c),
{
    let n = hay.len();
    let mut i: usize = 0;
    while i < n
        invariant
            i <= n,
            n == hay@.len(),
            forall|j: int| 0 <= j < i ==> hay@[j] != c,
        decreases n - i,
    {
        if hay[i] == c {
            return true;
        }
        i += 1;
    }
    false
}

/// The first position at or after `from` that holds no whitespace.
pub open spec fn skip_whitespace(s: Seq<char>, from: int) -> int
    decreases s.len() - from,
{
    if 0 <= from < s.len() && whitespace(s[from]) {
        skip_whitespace(s, from + 1)
    } else {
        from
    }
}

/// The first position at or after `from` that holds whitespace.
pub open spec fn skip_token(s: Seq<char>, from: int) -> int
    decreases s.len() - from,
{
    if 0 <= from < s.len() && !whitespace(s[from]) {
        skip_token(s, from + 1)
    } else {
        from
    }
}

/// The whitespace-separated tokens of `s` that start at or after `from`:
/// the maximal runs of characters that are not whitespace, in order.
pub open spec fn tokens_from(s: Seq<char>, from: int) -> Seq<Seq<char>>
    decreases s.len() - from,
{
    let a = skip_whitespace(s, from);
    let b = skip_token(s, a);
    if 0 <= from <= a < b <= s.len() {
        seq![s.subrange(a, b)] + tokens_from(s, b)
    } else {
        Seq::empty()
    }
}

/// The whitespace-separated tokens of `s`.
pub open spec fn tokens(s: Seq<char>) -> Seq<Seq<char>> {
    tokens_from(s, 0)
}

/// `skip_whitespace` stops at the end of the whitespace run that starts at `from`.
pub proof fn lemma_skip_whitespace(s: Seq<char>, from: int, to: int)
    requires
        0 <= from <= to <= s.len(),
        forall|k: int| from <= k < to ==> whitespace(s[k]),
        to < s.len() ==> !whitespace(s[to]),
    ensures
        skip_whitespace(s, from) == to,
    decreases to - from,
{
    if from < to {
        lemma_skip_whitespace(s, from + 1, to);
    }
}

/// `skip_token` stops at the end of the run without whitespace that starts at `from`.
pub proof fn lemma_skip_token(s: Seq<char>, from: int, to: int)
    requires
        0 <= from <= to <= s.len(),
        forall|k: int| from <= k < to ==> !whitespace(s[k]),
        to < s.len() ==> whitespace(s[to]),
    ensures
        skip_token(s, from) == to,
    decreases to - from,
{
    if from < to {
        lemma_skip_token(s, from + 1, to);
    }
}

/// Finds the first token of `cs` that starts at or after `from`, as the
/// positions of its first character and of the character after its last.
pub fn next_token(cs: &[char], from: usize) -> (r: Option<(usize, usize)>)
    ensures
        match r {
            Some((a, b)) => {
                &&& from <= a < b <= cs@.len()
                &&& a == skip_whitespace(cs@, from as int)
                &&& b == skip_token(cs@, a as int)
                &&& tokens_from(cs@, from as int) == seq![cs@.subrange(a as int, b as int)]
                    + tokens_from(cs@, b as int)
            },
            None => tokens_from(cs@, from as int) == Seq::<Seq<char>>::empty(),
        },
{
    let n = cs.len();
    if from >= n {
        return None;
    }
    let mut a: usize = from;
    while a < n && is_whitespace(cs[a])
        invariant
            from <= a <= n,
            n == cs@.len(),
            forall|k: int| from <= k < a ==> whitespace(cs@[k]),
        decreases n - a,
    {
        a += 1;
    }
    proof {
        lemma_skip_whitespace(cs@, from as int, a as int);
    }
    if a == n {
        return None;
    }
    let mut b: usize = a + 1;
    while b < n && !is_whitespace(cs[b])
        invariant
            a < b <= n,
            n == cs@.len(),
            !whitespace(cs@[a as int]),
            forall|k: int| a <= k < b ==> !whitespace(cs@[k]),
        decreases n - b,
    {
        b += 1;
    }
    proof {
        lemma_skip_token(cs@, a as int, b as int);
    }
    Some((a, b))
}

} // verus!
