//! Splitting raw text: into `;`-separated segments, and into
//! whitespace-delimited tokens.
use vstd::prelude::*;
use vstd::string::StrSliceExecFns;

verus! {

/// The characters with the Unicode `White_Space` property.
pub open spec fn is_space(c: char) -> bool {
    ||| ('\u{9}' <= c && c <= '\u{d}')
    ||| c == ' '
    ||| c == '\u{85}'
    ||| c == '\u{a0}'
    ||| c == '\u{1680}'
    ||| ('\u{2000}' <= c && c <= '\u{200a}')
    ||| c == '\u{2028}'
    ||| c == '\u{2029}'
    ||| c == '\u{202f}'
    ||| c == '\u{205f}'
    ||| c == '\u{3000}'
}

/// Length of the longest prefix of `s` holding no element on which `stop` holds.
pub open spec fn span<A>(s: Seq<A>, stop: spec_fn(A) -> bool) -> nat
    decreases s.len(),
{
    if s.len() == 0 || stop(s[0]) {
        0
    } else {
        1 + span(s.drop_first(), stop)
    }
}

pub open spec fn space_stop() -> spec_fn(char) -> bool {
    |c: char| is_space(c)
}

pub open spec fn semicolon_stop() -> spec_fn(char) -> bool {
    |c: char| c == ';'
}

/// The maximal runs of non-whitespace characters of `s`, in order.
pub open spec fn words(s: Seq<char>) -> Seq<Seq<char>>
    decreases s.len(),
{
    if s.len() == 0 {
        seq![]
    } else if is_space(s[0]) {
        words(s.drop_first())
    } else {
        let n = span(s, space_stop()) as int;
        proof {
            lemma_span_bound(s, space_stop());
        }
        seq![s.take(n)] + words(s.skip(n))
    }
}

/// `s` cut at every `;`: one more piece than `s` has semicolons.
pub open spec fn pieces(s: Seq<char>) -> Seq<Seq<char>>
    decreases s.len(),
{
    let n = span(s, semicolon_stop()) as int;
    if n == s.len() {
        seq![s]
    } else {
        proof {
            lemma_span_bound(s, semicolon_stop());
        }
        seq![s.take(n)] + pieces(s.skip(n + 1))
    }
}

pub proof fn lemma_span_bound<A>(s: Seq<A>, stop: spec_fn(A) -> bool)
    ensures
        span(s, stop) <= s.len(),
    decreases s.len(),
{
    if s.len() > 0 {
        lemma_span_bound(s.drop_first(), stop);
    }
}

/// No element before the span stops it.
pub proof fn lemma_span_prefix<A>(s: Seq<A>, stop: spec_fn(A) -> bool)
    ensures
        forall|i: int| 0 <= i < span(s, stop) ==> !stop(#[trigger] s[i]),
    decreases s.len(),
{
    if s.len() > 0 && !stop(s[0]) {
        let t = s.drop_first();
        lemma_span_prefix(t, stop);
        lemma_span_bound(t, stop);
        assert forall|i: int| 0 <= i < span(s, stop) implies !stop(#[trigger] s[i]) by {
            if i > 0 {
                assert(s[i] == t[i - 1]);
            }
        }
    }
}

/// Text of whitespace alone has no words.
pub proof fn lemma_blank_words(s: Seq<char>)
    requires
        forall|i: int| 0 <= i < s.len() ==> is_space(#[trigger] s[i]),
    ensures
        words(s).len() == 0,
    decreases s.len(),
{
    if s.len() > 0 {
        let t = s.drop_first();
        assert forall|i: int| 0 <= i < t.len() implies is_space(#[trigger] t[i]) by {
            assert(t[i] == s[i + 1]);
        }
        lemma_blank_words(t);
    }
}

/// Cutting text of whitespace and `;` alone leaves pieces of whitespace alone.
pub proof fn lemma_blank_pieces(s: Seq<char>)
    requires
        forall|i: int| 0 <= i < s.len() ==> is_space(#[trigger] s[i]) || s[i] == ';',
    ensures
        forall|j: int, i: int|
            0 <= j < pieces(s).len() && 0 <= i < pieces(s)[j].len() ==> is_space(
                #[trigger] pieces(s)[j][i],
            ),
    decreases s.len(),
{
    let n = span(s, semicolon_stop()) as int;
    lemma_span_bound(s, semicolon_stop());
    lemma_span_prefix(s, semicolon_stop());
    assert forall|i: int| 0 <= i < n implies is_space(#[trigger] s[i]) by {
        assert(!semicolon_stop()(s[i]));
    }
    if n < s.len() {
        let t = s.skip(n + 1);
        assert forall|i: int| 0 <= i < t.len() implies is_space(#[trigger] t[i]) || t[i] == ';' by {
            assert(t[i] == s[n + 1 + i]);
        }
        lemma_blank_pieces(t);
        let p = pieces(s);
        assert(p == seq![s.take(n)] + pieces(t));
        assert forall|j: int, i: int| 0 <= j < p.len() && 0 <= i < p[j].len() implies is_space(
            #[trigger] p[j][i],
        ) by {
            if j > 0 {
                assert(p[j] == pieces(t)[j - 1]);
            } else {
                assert(p[j][i] == s[i]);
            }
        }
    }
}

/// A prefix of length `k` with no stopping element, followed by a stopping
/// element or the end, is the span.
pub proof fn lemma_span<A>(s: Seq<A>, stop: spec_fn(A) -> bool, k: int)
    requires
        0 <= k <= s.len(),
        forall|i: int| 0 <= i < k ==> !stop(#[trigger] s[i]),
        k == s.len() || stop(s[k]),
    ensures
        span(s, stop) == k,
    decreases k,
{
    if k > 0 {
        let t = s.drop_first();
        assert forall|i: int| 0 <= i < k - 1 implies !stop(#[trigger] t[i]) by {
            assert(t[i] == s[i + 1]);
        }
        if k < s.len() {
            assert(t[k - 1] == s[k]);
        }
        lemma_span(t, stop, k - 1);
    }
}

/// The contents of a sequence of string slices.
pub open spec fn texts(v: Seq<&str>) -> Seq<Seq<char>> {
    v.map_values(|t: &str| t@)
}

/// Whether `c` is whitespace in the sense of `is_space`.
pub fn is_whitespace(c: char) -> (r: bool)
    ensures
        r == is_space(c),
{
    ('\u{9}' <= c && c <= '\u{d}') || c == ' ' || c == '\u{85}' || c == '\u{a0}' || c
        == '\u{1680}' || ('\u{2000}' <= c && c <= '\u{200a}') || c == '\u{2028}' || c
        == '\u{2029}' || c == '\u{202f}' || c == '\u{205f}' || c == '\u{3000}'
}

pub(crate) fn chars_of(s: &str) -> (r: Vec<char>)
    ensures
        r@ == s@,
{
    let mut r: Vec<char> = Vec::new();
    for c in it: s.chars()
        invariant
            it.seq() == s@,
            r@ == it.seq().take(it.index() as int),
    {
        r.push(c);
    }
    r
}

/// Splits `text` into its whitespace-delimited tokens, in order.
pub fn tokenize<'a>(text: &'a str) -> (r: Vec<&'a str>)
    ensures
        texts(r@) == words(text@),
{
    let cs = chars_of(text);
    let n = cs.len();
    let mut r: Vec<&'a str> = Vec::new();
    let mut i: usize = 0;
    assert(text@.skip(0) =~= text@);
    assert(texts(r@) + words(text@) =~= words(text@));
    while i < n
        invariant
            cs@ == text@,
            n == cs@.len(),
            i <= n,
            words(text@) == texts(r@) + words(text@.skip(i as int)),
        decreases n - i,
    {
        if is_whitespace(cs[i]) {
            assert(text@.skip(i as int).drop_first() =~= text@.skip(i + 1));
            i = i + 1;
        } else {
            let mut j: usize = i + 1;
            while j < n && !is_whitespace(cs[j])
                invariant
                    cs@ == text@,
                    n == cs@.len(),
                    i < j <= n,
                    forall|k: int| i <= k < j ==> !is_space(#[trigger] text@[k]),
                decreases n - j,
            {
                j = j + 1;
            }
            let ghost rest = text@.skip(i as int);
            proof {
                assert forall|k: int| 0 <= k < j - i implies !(#[trigger] space_stop()(rest[k])) by {
                    assert(rest[k] == text@[i + k]);
                }
                if j < n {
                    assert(rest[j - i] == text@[j as int]);
                }
                lemma_span(rest, space_stop(), j - i);
                assert(rest.take(j - i) =~= text@.subrange(i as int, j as int));
                assert(rest.skip(j - i) =~= text@.skip(j as int));
            }
            let w = text.substring_char(i, j);
            let ghost before = r@;
            r.push(w);
            assert(texts(r@) =~= texts(before) + seq![w@]);
            i = j;
        }
    }
    assert(text@.skip(n as int) =~= seq![]);
    assert(texts(r@) + seq![] =~= texts(r@));
    r
}

/// Cuts `line` at every `;`, keeping empty pieces.
pub fn split_segments<'a>(line: &'a str) -> (r: Vec<&'a str>)
    ensures
        texts(r@) == pieces(line@),
{
    let cs = chars_of(line);
    let n = cs.len();
    let mut r: Vec<&'a str> = Vec::new();
    let mut start: usize = 0;
    let mut i: usize = 0;
    assert(line@.skip(0) =~= line@);
    assert(texts(r@) + pieces(line@) =~= pieces(line@));
    while i < n
        invariant
            cs@ == line@,
            n == cs@.len(),
            start <= i <= n,
            forall|k: int| start <= k < i ==> #[trigger] line@[k] != ';',
            pieces(line@) == texts(r@) + pieces(line@.skip(start as int)),
        decreases n - i,
    {
        if cs[i] == ';' {
            let ghost rest = line@.skip(start as int);
            proof {
                assert forall|k: int| 0 <= k < i - start implies !(
                #[trigger] semicolon_stop()(rest[k])) by {
                    assert(rest[k] == line@[start + k]);
                }
                assert(rest[i - start] == line@[i as int]);
                lemma_span(rest, semicolon_stop(), i - start);
                assert(rest.take(i - start) =~= line@.subrange(start as int, i as int));
                assert(rest.skip(i - start + 1) =~= line@.skip(i + 1));
            }
            let piece = line.substring_char(start, i);
            let ghost before = r@;
            r.push(piece);
            assert(texts(r@) =~= texts(before) + seq![piece@]);
            start = i + 1;
        }
        i = i + 1;
    }
    let ghost rest = line@.skip(start as int);
    proof {
        assert forall|k: int| 0 <= k < n - start implies !(#[trigger] semicolon_stop()(rest[k])) by {
            assert(rest[k] == line@[start + k]);
        }
        lemma_span(rest, semicolon_stop(), n - start);
        assert(line@.subrange(start as int, n as int) =~= rest);
    }
    let piece = line.substring_char(start, n);
    let ghost before = r@;
    r.push(piece);
    assert(texts(r@) =~= texts(before) + seq![piece@]);
    r
}

} // verus!
