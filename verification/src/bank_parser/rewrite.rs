//! Locating and replacing the declared signature in the original text.
//!
//! The rewriter looks for the first occurrence of a self-closing
//! `Signature` element — `<Signature`, one or more spaces, `value="`, the
//! value (anything but a quote), `"`, optional spaces, `/>` — and replaces
//! only the value between the quotes, leaving every other byte of the text
//! unchanged.

use vstd::prelude::*;

verus! {

use vstd::string::StrSliceExecFns;

/// The whitespace the pattern accepts between its fixed parts.
pub open spec fn is_space(c: char) -> bool {
    c == ' ' || c == '\t' || c == '\n' || c == '\r' || c == '\u{b}' || c == '\u{c}'
}

/// `<Signature` stands at `i`.
pub open spec fn sig_head_at(s: Seq<char>, i: int) -> bool {
    &&& 0 <= i
    &&& i + 10 <= s.len()
    &&& s[i] == '<'
    &&& s[i + 1] == 'S'
    &&& s[i + 2] == 'i'
    &&& s[i + 3] == 'g'
    &&& s[i + 4] == 'n'
    &&& s[i + 5] == 'a'
    &&& s[i + 6] == 't'
    &&& s[i + 7] == 'u'
    &&& s[i + 8] == 'r'
    &&& s[i + 9] == 'e'
}

/// `value="` stands at `w`.
pub open spec fn value_open_at(s: Seq<char>, w: int) -> bool {
    &&& 0 <= w
    &&& w + 7 <= s.len()
    &&& s[w] == 'v'
    &&& s[w + 1] == 'a'
    &&& s[w + 2] == 'l'
    &&& s[w + 3] == 'u'
    &&& s[w + 4] == 'e'
    &&& s[w + 5] == '='
    &&& s[w + 6] == '"'
}

/// The pattern matches at `i`, with `value="` at `w`, the closing quote at
/// `b`, and `/>` at `e`.
pub open spec fn sig_spans(s: Seq<char>, i: int, w: int, b: int, e: int) -> bool {
    &&& sig_head_at(s, i)
    &&& i + 10 < w
    &&& forall|k: int| i + 10 <= k < w ==> is_space(#[trigger] s[k])
    &&& value_open_at(s, w)
    &&& w + 7 <= b < s.len()
    &&& forall|k: int| w + 7 <= k < b ==> (#[trigger] s[k]) != '"'
    &&& s[b] == '"'
    &&& b + 1 <= e
    &&& e + 2 <= s.len()
    &&& forall|k: int| b + 1 <= k < e ==> is_space(#[trigger] s[k])
    &&& s[e] == '/'
    &&& s[e + 1] == '>'
}

pub open spec fn sig_match_at(s: Seq<char>, i: int) -> bool {
    exists|w: int, b: int, e: int| sig_spans(s, i, w, b, e)
}

/// `i` is the first position where the pattern matches.
pub open spec fn is_first_match(s: Seq<char>, i: int) -> bool {
    &&& sig_match_at(s, i)
    &&& forall|j: int| 0 <= j < i ==> !sig_match_at(s, j)
}

/// The value span of the first match: the indices between the quotes.
pub open spec fn first_value_span(s: Seq<char>) -> Option<(int, int)> {
    if exists|i: int| is_first_match(s, i) {
        let i = choose|i: int| is_first_match(s, i);
        let (w, b, e) = choose|w: int, b: int, e: int| sig_spans(s, i, w, b, e);
        Some((w + 7, b))
    } else {
        None
    }
}

/// The text with the first match's value replaced by `sig`, if the
/// pattern occurs at all.
pub open spec fn replaced_text(s: Seq<char>, sig: Seq<char>) -> Option<Seq<char>> {
    match first_value_span(s) {
        None => None,
        Some(span) => Some(s.take(span.0) + sig + s.skip(span.1)),
    }
}

/// A match's spans are determined by its position.
pub proof fn lemma_spans_unique(
    s: Seq<char>,
    i: int,
    w1: int,
    b1: int,
    e1: int,
    w2: int,
    b2: int,
    e2: int,
)
    requires
        sig_spans(s, i, w1, b1, e1),
        sig_spans(s, i, w2, b2, e2),
    ensures
        w1 == w2,
        b1 == b2,
        e1 == e2,
{
    assert(w1 == w2) by {
        if w1 < w2 {
            assert(is_space(s[w1]));
        } else if w2 < w1 {
            assert(is_space(s[w2]));
        }
    }
    assert(b1 == b2) by {
        if b1 < b2 {
            assert(s[b1] != '"');
        } else if b2 < b1 {
            assert(s[b2] != '"');
        }
    }
    assert(e1 == e2) by {
        if e1 < e2 {
            assert(is_space(s[e1]));
        } else if e2 < e1 {
            assert(is_space(s[e2]));
        }
    }
}

/// Splicing a value back in reproduces the text exactly when the value
/// already stands there.
pub proof fn lemma_splice_identity(s: Seq<char>, sig: Seq<char>, a: int, b: int)
    requires
        0 <= a <= b <= s.len(),
    ensures
        (s.take(a) + sig + s.skip(b) == s) <==> (sig == s.subrange(a, b)),
{
    if sig == s.subrange(a, b) {
        assert(s.take(a) + sig + s.skip(b) =~= s);
    }
    if s.take(a) + sig + s.skip(b) == s {
        assert(sig.len() == b - a);
        assert(sig =~= s.subrange(a, b)) by {
            assert(forall|k: int|
                0 <= k < sig.len() ==> #[trigger] sig[k] == (s.take(a) + sig + s.skip(b))[a + k]);
        }
    }
}

/// After a replacement with a quote-free value, the pattern still matches
/// at the same position and the new value stands between the quotes.
pub proof fn lemma_replaced_matches(s: Seq<char>, sig: Seq<char>, i: int, w: int, b: int, e: int)
    requires
        sig_spans(s, i, w, b, e),
        forall|k: int| 0 <= k < sig.len() ==> (#[trigger] sig[k]) != '"',
    ensures
        ({
            let u = s.take(w + 7) + sig + s.skip(b);
            let shift = sig.len() - (b - w - 7);
            &&& sig_spans(u, i, w, w + 7 + sig.len(), e + shift)
            &&& u.subrange(w + 7, w + 7 + sig.len()) == sig
            &&& sig_match_at(u, i)
        }),
{
    let a = w + 7;
    let u = s.take(a) + sig + s.skip(b);
    let b2 = a + sig.len();
    let shift = sig.len() - (b - a);
    assert(u.len() == s.len() + shift);
    assert(forall|k: int| 0 <= k < a ==> #[trigger] u[k] == s[k]);
    assert(forall|k: int| 0 <= k < sig.len() ==> #[trigger] u[a + k] == sig[k]);
    assert(forall|k: int| b <= k < s.len() ==> #[trigger] u[k + shift] == s[k]);
    assert(u.subrange(a, b2 as int) =~= sig);
    assert(sig_spans(u, i, w, b2 as int, e + shift)) by {
        assert(forall|k: int|
            a <= k < b2 ==> (#[trigger] u[k]) != '"') by {
            assert(forall|k: int| a <= k < b2 ==> u[k] == sig[k - a]);
        }
        assert(u[b2 as int] == s[b]);
        assert(forall|k: int|
            b2 + 1 <= k < e + shift ==> is_space(#[trigger] u[k])) by {
            assert(forall|k: int| b2 + 1 <= k < e + shift ==> u[k] == s[k - shift]);
        }
        assert(u[e + shift] == s[e]);
        assert(u[e + shift + 1] == s[e + 1]);
    }
}

/// After a rewrite with a non-empty value of uppercase hexadecimal
/// characters — the shape every fingerprint has — the first match of the
/// pattern in the new text is the same match, and its value span holds
/// exactly the written value.  No character of such a value can take part
/// in the pattern's fixed pieces, so no match can appear before the old
/// one.
#[verifier::rlimit(80)]
pub proof fn lemma_rewrite_first_match(
    s: Seq<char>,
    sig: Seq<char>,
    i: int,
    w: int,
    b: int,
    e: int,
)
    requires
        is_first_match(s, i),
        sig_spans(s, i, w, b, e),
        sig.len() > 0,
        forall|k: int|
            0 <= k < sig.len() ==> crate::bank_parser::digest::is_upper_hex_digit(
                #[trigger] sig[k],
            ),
    ensures
        ({
            let u = s.take(w + 7) + sig + s.skip(b);
            &&& is_first_match(u, i)
            &&& first_value_span(u) == Some((w + 7, w + 7 + sig.len() as int))
            &&& u.subrange(w + 7, w + 7 + sig.len() as int) == sig
        }),
{
    let a = w + 7;
    let u = s.take(a) + sig + s.skip(b);
    let b2 = a + sig.len() as int;
    let shift = sig.len() - (b - a);
    assert(forall|k: int| 0 <= k < sig.len() ==> (#[trigger] sig[k]) != '"');
    lemma_replaced_matches(s, sig, i, w, b, e);
    assert(u.len() == s.len() + shift);
    assert(forall|k: int| 0 <= k < a ==> #[trigger] u[k] == s[k]);
    assert(forall|k: int| 0 <= k < sig.len() ==> #[trigger] u[a + k] == sig[k]);
    assert(u[a] == sig[0]);
    assert(crate::bank_parser::digest::is_upper_hex_digit(u[a]));
    assert forall|j: int| 0 <= j < i implies !sig_match_at(u, j) by {
        if sig_match_at(u, j) {
            let (w2, b3, e2) = choose|w2: int, b3: int, e2: int| sig_spans(u, j, w2, b3, e2);
            // The head of a match before `i` lies wholly below the splice.
            assert(j + 10 < a);
            if w2 >= a {
                if w2 == a {
                    assert(u[a] == 'v');
                    assert(false);
                } else {
                    assert(is_space(u[a]));
                    assert(false);
                }
            } else if w2 + 7 > a {
                // The splice point would fall inside `value="`, but none of
                // those characters is an uppercase hex digit.
                if a == w2 + 1 {
                    assert(u[a] == 'a');
                } else if a == w2 + 2 {
                    assert(u[a] == 'l');
                } else if a == w2 + 3 {
                    assert(u[a] == 'u');
                } else if a == w2 + 4 {
                    assert(u[a] == 'e');
                } else if a == w2 + 5 {
                    assert(u[a] == '=');
                } else {
                    assert(a == w2 + 6);
                    assert(u[a] == '"');
                }
                assert(false);
            } else {
                // w2 + 7 <= a: the candidate's value starts at or below the
                // splice point.
                if b3 >= a {
                    if w2 + 7 == a {
                        // The candidate reuses the old match's own `value="`,
                        // so the old text already matched at j.
                        assert(w2 == w);
                        assert(sig_spans(s, j, w, b, e)) by {
                            assert(forall|k: int| j <= k < j + 10 ==> #[trigger] s[k] == u[k]);
                            assert(forall|k: int|
                                j + 10 <= k < w ==> is_space(#[trigger] s[k])) by {
                                assert(forall|k: int|
                                    j + 10 <= k < w ==> #[trigger] s[k] == u[k]);
                            }
                        }
                        assert(sig_match_at(s, j));
                        assert(false);
                    } else {
                        // The old `value="` quote at a - 1 sits inside the
                        // candidate's quote-free value run.
                        assert(s[w + 6] == '"');
                        assert(u[a - 1] == '"');
                        assert(w2 + 7 <= a - 1 < b3);
                        assert(false);
                    }
                } else {
                    // b3 < a: the candidate's quote is below the splice.
                    if e2 + 1 < a {
                        // The whole candidate lies below the splice, so the
                        // old text already matched at j.
                        assert(sig_spans(s, j, w2, b3, e2)) by {
                            assert(forall|k: int| j <= k < a ==> #[trigger] s[k] == u[k]);
                        }
                        assert(sig_match_at(s, j));
                        assert(false);
                    } else if e2 > a {
                        assert(b3 + 1 <= a < e2);
                        assert(is_space(u[a]));
                        assert(false);
                    } else if e2 == a {
                        assert(u[a] == '/');
                        assert(false);
                    } else {
                        assert(e2 + 1 == a);
                        assert(u[a] == '>');
                        assert(false);
                    }
                }
            }
        }
    }
    assert(is_first_match(u, i));
    let i0 = choose|i0: int| is_first_match(u, i0);
    assert(i0 == i) by {
        if i0 < i {
            assert(!sig_match_at(u, i0));
        } else if i0 > i {
            assert(!sig_match_at(u, i));
        }
    }
    let (wc, bc, ec) = choose|wc: int, bc: int, ec: int| sig_spans(u, i0, wc, bc, ec);
    lemma_spans_unique(u, i, wc, bc, ec, w, b2, e + shift);
}

/// Whether the character is pattern whitespace.
fn is_space_exec(c: char) -> (r: bool)
    ensures
        r == is_space(c),
{
    c == ' ' || c == '\t' || c == '\n' || c == '\r' || c == '\u{b}' || c == '\u{c}'
}

/// Tries the pattern at position `i`, returning the value span.
#[verifier::loop_isolation(false)]
#[verifier::rlimit(60)]
fn try_match_at(s: &str, n: usize, i: usize) -> (r: Option<(usize, usize)>)
    requires
        n == s@.len(),
        i < n,
    ensures
        match r {
            Some(span) => 7 <= span.0 <= span.1 < n && exists|e: int|
                #[trigger] sig_spans(s@, i as int, span.0 as int - 7, span.1 as int, e),
            None => !sig_match_at(s@, i as int),
        },
{
    // `<Signature`
    if n - i < 10 {
        return None;
    }
    if s.get_char(i) != '<' || s.get_char(i + 1) != 'S' || s.get_char(i + 2) != 'i' || s.get_char(
        i + 3,
    ) != 'g' || s.get_char(i + 4) != 'n' || s.get_char(i + 5) != 'a' || s.get_char(i + 6) != 't'
        || s.get_char(i + 7) != 'u' || s.get_char(i + 8) != 'r' || s.get_char(i + 9) != 'e' {
        return None;
    }
    // One or more spaces.
    let mut w: usize = i + 10;
    while w < n && is_space_exec(s.get_char(w))
        invariant
            i + 10 <= w <= n,
            forall|k: int| i + 10 <= k < w ==> is_space(#[trigger] s@[k]),
        decreases n - w,
    {
        w = w + 1;
    }
    if w == i + 10 || n - w < 7 {
        proof {
            assert forall|w2: int, b2: int, e2: int| !sig_spans(
                s@,
                i as int,
                w2,
                b2,
                e2,
            ) by {
                if sig_spans(s@, i as int, w2, b2, e2) {
                    if w2 < w {
                        assert(is_space(s@[w2]) && s@[w2] == 'v');
                    } else if w2 > w {
                        assert(w < n && is_space(s@[w as int]));
                    }
                }
            }
        }
        return None;
    }
    // `value="`
    if s.get_char(w) != 'v' || s.get_char(w + 1) != 'a' || s.get_char(w + 2) != 'l' || s.get_char(
        w + 3,
    ) != 'u' || s.get_char(w + 4) != 'e' || s.get_char(w + 5) != '=' || s.get_char(w + 6) != '"' {
        proof {
            assert forall|w2: int, b2: int, e2: int| !sig_spans(
                s@,
                i as int,
                w2,
                b2,
                e2,
            ) by {
                if sig_spans(s@, i as int, w2, b2, e2) {
                    if w2 < w {
                        assert(is_space(s@[w2]) && s@[w2] == 'v');
                    } else if w2 > w {
                        assert(w < n && is_space(s@[w as int]));
                    }
                    assert(!value_open_at(s@, w as int));
                }
            }
        }
        return None;
    }
    // The value: everything up to the next quote.
    let a = w + 7;
    let mut b: usize = a;
    while b < n && s.get_char(b) != '"'
        invariant
            a <= b <= n,
            forall|k: int| a <= k < b ==> (#[trigger] s@[k]) != '"',
        decreases n - b,
    {
        b = b + 1;
    }
    if b >= n {
        proof {
            assert forall|w2: int, b2: int, e2: int| !sig_spans(
                s@,
                i as int,
                w2,
                b2,
                e2,
            ) by {
                if sig_spans(s@, i as int, w2, b2, e2) {
                    if w2 < w {
                        assert(is_space(s@[w2]) && s@[w2] == 'v');
                    } else if w2 > w {
                        assert(w < n && is_space(s@[w as int]));
                    }
                    assert(s@[b2] == '"' && b2 < n);
                }
            }
        }
        return None;
    }
    // Optional spaces, then `/>`.
    let mut e: usize = b + 1;
    while e < n && is_space_exec(s.get_char(e))
        invariant
            b + 1 <= e <= n,
            forall|k: int| b + 1 <= k < e ==> is_space(#[trigger] s@[k]),
        decreases n - e,
    {
        e = e + 1;
    }
    if n - e < 2 || s.get_char(e) != '/' || s.get_char(e + 1) != '>' {
        proof {
            assert forall|w2: int, b2: int, e2: int| !sig_spans(
                s@,
                i as int,
                w2,
                b2,
                e2,
            ) by {
                if sig_spans(s@, i as int, w2, b2, e2) {
                    if w2 < w {
                        assert(is_space(s@[w2]) && s@[w2] == 'v');
                    } else if w2 > w {
                        assert(w < n && is_space(s@[w as int]));
                    }
                    if b2 < b {
                        assert(s@[b2] != '"');
                    } else if b2 > b {
                        assert(s@[b as int] != '"');
                    }
                    if e2 < e {
                        assert(is_space(s@[e2]) && s@[e2] == '/');
                    } else if e2 > e {
                        assert(e < n && is_space(s@[e as int]));
                    }
                }
            }
        }
        return None;
    }
    proof {
        assert(sig_spans(s@, i as int, w as int, b as int, e as int));
        assert(sig_spans(s@, i as int, (a as int) - 7, b as int, e as int));
    }
    Some((a, b))
}

/// Finds the value span of the first pattern match, as `first_value_span`
/// describes.
#[verifier::loop_isolation(false)]
pub fn find_first_value_span(s: &str) -> (r: Option<(usize, usize)>)
    ensures
        match r {
            Some(span) => first_value_span(s@) == Some((span.0 as int, span.1 as int)) && 0
                <= span.0 <= span.1 <= s@.len(),
            None => first_value_span(s@) is None,
        },
{
    let n = s.unicode_len();
    let mut i: usize = 0;
    while i < n
        invariant
            i <= n,
            n == s@.len(),
            forall|j: int| 0 <= j < i ==> !sig_match_at(s@, j),
        decreases n - i,
    {
        match try_match_at(s, n, i) {
            Some(span) => {
                proof {
                    let e = choose|e: int|
                        #[trigger] sig_spans(s@, i as int, span.0 as int - 7, span.1 as int, e);
                    assert(sig_match_at(s@, i as int));
                    assert(is_first_match(s@, i as int));
                    let i0 = choose|i0: int| is_first_match(s@, i0);
                    assert(i0 == i) by {
                        if i0 < i {
                            assert(!sig_match_at(s@, i0));
                        } else if i0 > i {
                            assert(!sig_match_at(s@, i as int));
                        }
                    }
                    let (wc, bc, ec) = choose|wc: int, bc: int, ec: int|
                        sig_spans(s@, i0, wc, bc, ec);
                    lemma_spans_unique(
                        s@,
                        i as int,
                        wc,
                        bc,
                        ec,
                        span.0 as int - 7,
                        span.1 as int,
                        e,
                    );
                }
                return Some(span);
            },
            None => {},
        }
        i = i + 1;
    }
    proof {
        if exists|i0: int| is_first_match(s@, i0) {
            let i0 = choose|i0: int| is_first_match(s@, i0);
            if i0 < n {
                assert(!sig_match_at(s@, i0));
            } else {
                let (wc, bc, ec) = choose|wc: int, bc: int, ec: int|
                    sig_spans(s@, i0, wc, bc, ec);
                assert(i0 + 10 <= n);
            }
        }
    }
    None
}

} // verus!
