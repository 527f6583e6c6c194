//! Turning raw text into word tokens: a character filter and a splitter
//! that trims its pieces.

use vstd::prelude::*;

verus! {

/// Letters, digits, space, hyphen, apostrophe and period are kept.
pub open spec fn is_kept(c: char) -> bool {
    ('A' <= c && c <= 'Z') || ('a' <= c && c <= 'z') || ('0' <= c && c <= '9') || c == ' '
        || c == '-' || c == '\'' || c == '.'
}

/// What one input character becomes: a newline turns into a space, a kept
/// character stays, anything else is dropped.
pub open spec fn cleaned(c: char) -> Seq<char> {
    if c == '\n' {
        seq![' ']
    } else if is_kept(c) {
        seq![c]
    } else {
        Seq::empty()
    }
}

pub open spec fn regularized(s: Seq<char>) -> Seq<char>
    decreases s.len(),
{
    if s.len() == 0 {
        Seq::empty()
    } else {
        regularized(s.drop_last()) + cleaned(s.last())
    }
}

/// Whether `c` has Unicode's White_Space property.
pub uninterp spec fn white_space(c: char) -> bool;

/// Relies on `char::is_whitespace`: true exactly for the characters with
/// Unicode's White_Space property, which depends on the character alone.
#[verifier::external_body]
fn is_white_space(c: char) -> (r: bool)
    ensures
        r == white_space(c),
{
    c.is_whitespace()
}

/// The pieces of `s` between occurrences of `delimiter`, empty ones included.
pub open spec fn pieces(s: Seq<char>, delimiter: char) -> Seq<Seq<char>>
    decreases s.len(),
{
    if s.len() == 0 {
        seq![Seq::empty()]
    } else {
        let p = pieces(s.drop_last(), delimiter);
        if s.last() == delimiter {
            p.push(Seq::empty())
        } else {
            p.update(p.len() - 1, p.last().push(s.last()))
        }
    }
}

pub open spec fn trim_start(w: Seq<char>) -> Seq<char>
    decreases w.len(),
{
    if w.len() > 0 && white_space(w[0]) {
        trim_start(w.subrange(1, w.len() as int))
    } else {
        w
    }
}

pub open spec fn trim_end(w: Seq<char>) -> Seq<char>
    decreases w.len(),
{
    if w.len() > 0 && white_space(w.last()) {
        trim_end(w.drop_last())
    } else {
        w
    }
}

/// `w` without its leading and trailing white space.
pub open spec fn trimmed(w: Seq<char>) -> Seq<char> {
    trim_end(trim_start(w))
}

/// The non-empty entries of `ws`, in order.
pub open spec fn non_empty(ws: Seq<Seq<char>>) -> Seq<Seq<char>>
    decreases ws.len(),
{
    if ws.len() == 0 {
        Seq::empty()
    } else if ws.last().len() > 0 {
        non_empty(ws.drop_last()).push(ws.last())
    } else {
        non_empty(ws.drop_last())
    }
}

/// The pieces of `s` between delimiters, each trimmed, the empty ones dropped.
pub open spec fn tokens(s: Seq<char>, delimiter: char) -> Seq<Seq<char>> {
    non_empty(pieces(s, delimiter).map_values(|w: Seq<char>| trimmed(w)))
}

pub open spec fn free_of(w: Seq<char>, delimiter: char) -> bool {
    forall|k: int| 0 <= k < w.len() ==> w[k] != delimiter
}

/// A word as a token can be: trimmed already, and free of the delimiter.
pub open spec fn is_token(w: Seq<char>, delimiter: char) -> bool {
    trimmed(w) == w && free_of(w, delimiter)
}

proof fn lemma_pieces(s: Seq<char>, delimiter: char)
    ensures
        pieces(s, delimiter).len() >= 1,
        forall|j: int| 0 <= j < pieces(s, delimiter).len() ==> free_of(#[trigger] pieces(s, delimiter)[j], delimiter),
    decreases s.len(),
{
    if s.len() > 0 {
        lemma_pieces(s.drop_last(), delimiter);
        let p = pieces(s.drop_last(), delimiter);
        let q = pieces(s, delimiter);
        assert forall|j: int| 0 <= j < q.len() implies free_of(#[trigger] q[j], delimiter) by {
            if j < p.len() - 1 || s.last() == delimiter && j < p.len() {
                assert(q[j] == p[j]);
            } else if s.last() != delimiter {
                assert(free_of(p[j], delimiter));
                assert(q[j] == p[j].push(s.last()));
            }
        }
    }
}

proof fn lemma_trim_start(w: Seq<char>, delimiter: char)
    ensures
        trim_start(w).len() > 0 ==> !white_space(trim_start(w)[0]),
        trim_start(w).len() <= w.len(),
        free_of(w, delimiter) ==> free_of(trim_start(w), delimiter),
        trim_start(w).len() > 0 ==> trim_start(w).last() == w.last(),
    decreases w.len(),
{
    if w.len() > 0 && white_space(w[0]) {
        let r = w.subrange(1, w.len() as int);
        lemma_trim_start(r, delimiter);
        if free_of(w, delimiter) {
            assert(free_of(r, delimiter)) by {
                assert forall|k: int| 0 <= k < r.len() implies r[k] != delimiter by {
                    assert(r[k] == w[k + 1]);
                }
            }
        }
    }
}

proof fn lemma_trim_end(w: Seq<char>, delimiter: char)
    ensures
        trim_end(w).len() > 0 ==> !white_space(trim_end(w).last()),
        free_of(w, delimiter) ==> free_of(trim_end(w), delimiter),
        trim_end(w).len() > 0 ==> trim_end(w)[0] == w[0],
    decreases w.len(),
{
    if w.len() > 0 && white_space(w.last()) {
        lemma_trim_end(w.drop_last(), delimiter);
    }
}

/// Trimming keeps a word free of the delimiter, and trimming twice is
/// trimming once.
proof fn lemma_trimmed(w: Seq<char>, delimiter: char)
    ensures
        trimmed(trimmed(w)) == trimmed(w),
        free_of(w, delimiter) ==> free_of(trimmed(w), delimiter),
{
    let s = trim_start(w);
    let t = trimmed(w);
    lemma_trim_start(w, delimiter);
    lemma_trim_end(s, delimiter);
    if t.len() > 0 {
        assert(!white_space(t[0]) && !white_space(t.last()));
        assert(trim_start(t) == t);
        assert(trim_end(t) == t);
    }
}

proof fn lemma_non_empty(ws: Seq<Seq<char>>, delimiter: char)
    requires
        forall|j: int| 0 <= j < ws.len() ==> is_token(#[trigger] ws[j], delimiter),
    ensures
        forall|i: int| 0 <= i < non_empty(ws).len() ==> (#[trigger] non_empty(ws)[i]).len() > 0
            && is_token(non_empty(ws)[i], delimiter),
    decreases ws.len(),
{
    if ws.len() > 0 {
        let p = ws.drop_last();
        assert forall|j: int| 0 <= j < p.len() implies is_token(#[trigger] p[j], delimiter) by {
            assert(p[j] == ws[j]);
        }
        lemma_non_empty(p, delimiter);
        assert(is_token(ws[ws.len() - 1], delimiter));
        let q = non_empty(p);
        let r = non_empty(ws);
        assert forall|i: int| 0 <= i < r.len() implies (#[trigger] r[i]).len() > 0 && is_token(r[i], delimiter) by {
            if i < q.len() {
                assert(r[i] == q[i]);
            }
        }
    }
}

/// Every token is non-empty, trimmed, and free of the delimiter.
pub proof fn lemma_tokens_are_words(s: Seq<char>, delimiter: char)
    ensures
        forall|i: int| 0 <= i < tokens(s, delimiter).len() ==> (#[trigger] tokens(s, delimiter)[i]).len() > 0
            && is_token(tokens(s, delimiter)[i], delimiter),
{
    let p = pieces(s, delimiter);
    let ws = p.map_values(|w: Seq<char>| trimmed(w));
    lemma_pieces(s, delimiter);
    assert forall|j: int| 0 <= j < ws.len() implies is_token(#[trigger] ws[j], delimiter) by {
        lemma_trimmed(p[j], delimiter);
    }
    lemma_non_empty(ws, delimiter);
}

/// `w` without its leading and trailing white space.
pub fn trim(w: &Vec<char>) -> (r: Vec<char>)
    ensures
        r@ == trimmed(w@),
{
    let n = w.len();
    let mut a: usize = 0;
    assert(w@.subrange(0, n as int) =~= w@);
    while a < n && is_white_space(w[a])
        invariant
            a <= n,
            n == w@.len(),
            trim_start(w@) == trim_start(w@.subrange(a as int, n as int)),
        decreases n - a,
    {
        assert(w@.subrange(a as int, n as int).subrange(1, (n - a) as int) =~= w@.subrange(a + 1, n as int));
        a = a + 1;
    }
    assert(trim_start(w@) == w@.subrange(a as int, n as int));
    let mut b: usize = n;
    while b > a && is_white_space(w[b - 1])
        invariant
            a <= b <= n,
            n == w@.len(),
            trimmed(w@) == trim_end(w@.subrange(a as int, b as int)),
        decreases b - a,
    {
        assert(w@.subrange(a as int, b as int).drop_last() =~= w@.subrange(a as int, b - 1));
        b = b - 1;
    }
    assert(trimmed(w@) == w@.subrange(a as int, b as int));
    let mut r: Vec<char> = Vec::new();
    let mut k: usize = a;
    while k < b
        invariant
            a <= k <= b,
            b <= w@.len(),
            r@ == w@.subrange(a as int, k as int),
        decreases b - k,
    {
        r.push(w[k]);
        assert(r@ =~= w@.subrange(a as int, k + 1));
        k = k + 1;
    }
    r
}

/// Keeps letters, digits, space, hyphen, apostrophe and period, turns each
/// newline into a space, and drops every other character.
pub fn regularize_text(text: &Vec<char>) -> (r: Vec<char>)
    ensures
        r@ == regularized(text@),
{
    let mut out: Vec<char> = Vec::new();
    let mut i: usize = 0;
    while i < text.len()
        invariant
            i <= text@.len(),
            out@ == regularized(text@.take(i as int)),
        decreases text@.len() - i,
    {
        let c = text[i];
        proof {
            assert(text@.take(i + 1).drop_last() =~= text@.take(i as int));
        }
        if c == '\n' {
            out.push(' ');
        } else if ('A' <= c && c <= 'Z') || ('a' <= c && c <= 'z') || ('0' <= c && c <= '9')
            || c == ' ' || c == '-' || c == '\'' || c == '.' {
            out.push(c);
        }
        assert(out@ =~= regularized(text@.take(i + 1)));
        i = i + 1;
    }
    assert(text@.take(i as int) =~= text@);
    out
}

/// Splits at `delimiter`, trims each piece, and drops the empty ones.
pub fn split_by(text: &Vec<char>, delimiter: char) -> (r: Vec<Vec<char>>)
    ensures
        r@.map_values(|w: Vec<char>| w@) == tokens(text@, delimiter),
        forall|i: int| 0 <= i < r@.len() ==> (#[trigger] r@[i])@.len() > 0 && is_token(r@[i]@, delimiter),
{
    let mut words: Vec<Vec<char>> = Vec::new();
    let mut cur: Vec<char> = Vec::new();
    let mut i: usize = 0;
    proof {
        lemma_pieces(text@.take(0), delimiter);
        assert(pieces(text@.take(0), delimiter).drop_last() =~= Seq::<Seq<char>>::empty());
        assert(words@.map_values(|w: Vec<char>| w@) =~= Seq::<Seq<char>>::empty());
    }
    while i < text.len()
        invariant
            i <= text@.len(),
            pieces(text@.take(i as int), delimiter).len() >= 1,
            cur@ == pieces(text@.take(i as int), delimiter).last(),
            words@.map_values(|w: Vec<char>| w@) == non_empty(
                pieces(text@.take(i as int), delimiter).drop_last().map_values(|w: Seq<char>| trimmed(w)),
            ),
        decreases text@.len() - i,
    {
        let c = text[i];
        let ghost p = pieces(text@.take(i as int), delimiter);
        let ghost ws0 = words@;
        proof {
            assert(text@.take(i + 1).drop_last() =~= text@.take(i as int));
            assert(text@.take(i + 1).last() == c);
        }
        if c == delimiter {
            let t = trim(&cur);
            proof {
                let m = p.map_values(|w: Seq<char>| trimmed(w));
                assert(m.drop_last() =~= p.drop_last().map_values(|w: Seq<char>| trimmed(w)));
                assert(p.push(Seq::empty()).drop_last() =~= p);
            }
            if t.len() > 0 {
                words.push(t);
                assert(words@.map_values(|w: Vec<char>| w@) =~= ws0.map_values(|w: Vec<char>| w@).push(t@));
            }
            cur = Vec::new();
            assert(cur@ =~= Seq::<char>::empty());
        } else {
            cur.push(c);
            proof {
                let q = p.update(p.len() - 1, p.last().push(c));
                assert(q.drop_last() =~= p.drop_last());
            }
        }
        i = i + 1;
    }
    assert(text@.take(i as int) =~= text@);
    let ghost ws1 = words@;
    let ghost p = pieces(text@, delimiter);
    let t = trim(&cur);
    proof {
        let m = p.map_values(|w: Seq<char>| trimmed(w));
        assert(m.drop_last() =~= p.drop_last().map_values(|w: Seq<char>| trimmed(w)));
    }
    if t.len() > 0 {
        words.push(t);
        assert(words@.map_values(|w: Vec<char>| w@) =~= ws1.map_values(|w: Vec<char>| w@).push(t@));
    }
    proof {
        lemma_tokens_are_words(text@, delimiter);
        assert forall|i: int| 0 <= i < words@.len() implies (#[trigger] words@[i])@.len() > 0 && is_token(words@[i]@, delimiter) by {
            assert(words@.map_values(|w: Vec<char>| w@)[i] == words@[i]@);
            assert(tokens(text@, delimiter)[i] == words@[i]@);
        }
    }
    words
}

} // verus!
