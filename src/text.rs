//! Reading the run's text inputs: decimal weights, the comma-separated roster
//! and the repository identifier.
use vstd::prelude::*;

verus! {

/// A character with the Unicode White_Space property.
pub open spec fn is_white_space(c: char) -> bool {
    ('\u{9}' <= c && c <= '\u{d}') || c == ' ' || c == '\u{85}' || c == '\u{a0}' || c == '\u{1680}' || (
    '\u{2000}' <= c && c <= '\u{200a}') || c == '\u{2028}' || c == '\u{2029}' || c == '\u{202f}' || c
        == '\u{205f}' || c == '\u{3000}'
}

/// The index of the first character of `s` at or after `i` that is no white space.
pub open spec fn lead_end(s: Seq<char>, i: int) -> int
    decreases s.len() - i,
{
    if i < 0 || i >= s.len() {
        s.len() as int
    } else if is_white_space(s[i]) {
        lead_end(s, i + 1)
    } else {
        i
    }
}

/// One past the last character of `s` before `j` that is no white space, or 0.
pub open spec fn trail_start(s: Seq<char>, j: int) -> int
    decreases j,
{
    if j <= 0 || j > s.len() {
        0
    } else if is_white_space(s[j - 1]) {
        trail_start(s, j - 1)
    } else {
        j
    }
}

/// `s` without its leading and trailing white space.
pub open spec fn trimmed(s: Seq<char>) -> Seq<char> {
    let i = lead_end(s, 0);
    if i >= s.len() {
        Seq::empty()
    } else {
        s.subrange(i, trail_start(s, s.len() as int))
    }
}

#[verifier::external_body]
fn trim_text(s: &str) -> (r: String)
    ensures
        r@ == trimmed(s@),
{
    s.trim().to_string()
}

/// The index of the last comma among the first `n` characters of `s`, or -1.
pub open spec fn last_comma_before(s: Seq<char>, n: int) -> int
    decreases n,
{
    if n <= 0 {
        -1
    } else if s[n - 1] == ',' {
        n - 1
    } else {
        last_comma_before(s, n - 1)
    }
}

/// The comma-separated pieces of the first `n` characters of `s`, empty pieces
/// included.
pub open spec fn pieces(s: Seq<char>, n: int) -> Seq<Seq<char>>
    decreases n,
{
    let c = last_comma_before(s, n);
    if 0 <= c < n {
        pieces(s, c).push(s.subrange(c + 1, n))
    } else {
        seq![s.subrange(0, n)]
    }
}

/// The trimmed pieces of a list.
pub open spec fn trim_all(p: Seq<Seq<char>>) -> Seq<Seq<char>> {
    p.map_values(|x: Seq<char>| trimmed(x))
}

/// The roster that a comma-separated list gives: each piece trimmed, empty
/// pieces kept, duplicates kept.
pub open spec fn roster_of(s: Seq<char>) -> Seq<Seq<char>> {
    trim_all(pieces(s, s.len() as int))
}

proof fn lemma_last_comma(s: Seq<char>, start: int, n: int)
    requires
        0 <= start <= n <= s.len(),
        start == 0 || s[start - 1] == ',',
        forall|k: int| start <= k < n ==> s[k] != ',',
    ensures
        last_comma_before(s, n) == start - 1,
    decreases n,
{
    if n > start {
        lemma_last_comma(s, start, n - 1);
    }
}

proof fn lemma_push_piece(before: Seq<String>, piece: String, prev: Seq<Seq<char>>, raw: Seq<char>)
    requires
        before.map_values(|x: String| x@) == trim_all(prev),
        piece@ == trimmed(raw),
    ensures
        before.push(piece).map_values(|x: String| x@) == trim_all(prev.push(raw)),
{
    let l = before.push(piece).map_values(|x: String| x@);
    let r = trim_all(prev.push(raw));
    assert(before.map_values(|x: String| x@).len() == before.len());
    assert(trim_all(prev).len() == prev.len());
    assert(before.len() == prev.len());
    assert forall|k: int| 0 <= k < l.len() implies l[k] == r[k] by {
        if k < before.len() {
            assert(before.map_values(|x: String| x@)[k] == trim_all(prev)[k]);
            assert(before.push(piece)[k] == before[k]);
            assert(prev.push(raw)[k] == prev[k]);
        }
    }
    assert(l =~= r);
}

/// Splits a comma-separated list of logins and trims each piece.
pub fn split_roster(text: &str) -> (r: Vec<String>)
    ensures
        r@.map_values(|x: String| x@) == roster_of(text@),
{
    let n = text.unicode_len();
    let ghost s = text@;
    let mut out: Vec<String> = Vec::new();
    let mut start: usize = 0;
    let mut i: usize = 0;
    while i < n
        invariant
            0 <= start <= i <= n == s.len(),
            s == text@,
            start == 0 || s[start - 1] == ',',
            forall|k: int| start <= k < i ==> s[k] != ',',
            out@.map_values(|x: String| x@) == (if start == 0 { Seq::<Seq<char>>::empty() } else { trim_all(pieces(s, start - 1)) }),
        decreases n - i,
    {
        if text.get_char(i) == ',' {
            let piece = trim_text(text.substring_char(start, i));
            let ghost before = out@;
            out.push(piece);
            proof {
                lemma_last_comma(s, start as int, i as int);
                if start > 0 {
                    assert(pieces(s, i as int) == pieces(s, start - 1).push(s.subrange(start as int, i as int)));
                    lemma_push_piece(before, out@[out@.len() - 1], pieces(s, start - 1), s.subrange(start as int, i as int));
                    assert(out@ == before.push(out@[out@.len() - 1]));
                    assert(out@.map_values(|x: String| x@) =~= trim_all(pieces(s, i as int)));
                } else {
                    assert(pieces(s, i as int) == seq![s.subrange(0, i as int)]);
                    assert(out@.map_values(|x: String| x@)[0] == out@[0]@);
                    assert(out@.map_values(|x: String| x@) =~= trim_all(pieces(s, i as int)));
                }
            }
            start = i + 1;
        }
        i = i + 1;
    }
    let piece = trim_text(text.substring_char(start, n));
    let ghost before = out@;
    out.push(piece);
    proof {
        lemma_last_comma(s, start as int, n as int);
        if start > 0 {
            assert(pieces(s, n as int) == pieces(s, start - 1).push(s.subrange(start as int, n as int)));
            lemma_push_piece(before, out@[out@.len() - 1], pieces(s, start - 1), s.subrange(start as int, n as int));
            assert(out@ == before.push(out@[out@.len() - 1]));
        } else {
            assert(pieces(s, n as int) == seq![s.subrange(0, n as int)]);
        }
        assert(out@.map_values(|x: String| x@) =~= trim_all(pieces(s, n as int)));
    }
    out
}

/// The index of the first slash in `s` at or after `k`, or the length of `s`.
pub open spec fn slash_from(s: Seq<char>, k: int) -> int
    decreases s.len() - k,
{
    if k < 0 || k >= s.len() {
        s.len() as int
    } else if s[k] == '/' {
        k
    } else {
        slash_from(s, k + 1)
    }
}

/// The repository name in an `owner/name` identifier: the text between the
/// first slash and the next one (or the end); `None` where there is no slash.
pub open spec fn repo_name_of(s: Seq<char>) -> Option<Seq<char>> {
    let c = slash_from(s, 0);
    if c >= s.len() {
        None
    } else {
        Some(s.subrange(c + 1, slash_from(s, c + 1)))
    }
}

fn find_slash(text: &str, from: usize, n: usize) -> (r: usize)
    requires
        from <= n,
        n == text@.len(),
    ensures
        r == slash_from(text@, from as int),
        from <= r <= n,
{
    let mut i: usize = from;
    while i < n && text.get_char(i) != '/'
        invariant
            from <= i <= n == text@.len(),
            slash_from(text@, from as int) == slash_from(text@, i as int),
        decreases n - i,
    {
        i = i + 1;
    }
    i
}

/// Takes the repository name out of an `owner/name` identifier.
pub fn repo_name_from(full: &str) -> (r: Option<String>)
    ensures
        r is Some <==> repo_name_of(full@) is Some,
        r matches Some(v) ==> Some(v@) == repo_name_of(full@),
{
    let n = full.unicode_len();
    let c = find_slash(full, 0, n);
    if c >= n {
        return None;
    }
    let e = find_slash(full, c + 1, n);
    Some(full.substring_char(c + 1, e).to_owned())
}

} // verus!
