//! The meaning of validity, as spec functions over the document's characters.
//!
//! A document is a `Seq<char>`; the unconsumed part of it is the range
//! `[lo, hi)`. Every function here reads that range only.
use vstd::prelude::*;

verus! {

/// Unicode `White_Space`: what `char::is_whitespace` and a regex `\s` accept.
pub open spec fn is_ws(c: char) -> bool {
    let u = c as u32;
    (0x09 <= u && u <= 0x0d) || u == 0x20 || u == 0x85 || u == 0xa0 || u == 0x1680 || (0x2000 <= u
        && u <= 0x200a) || u == 0x2028 || u == 0x2029 || u == 0x202f || u == 0x205f || u == 0x3000
}

/// The first index in `[from, to)` that holds `c`.
pub open spec fn find_char(s: Seq<char>, c: char, from: int, to: int) -> Option<int>
    decreases to - from,
{
    if from >= to {
        None
    } else if s[from] == c {
        Some(from)
    } else {
        find_char(s, c, from + 1, to)
    }
}

/// The first tag of `s[lo..hi)`, as the range `[start, end)`: it runs from the
/// first `<` to the nearest `>` after it. There is none when no `>` follows
/// the first `<`.
pub open spec fn next_tag(s: Seq<char>, lo: int, hi: int) -> Option<(int, int)> {
    match find_char(s, '<', lo, hi) {
        None => None,
        Some(a) => match find_char(s, '>', a + 1, hi) {
            None => None,
            Some(g) => Some((a, g + 1)),
        },
    }
}

/// A tag (whose only `>` is its last character) is a prolog `<?...?>` when it
/// ends in `?>` and holds a `<?` that ends before that `?`.
pub open spec fn is_prolog(t: Seq<char>) -> bool {
    &&& t.len() >= 4
    &&& t[t.len() - 2] == '?'
    &&& t[t.len() - 1] == '>'
    &&& exists|i: int| 0 <= i <= t.len() - 4 && #[trigger] t[i] == '<' && t[i + 1] == '?'
}

/// The tag text begins with `<!--`.
pub open spec fn opens_comment(t: Seq<char>) -> bool {
    t.len() >= 4 && t[0] == '<' && t[1] == '!' && t[2] == '-' && t[3] == '-'
}

/// The tag text is a whole comment `<!--...-->`: the `-->` comes after the `<!--`.
pub open spec fn is_full_comment(t: Seq<char>) -> bool {
    &&& opens_comment(t)
    &&& t.len() >= 7
    &&& t[t.len() - 3] == '-'
    &&& t[t.len() - 2] == '-'
    &&& t[t.len() - 1] == '>'
}

/// The index just past the first `-->` in `s[from..to)`.
pub open spec fn comment_close(s: Seq<char>, from: int, to: int) -> Option<int>
    decreases to - from,
{
    if from + 3 > to {
        None
    } else if s[from] == '-' && s[from + 1] == '-' && s[from + 2] == '>' {
        Some(from + 3)
    } else {
        comment_close(s, from + 1, to)
    }
}

/// A `<` between the tag's own delimiters.
pub open spec fn has_inner_lt(t: Seq<char>) -> bool {
    exists|i: int| 1 <= i < t.len() - 1 && t[i] == '<'
}

/// The tag text begins with `</`.
pub open spec fn is_closing(t: Seq<char>) -> bool {
    t.len() >= 2 && t[0] == '<' && t[1] == '/'
}

/// The name that an opening tag `<name>` pushes.
pub open spec fn open_name(t: Seq<char>) -> Seq<char> {
    t.subrange(1, t.len() - 1)
}

/// The name that a closing tag `</name>` pops.
pub open spec fn close_name(t: Seq<char>) -> Seq<char> {
    t.subrange(2, t.len() - 1)
}

/// One of the five escapes accepted in text.
pub open spec fn is_escape(r: Seq<char>) -> bool {
    ||| r == seq!['&', 'l', 't', ';']
    ||| r == seq!['&', 'g', 't', ';']
    ||| r == seq!['&', 'a', 'm', 'p', ';']
    ||| r == seq!['&', 'a', 'p', 'o', 's', ';']
    ||| r == seq!['&', 'q', 'u', 'o', 't', ';']
}

/// The five escapes, character by character.
pub proof fn lemma_escape_chars(r: Seq<char>)
    ensures
        is_escape(r) <==> {
            ||| r.len() == 4 && r[0] == '&' && (r[1] == 'l' || r[1] == 'g') && r[2] == 't' && r[3]
                == ';'
            ||| r.len() == 5 && r[0] == '&' && r[1] == 'a' && r[2] == 'm' && r[3] == 'p' && r[4]
                == ';'
            ||| r.len() == 6 && r[0] == '&' && ((r[1] == 'a' && r[2] == 'p' && r[3] == 'o' && r[4]
                == 's') || (r[1] == 'q' && r[2] == 'u' && r[3] == 'o' && r[4] == 't')) && r[5]
                == ';'
        },
{
    let lt = seq!['&', 'l', 't', ';'];
    let gt = seq!['&', 'g', 't', ';'];
    let amp = seq!['&', 'a', 'm', 'p', ';'];
    let apos = seq!['&', 'a', 'p', 'o', 's', ';'];
    let quot = seq!['&', 'q', 'u', 'o', 't', ';'];
    assert(lt.len() == 4 && lt[0] == '&' && lt[1] == 'l' && lt[2] == 't' && lt[3] == ';');
    assert(gt.len() == 4 && gt[0] == '&' && gt[1] == 'g' && gt[2] == 't' && gt[3] == ';');
    assert(amp.len() == 5 && amp[0] == '&' && amp[1] == 'a' && amp[2] == 'm' && amp[3] == 'p'
        && amp[4] == ';');
    assert(apos.len() == 6 && apos[0] == '&' && apos[1] == 'a' && apos[2] == 'p' && apos[3] == 'o'
        && apos[4] == 's' && apos[5] == ';');
    assert(quot.len() == 6 && quot[0] == '&' && quot[1] == 'q' && quot[2] == 'u' && quot[3] == 'o'
        && quot[4] == 't' && quot[5] == ';');
    if r.len() == 4 && r[1] == 'l' {
        assert(r[0] == '&' && r[2] == 't' && r[3] == ';' ==> r =~= lt);
    }
    if r.len() == 4 && r[1] == 'g' {
        assert(r[0] == '&' && r[2] == 't' && r[3] == ';' ==> r =~= gt);
    }
    if r.len() == 5 {
        assert(r[0] == '&' && r[1] == 'a' && r[2] == 'm' && r[3] == 'p' && r[4] == ';' ==> r
            =~= amp);
    }
    if r.len() == 6 && r[1] == 'a' {
        assert(r[0] == '&' && r[2] == 'p' && r[3] == 'o' && r[4] == 's' && r[5] == ';' ==> r
            =~= apos);
    }
    if r.len() == 6 && r[1] == 'q' {
        assert(r[0] == '&' && r[2] == 'u' && r[3] == 'o' && r[4] == 't' && r[5] == ';' ==> r
            =~= quot);
    }
}

/// How many characters from `i` on the body of a reference takes: the run of
/// characters that are neither `;` nor whitespace, and the `;` that ends it, if any.
pub open spec fn ref_len(s: Seq<char>, i: int, hi: int) -> nat
    decreases hi - i,
{
    if i >= hi {
        0
    } else if s[i] == ';' {
        1
    } else if is_ws(s[i]) {
        0
    } else {
        1 + ref_len(s, i + 1, hi)
    }
}

/// Every reference in `s[lo..hi)` (a `&`, the run after it, its `;`) is one of
/// the five escapes. The search for the next reference resumes after the last.
pub open spec fn escapes_ok(s: Seq<char>, lo: int, hi: int) -> bool
    decreases hi - lo,
    via escapes_ok_decreases
{
    if lo >= hi {
        true
    } else if s[lo] != '&' {
        escapes_ok(s, lo + 1, hi)
    } else {
        let e = lo + 1 + ref_len(s, lo + 1, hi);
        is_escape(s.subrange(lo, e)) && escapes_ok(s, e, hi)
    }
}

#[via_fn]
proof fn escapes_ok_decreases(s: Seq<char>, lo: int, hi: int) {
    if lo < hi {
        lemma_ref_len(s, lo + 1, hi);
    }
}

/// The first index in `[from, to)` that is not whitespace, or `to`.
pub open spec fn trim_start(s: Seq<char>, from: int, to: int) -> int
    decreases to - from,
{
    if from >= to {
        from
    } else if is_ws(s[from]) {
        trim_start(s, from + 1, to)
    } else {
        from
    }
}

/// The index just past the last character in `[from, to)` that is not
/// whitespace, or `from`.
pub open spec fn trim_end(s: Seq<char>, from: int, to: int) -> int
    decreases to - from,
{
    if to <= from {
        to
    } else if is_ws(s[to - 1]) {
        trim_end(s, from, to - 1)
    } else {
        to
    }
}

/// Where the scan resumes after the tag `t` that ends at `b`: right after it,
/// or, for a `<!--` tag that is not a whole comment, after the next `-->`.
pub open spec fn resume_at(s: Seq<char>, t: Seq<char>, b: int, hi: int) -> Option<int> {
    if opens_comment(t) {
        comment_close(s, b, hi)
    } else {
        Some(b)
    }
}

/// The scan of `s[lo..hi)` from the given state accepts: `stack` holds the
/// open names (the last one innermost), `after_prolog` says the first tag has
/// been seen, `after_head` that the first tag that is not a prolog has been.
pub open spec fn scan(
    s: Seq<char>,
    lo: int,
    hi: int,
    stack: Seq<Seq<char>>,
    after_prolog: bool,
    after_head: bool,
) -> bool
    decreases hi - lo,
    via scan_decreases
{
    if lo >= hi {
        stack.len() == 0
    } else {
        match next_tag(s, lo, hi) {
            None => false,
            Some((a, b)) => {
                let t = s.subrange(a, b);
                if !escapes_ok(s, lo, a) {
                    false
                } else if !after_prolog && is_prolog(t) {
                    let l = trim_start(s, b, hi);
                    let h = trim_end(s, l, hi);
                    l < h && scan(s, l, h, stack, true, after_head)
                } else if !after_head && a != lo {
                    false
                } else if is_full_comment(t) {
                    scan(s, b, hi, stack, true, true)
                } else {
                    match resume_at(s, t, b, hi) {
                        None => false,
                        Some(r) => if has_inner_lt(t) {
                            false
                        } else if is_closing(t) {
                            &&& stack.len() > 0
                            &&& stack.last() == close_name(t)
                            &&& scan(s, r, hi, stack.drop_last(), true, true)
                        } else {
                            scan(s, r, hi, stack.push(open_name(t)), true, true)
                        },
                    }
                }
            },
        }
    }
}

#[via_fn]
proof fn scan_decreases(
    s: Seq<char>,
    lo: int,
    hi: int,
    stack: Seq<Seq<char>>,
    after_prolog: bool,
    after_head: bool,
) {
    if lo < hi {
        lemma_next_tag(s, lo, hi);
        if let Some((a, b)) = next_tag(s, lo, hi) {
            lemma_trim_start(s, b, hi);
            lemma_trim_end(s, trim_start(s, b, hi), hi);
            lemma_comment_close(s, b, hi);
        }
    }
}

/// The document is valid: it is not empty, and the scan of all of it, from an
/// empty stack and with no tag seen, accepts.
pub open spec fn valid_xml(s: Seq<char>) -> bool {
    s.len() > 0 && scan(s, 0, s.len() as int, Seq::empty(), false, false)
}

pub proof fn lemma_find_char(s: Seq<char>, c: char, from: int, to: int)
    ensures
        match find_char(s, c, from, to) {
            Some(i) => from <= i < to && s[i] == c && forall|k: int| from <= k < i ==> s[k] != c,
            None => forall|k: int| from <= k < to ==> s[k] != c,
        },
    decreases to - from,
{
    if from < to && s[from] != c {
        lemma_find_char(s, c, from + 1, to);
    }
}

pub proof fn lemma_next_tag(s: Seq<char>, lo: int, hi: int)
    ensures
        match next_tag(s, lo, hi) {
            Some((a, b)) => {
                &&& lo <= a < b - 1 < hi
                &&& s[a] == '<'
                &&& s[b - 1] == '>'
                &&& forall|k: int| lo <= k < a ==> s[k] != '<'
                &&& forall|k: int| a < k < b - 1 ==> s[k] != '>'
            },
            None => true,
        },
{
    lemma_find_char(s, '<', lo, hi);
    if let Some(a) = find_char(s, '<', lo, hi) {
        lemma_find_char(s, '>', a + 1, hi);
    }
}

pub proof fn lemma_trim_start(s: Seq<char>, from: int, to: int)
    requires
        from <= to,
    ensures
        from <= trim_start(s, from, to) <= to,
    decreases to - from,
{
    if from < to && is_ws(s[from]) {
        lemma_trim_start(s, from + 1, to);
    }
}

pub proof fn lemma_trim_end(s: Seq<char>, from: int, to: int)
    requires
        from <= to,
    ensures
        from <= trim_end(s, from, to) <= to,
    decreases to - from,
{
    if from < to && is_ws(s[to - 1]) {
        lemma_trim_end(s, from, to - 1);
    }
}

pub proof fn lemma_comment_close(s: Seq<char>, from: int, to: int)
    ensures
        match comment_close(s, from, to) {
            Some(e) => from + 3 <= e <= to,
            None => true,
        },
    decreases to - from,
{
    if from + 3 <= to && !(s[from] == '-' && s[from + 1] == '-' && s[from + 2] == '>') {
        lemma_comment_close(s, from + 1, to);
    }
}

pub proof fn lemma_ref_len(s: Seq<char>, i: int, hi: int)
    requires
        i <= hi,
    ensures
        i + ref_len(s, i, hi) <= hi,
    decreases hi - i,
{
    if i < hi && s[i] != ';' && !is_ws(s[i]) {
        lemma_ref_len(s, i + 1, hi);
    }
}

} // verus!
