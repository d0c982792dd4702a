//! The one-pass scanner over a document's characters.
use vstd::prelude::*;

use crate::model::{
    close_name, comment_close, escapes_ok, find_char, has_inner_lt, is_closing, is_escape,
    is_full_comment, is_prolog, is_ws, lemma_comment_close, lemma_escape_chars, lemma_find_char,
    lemma_next_tag, lemma_trim_end, lemma_trim_start, next_tag, open_name, opens_comment, ref_len,
    resume_at, scan, trim_end, trim_start, valid_xml,
};

verus! {

/// The characters of `s`, in order.
pub(crate) fn chars_of(s: &str) -> (r: Vec<char>)
    ensures
        r@ == s@,
{
    let mut r: Vec<char> = Vec::new();
    for c in it: s.chars()
        invariant
            r@ == it.seq().take(it.index() as int),
            it.seq() == s@,
    {
        r.push(c);
    }
    r
}

/// Whether `c` is Unicode whitespace.
fn is_whitespace(c: char) -> (r: bool)
    ensures
        r == is_ws(c),
{
    let u = c as u32;
    (0x09 <= u && u <= 0x0d) || u == 0x20 || u == 0x85 || u == 0xa0 || u == 0x1680 || (0x2000 <= u
        && u <= 0x200a) || u == 0x2028 || u == 0x2029 || u == 0x202f || u == 0x205f || u == 0x3000
}

/// The first index in `[from, to)` of `s` that holds `c`.
fn find_char_in(s: &Vec<char>, c: char, from: usize, to: usize) -> (r: Option<usize>)
    requires
        from <= to <= s.len(),
    ensures
        match r {
            Some(i) => find_char(s@, c, from as int, to as int) == Some(i as int),
            None => find_char(s@, c, from as int, to as int) is None,
        },
{
    let mut i = from;
    while i < to
        invariant
            from <= i <= to <= s.len(),
            find_char(s@, c, from as int, to as int) == find_char(s@, c, i as int, to as int),
        decreases to - i,
    {
        if s[i] == c {
            return Some(i);
        }
        i = i + 1;
    }
    None
}

/// The first tag of `s[lo..hi)`.
fn next_tag_in(s: &Vec<char>, lo: usize, hi: usize) -> (r: Option<(usize, usize)>)
    requires
        lo <= hi <= s.len(),
    ensures
        match r {
            Some((a, b)) => next_tag(s@, lo as int, hi as int) == Some((a as int, b as int)),
            None => next_tag(s@, lo as int, hi as int) is None,
        },
{
    proof {
        lemma_find_char(s@, '<', lo as int, hi as int);
    }
    match find_char_in(s, '<', lo, hi) {
        None => None,
        Some(a) => match find_char_in(s, '>', a + 1, hi) {
            None => None,
            Some(g) => {
                proof {
                    lemma_find_char(s@, '>', a + 1, hi as int);
                }
                Some((a, g + 1))
            },
        },
    }
}

/// The tag `s[a..b)` has the prolog shape.
fn is_prolog_at(s: &Vec<char>, a: usize, b: usize) -> (r: bool)
    requires
        a < b <= s.len(),
    ensures
        r == is_prolog(s@.subrange(a as int, b as int)),
{
    let ghost t = s@.subrange(a as int, b as int);
    if b - a < 4 || s[b - 2] != '?' || s[b - 1] != '>' {
        return false;
    }
    assert(t[t.len() - 2] == '?' && t[t.len() - 1] == '>');
    let mut i = a;
    while i <= b - 4
        invariant
            a <= i <= b,
            b - a >= 4,
            t == s@.subrange(a as int, b as int),
            t[t.len() - 2] == '?' && t[t.len() - 1] == '>',
            b <= s.len(),
            forall|k: int| 0 <= k < i - a ==> !(#[trigger] t[k] == '<' && t[k + 1] == '?'),
        decreases b - i,
    {
        if s[i] == '<' && s[i + 1] == '?' {
            let ghost k = i - a;
            assert(0 <= k <= t.len() - 4 && t[k] == '<' && t[k + 1] == '?');
            return true;
        }
        i = i + 1;
    }
    false
}

/// The tag `s[a..b)` begins with `<!--`.
fn opens_comment_at(s: &Vec<char>, a: usize, b: usize) -> (r: bool)
    requires
        a <= b <= s.len(),
    ensures
        r == opens_comment(s@.subrange(a as int, b as int)),
{
    b - a >= 4 && s[a] == '<' && s[a + 1] == '!' && s[a + 2] == '-' && s[a + 3] == '-'
}

/// The tag `s[a..b)` is a whole comment.
fn is_full_comment_at(s: &Vec<char>, a: usize, b: usize) -> (r: bool)
    requires
        a <= b <= s.len(),
    ensures
        r == is_full_comment(s@.subrange(a as int, b as int)),
{
    opens_comment_at(s, a, b) && b - a >= 7 && s[b - 3] == '-' && s[b - 2] == '-' && s[b - 1]
        == '>'
}

/// The index just past the first `-->` in `s[from..to)`.
fn comment_close_in(s: &Vec<char>, from: usize, to: usize) -> (r: Option<usize>)
    requires
        from <= to <= s.len(),
    ensures
        match r {
            Some(e) => comment_close(s@, from as int, to as int) == Some(e as int),
            None => comment_close(s@, from as int, to as int) is None,
        },
{
    let mut i = from;
    while to - i >= 3
        invariant
            from <= i <= to <= s.len(),
            comment_close(s@, from as int, to as int) == comment_close(s@, i as int, to as int),
        decreases to - i,
    {
        if s[i] == '-' && s[i + 1] == '-' && s[i + 2] == '>' {
            return Some(i + 3);
        }
        i = i + 1;
    }
    None
}

/// The tag `s[a..b)` holds a `<` between its delimiters.
fn has_inner_lt_at(s: &Vec<char>, a: usize, b: usize) -> (r: bool)
    requires
        a < b <= s.len(),
    ensures
        r == has_inner_lt(s@.subrange(a as int, b as int)),
{
    let ghost t = s@.subrange(a as int, b as int);
    let mut i = a + 1;
    while i < b - 1
        invariant
            a + 1 <= i <= b,
            b <= s.len(),
            t == s@.subrange(a as int, b as int),
            forall|k: int| 1 <= k < i - a ==> #[trigger] t[k] != '<',
        decreases b - i,
    {
        if s[i] == '<' {
            assert(t[i - a] == '<');
            return true;
        }
        i = i + 1;
    }
    false
}

/// The tag `s[a..b)` begins with `</`.
fn is_closing_at(s: &Vec<char>, a: usize, b: usize) -> (r: bool)
    requires
        a <= b <= s.len(),
    ensures
        r == is_closing(s@.subrange(a as int, b as int)),
{
    b - a >= 2 && s[a] == '<' && s[a + 1] == '/'
}

/// `s[a..b)` and `s[c..d)` hold the same characters.
fn same_text(s: &Vec<char>, a: usize, b: usize, c: usize, d: usize) -> (r: bool)
    requires
        a <= b <= s.len(),
        c <= d <= s.len(),
    ensures
        r == (s@.subrange(a as int, b as int) == s@.subrange(c as int, d as int)),
{
    let ghost x = s@.subrange(a as int, b as int);
    let ghost y = s@.subrange(c as int, d as int);
    if b - a != d - c {
        assert(x.len() != y.len());
        return false;
    }
    let mut i: usize = 0;
    while i < b - a
        invariant
            a <= b <= s.len(),
            c <= d <= s.len(),
            b - a == d - c,
            0 <= i <= b - a,
            x == s@.subrange(a as int, b as int),
            y == s@.subrange(c as int, d as int),
            forall|k: int| 0 <= k < i ==> #[trigger] x[k] == y[k],
        decreases b - a - i,
    {
        if s[a + i] != s[c + i] {
            assert(x[i as int] != y[i as int]);
            return false;
        }
        i = i + 1;
    }
    assert(x =~= y);
    true
}

/// `s[a..e)` is one of the five escapes.
fn is_escape_at(s: &Vec<char>, a: usize, e: usize) -> (r: bool)
    requires
        a <= e <= s.len(),
    ensures
        r == is_escape(s@.subrange(a as int, e as int)),
{
    proof {
        lemma_escape_chars(s@.subrange(a as int, e as int));
    }
    let n = e - a;
    if n == 4 {
        s[a] == '&' && (s[a + 1] == 'l' || s[a + 1] == 'g') && s[a + 2] == 't' && s[a + 3] == ';'
    } else if n == 5 {
        s[a] == '&' && s[a + 1] == 'a' && s[a + 2] == 'm' && s[a + 3] == 'p' && s[a + 4] == ';'
    } else if n == 6 {
        let apos = s[a + 1] == 'a' && s[a + 2] == 'p' && s[a + 3] == 'o' && s[a + 4] == 's';
        let quot = s[a + 1] == 'q' && s[a + 2] == 'u' && s[a + 3] == 'o' && s[a + 4] == 't';
        s[a] == '&' && (apos || quot) && s[a + 5] == ';'
    } else {
        false
    }
}

/// Every reference in `s[lo..hi)` is one of the five escapes.
fn escapes_ok_in(s: &Vec<char>, lo: usize, hi: usize) -> (r: bool)
    requires
        lo <= hi <= s.len(),
    ensures
        r == escapes_ok(s@, lo as int, hi as int),
{
    let mut i = lo;
    while i < hi
        invariant
            lo <= i <= hi <= s.len(),
            escapes_ok(s@, lo as int, hi as int) == escapes_ok(s@, i as int, hi as int),
        decreases hi - i,
    {
        if s[i] != '&' {
            i = i + 1;
        } else {
            let mut j = i + 1;
            while j < hi && s[j] != ';' && !is_whitespace(s[j])
                invariant
                    i + 1 <= j <= hi <= s.len(),
                    ref_len(s@, i + 1, hi as int) == (j - (i + 1)) + ref_len(s@, j as int, hi as int),
                decreases hi - j,
            {
                j = j + 1;
            }
            let e = if j < hi && s[j] == ';' {
                j + 1
            } else {
                j
            };
            assert(e == i + 1 + ref_len(s@, i + 1, hi as int));
            if !is_escape_at(s, i, e) {
                return false;
            }
            i = e;
        }
    }
    true
}

/// Every `&` in `text` begins one of the escapes `&lt;`, `&gt;`, `&amp;`,
/// `&apos;` and `&quot;`: each reference (a `&`, the run of characters after it
/// that are neither `;` nor whitespace, and the `;` that ends the run, if any)
/// is exactly one of them.
pub fn escapes_valid(text: &str) -> (r: bool)
    ensures
        r == escapes_ok(text@, 0, text@.len() as int),
{
    let s = chars_of(text);
    escapes_ok_in(&s, 0, s.len())
}

/// The first index in `[from, to)` that is not whitespace, or `to`.
fn trim_start_in(s: &Vec<char>, from: usize, to: usize) -> (r: usize)
    requires
        from <= to <= s.len(),
    ensures
        r == trim_start(s@, from as int, to as int),
{
    let mut i = from;
    while i < to && is_whitespace(s[i])
        invariant
            from <= i <= to <= s.len(),
            trim_start(s@, from as int, to as int) == trim_start(s@, i as int, to as int),
        decreases to - i,
    {
        i = i + 1;
    }
    i
}

/// The index past the last character in `[from, to)` that is not whitespace,
/// or `from`.
fn trim_end_in(s: &Vec<char>, from: usize, to: usize) -> (r: usize)
    requires
        from <= to <= s.len(),
    ensures
        r == trim_end(s@, from as int, to as int),
{
    let mut j = to;
    while j > from && is_whitespace(s[j - 1])
        invariant
            from <= j <= to <= s.len(),
            trim_end(s@, from as int, to as int) == trim_end(s@, from as int, j as int),
        decreases j - from,
    {
        j = j - 1;
    }
    j
}

/// The names that the spans of `s` in `spans` hold, in order.
pub open spec fn names_of(s: Seq<char>, spans: Seq<(usize, usize)>) -> Seq<Seq<char>> {
    spans.map_values(|p: (usize, usize)| s.subrange(p.0 as int, p.1 as int))
}

/// Whether `input` is a well-formed document of the dialect: one pass over
/// it, tag by tag, checks the text before each tag for escapes, lets a prolog
/// stand only as the first tag, wants the first other tag at the very start,
/// skips comments, and matches each closing tag with the innermost open one.
pub fn determine_xml(input: &str) -> (r: bool)
    ensures
        r == valid_xml(input@),
        input@.len() == 0 ==> !r,
{
    let s = chars_of(input);
    if s.len() == 0 {
        return false;
    }
    let mut lo: usize = 0;
    let mut hi: usize = s.len();
    let mut stack: Vec<(usize, usize)> = Vec::new();
    let mut after_prolog = false;
    let mut after_head = false;
    assert(names_of(s@, stack@) =~= Seq::<Seq<char>>::empty());
    while lo < hi
        invariant
            s@ == input@,
            lo <= hi <= s.len(),
            forall|k: int| 0 <= k < stack.len() ==> #[trigger] stack@[k].0 <= stack@[k].1 <= s.len(),
            valid_xml(input@) == scan(
                s@,
                lo as int,
                hi as int,
                names_of(s@, stack@),
                after_prolog,
                after_head,
            ),
        decreases hi - lo,
    {
        let ghost names = names_of(s@, stack@);
        proof {
            lemma_next_tag(s@, lo as int, hi as int);
        }
        let (a, b) = match next_tag_in(&s, lo, hi) {
            None => {
                return false;
            },
            Some(tag) => tag,
        };
        let ghost t = s@.subrange(a as int, b as int);
        if !escapes_ok_in(&s, lo, a) {
            return false;
        }
        if !after_prolog {
            after_prolog = true;
            if is_prolog_at(&s, a, b) {
                let l = trim_start_in(&s, b, hi);
                proof {
                    lemma_trim_start(s@, b as int, hi as int);
                }
                let h = trim_end_in(&s, l, hi);
                proof {
                    lemma_trim_end(s@, l as int, hi as int);
                }
                if l >= h {
                    return false;
                }
                lo = l;
                hi = h;
                continue;
            }
        }
        if !after_head {
            if a != lo {
                return false;
            }
            after_head = true;
        }
        if is_full_comment_at(&s, a, b) {
            lo = b;
            continue;
        }
        let mut next = b;
        if opens_comment_at(&s, a, b) {
            proof {
                lemma_comment_close(s@, b as int, hi as int);
            }
            match comment_close_in(&s, b, hi) {
                Some(e) => {
                    next = e;
                },
                None => {
                    return false;
                },
            }
        }
        assert(resume_at(s@, t, b as int, hi as int) == Some(next as int));
        if has_inner_lt_at(&s, a, b) {
            return false;
        }
        if is_closing_at(&s, a, b) {
            if stack.len() == 0 {
                return false;
            }
            let top = stack[stack.len() - 1];
            if !same_text(&s, top.0, top.1, a + 2, b - 1) {
                assert(names.last() == s@.subrange(top.0 as int, top.1 as int));
                assert(close_name(t) =~= s@.subrange(a + 2, b - 1));
                return false;
            }
            stack.pop();
            proof {
                assert(names.last() == s@.subrange(top.0 as int, top.1 as int));
                assert(close_name(t) =~= s@.subrange(a + 2, b - 1));
                assert(names_of(s@, stack@) =~= names.drop_last());
            }
            lo = next;
            continue;
        }
        stack.push((a + 1, b - 1));
        proof {
            assert(open_name(t) =~= s@.subrange(a + 1, b - 1));
            assert(names_of(s@, stack@) =~= names.push(open_name(t)));
        }
        lo = next;
    }
    stack.len() == 0
}

} // verus!
