//! Properties of validity that hold for every document.
use vstd::prelude::*;

use crate::model::{
    close_name, comment_close, escapes_ok, find_char, has_inner_lt, is_closing, is_escape, is_full_comment,
    is_prolog, is_ws, lemma_comment_close, lemma_escape_chars, lemma_next_tag, lemma_trim_end,
    lemma_trim_start, next_tag, open_name, ref_len, resume_at, scan, trim_end, trim_start,
    valid_xml,
};

verus! {

/// The verdict is a function of the document's characters: two documents
/// with the same characters get the same verdict.
pub proof fn lemma_verdict_by_characters(a: Seq<char>, b: Seq<char>)
    requires
        a =~= b,
    ensures
        valid_xml(a) == valid_xml(b),
{
}

/// The empty document is not valid.
pub proof fn lemma_empty_invalid(s: Seq<char>)
    requires
        s.len() == 0,
    ensures
        !valid_xml(s),
{
}

/// `find_char` gives the first index that holds the character.
proof fn lemma_find_char_first(s: Seq<char>, c: char, from: int, to: int, g: int)
    requires
        from <= g < to,
        s[g] == c,
        forall|k: int| from <= k < g ==> s[k] != c,
    ensures
        find_char(s, c, from, to) == Some(g),
    decreases g - from,
{
    if from < g {
        lemma_find_char_first(s, c, from + 1, to, g);
    }
}

/// The comment `<!--` `body` `-->`.
pub open spec fn comment(body: Seq<char>) -> Seq<char> {
    seq!['<', '!', '-', '-'] + body + seq!['-', '-', '>']
}

/// A comment whose body holds no `>` is skipped whole where the scan meets
/// it: nothing in its body, neither tags nor `&`, is looked at, and the scan
/// goes on right after it with the same open names, as after a first tag.
pub proof fn lemma_comment_skipped(
    s: Seq<char>,
    lo: int,
    hi: int,
    stack: Seq<Seq<char>>,
    after_prolog: bool,
    after_head: bool,
    body: Seq<char>,
)
    requires
        0 <= lo,
        lo + body.len() + 7 <= hi <= s.len(),
        s.subrange(lo, lo + body.len() + 7) == comment(body),
        forall|k: int| 0 <= k < body.len() ==> body[k] != '>',
    ensures
        scan(s, lo, hi, stack, after_prolog, after_head) == scan(
            s,
            lo + body.len() + 7,
            hi,
            stack,
            true,
            true,
        ),
{
    let n = body.len() + 7;
    let t = comment(body);
    assert(t.len() == n);
    assert forall|k: int| 0 <= k < n implies s[lo + k] == #[trigger] t[k] by {
        assert(s.subrange(lo, lo + n)[k] == t[k]);
    }
    assert(t[0] == '<');
    assert(s[lo] == '<');
    lemma_find_char_first(s, '<', lo, hi, lo);
    assert forall|k: int| lo + 1 <= k < lo + n - 1 implies s[k] != '>' by {
        assert(s[k] == t[k - lo]);
        if k - lo >= 4 && k - lo < n - 3 {
            assert(t[k - lo] == body[k - lo - 4]);
        }
    }
    assert(s[lo + n - 1] == t[n - 1]);
    lemma_find_char_first(s, '>', lo + 1, hi, lo + n - 1);
    assert(next_tag(s, lo, hi) == Some((lo, lo + n)));
    assert(s.subrange(lo, lo + n) == t);
    assert(t[n - 2] == '-');
    assert(!is_prolog(t));
    assert(is_full_comment(t));
}

/// The text made of `parts`, one after another.
pub open spec fn joined(parts: Seq<Seq<char>>) -> Seq<char>
    decreases parts.len(),
{
    if parts.len() == 0 {
        Seq::empty()
    } else {
        parts[0] + joined(parts.drop_first())
    }
}

/// All references of `text` are escapes.
pub open spec fn text_escapes_ok(text: Seq<char>) -> bool {
    escapes_ok(text, 0, text.len() as int)
}

/// Reading a reference in `p + q` past the end of `p` is reading it in `q`.
proof fn lemma_ref_len_shift(p: Seq<char>, q: Seq<char>, i: int)
    requires
        p.len() <= i,
    ensures
        ref_len(p + q, i, (p + q).len() as int) == ref_len(q, i - p.len(), q.len() as int),
    decreases (p + q).len() - i,
{
    let x = p + q;
    if i < x.len() {
        assert(x[i] == q[i - p.len()]);
        lemma_ref_len_shift(p, q, i + 1);
    }
}

/// Checking the escapes of `p + q` past the end of `p` is checking `q`.
proof fn lemma_escapes_shift(p: Seq<char>, q: Seq<char>, lo: int)
    requires
        p.len() <= lo,
    ensures
        escapes_ok(p + q, lo, (p + q).len() as int) == escapes_ok(q, lo - p.len(), q.len() as int),
    decreases (p + q).len() - lo,
{
    let x = p + q;
    let k = p.len() as int;
    if lo < x.len() {
        assert(x[lo] == q[lo - k]);
        if x[lo] != '&' {
            lemma_escapes_shift(p, q, lo + 1);
        } else {
            lemma_ref_len_shift(p, q, lo + 1);
            let e = lo + 1 + ref_len(x, lo + 1, x.len() as int);
            crate::model::lemma_ref_len(x, lo + 1, x.len() as int);
            assert(x.subrange(lo, e) =~= q.subrange(lo - k, e - k));
            lemma_escapes_shift(p, q, e);
        }
    }
}

/// A stretch without `&` holds no reference.
proof fn lemma_escapes_skip_plain(s: Seq<char>, lo: int, m: int, hi: int)
    requires
        lo <= m <= hi,
        forall|k: int| lo <= k < m ==> s[k] != '&',
    ensures
        escapes_ok(s, lo, hi) == escapes_ok(s, m, hi),
    decreases m - lo,
{
    if lo < m {
        lemma_escapes_skip_plain(s, lo + 1, m, hi);
    }
}

/// The reference that starts an escape is that escape.
proof fn lemma_escape_ref(x: Seq<char>, p: Seq<char>)
    requires
        is_escape(p),
        p.len() <= x.len(),
        x.subrange(0, p.len() as int) == p,
    ensures
        x[0] == '&',
        1 + ref_len(x, 1, x.len() as int) == p.len(),
{
    lemma_escape_chars(p);
    let hi = x.len() as int;
    assert forall|k: int| 0 <= k < p.len() implies x[k] == #[trigger] p[k] by {
        assert(x.subrange(0, p.len() as int)[k] == p[k]);
    }
    assert(!is_ws('l') && !is_ws('g') && !is_ws('t') && !is_ws('a') && !is_ws('m')
        && !is_ws('p') && !is_ws('o') && !is_ws('s') && !is_ws('q') && !is_ws('u'));
    let n = p.len() as int;
    assert(ref_len(x, n - 1, hi) == 1);
    assert(ref_len(x, n - 2, hi) == 2);
    assert(ref_len(x, n - 3, hi) == 3);
    if n >= 5 {
        assert(ref_len(x, n - 4, hi) == 4);
    }
    if n >= 6 {
        assert(ref_len(x, n - 5, hi) == 5);
    }
}

/// Text made of the five escapes and of stretches without `&`, in any order
/// and number, passes the escape check.
pub proof fn lemma_escapes_accepted(parts: Seq<Seq<char>>)
    requires
        forall|i: int|
            0 <= i < parts.len() ==> is_escape(#[trigger] parts[i]) || !parts[i].contains('&'),
    ensures
        text_escapes_ok(joined(parts)),
    decreases parts.len(),
{
    if parts.len() > 0 {
        let p = parts[0];
        let rest = parts.drop_first();
        assert forall|i: int| 0 <= i < rest.len() implies is_escape(#[trigger] rest[i])
            || !rest[i].contains('&') by {
            assert(rest[i] == parts[i + 1]);
        }
        lemma_escapes_accepted(rest);
        let q = joined(rest);
        let x = p + q;
        assert(joined(parts) == x);
        let hi = x.len() as int;
        let k = p.len() as int;
        if is_escape(p) {
            assert(x.subrange(0, k) =~= p);
            lemma_escape_ref(x, p);
            assert(hi > 0);
            assert(escapes_ok(x, 0, hi) == (is_escape(x.subrange(0, k)) && escapes_ok(x, k, hi)));
        } else {
            assert forall|j: int| 0 <= j < k implies x[j] != '&' by {
                assert(x[j] == p[j]);
                if x[j] == '&' {
                    assert(p.contains('&'));
                }
            }
            lemma_escapes_skip_plain(x, 0, k, hi);
        }
        lemma_escapes_shift(p, q, k);
    }
}

/// How far a run of characters that are neither `;` nor whitespace reads.
proof fn lemma_ref_len_run(s: Seq<char>, i: int, m: int, hi: int)
    requires
        i <= m <= hi,
        forall|k: int| i <= k < m ==> s[k] != ';' && !is_ws(s[k]),
    ensures
        ref_len(s, i, hi) == (m - i) + ref_len(s, m, hi),
    decreases m - i,
{
    if i < m {
        lemma_ref_len_run(s, i + 1, m, hi);
    }
}

/// The reference that a `&` starts in `'&' + run + after`: the `&`, the run,
/// and a `;` if one comes next.
pub open spec fn reference_of(run: Seq<char>, after: Seq<char>) -> Seq<char> {
    if after.len() > 0 && after[0] == ';' {
        seq!['&'] + run + seq![';']
    } else {
        seq!['&'] + run
    }
}

/// Text whose first reference is none of the five escapes fails the escape
/// check: a bare `&`, an unknown name such as `&nbsp;`, a numeric reference
/// such as `&#60;`, or a reference without its `;`.
pub proof fn lemma_escapes_rejected(
    plain: Seq<char>,
    run: Seq<char>,
    after: Seq<char>,
)
    requires
        !plain.contains('&'),
        forall|k: int| 0 <= k < run.len() ==> run[k] != ';' && !is_ws(#[trigger] run[k]),
        after.len() == 0 || after[0] == ';' || is_ws(after[0]),
        !is_escape(reference_of(run, after)),
    ensures
        !text_escapes_ok(plain + seq!['&'] + run + after),
{
    let x = plain + seq!['&'] + run + after;
    let a = plain.len() as int;
    let m = a + 1 + run.len();
    let hi = x.len() as int;
    assert forall|j: int| 0 <= j < a implies x[j] != '&' by {
        assert(x[j] == plain[j]);
        if x[j] == '&' {
            assert(plain.contains('&'));
        }
    }
    lemma_escapes_skip_plain(x, 0, a, hi);
    assert(x[a] == '&');
    assert forall|k: int| a + 1 <= k < m implies x[k] != ';' && !is_ws(x[k]) by {
        assert(x[k] == run[k - a - 1]);
    }
    lemma_ref_len_run(x, a + 1, m, hi);
    if after.len() > 0 {
        assert(x[m] == after[0]);
    }
    let e = a + 1 + ref_len(x, a + 1, hi);
    assert(x.subrange(a, e) =~= reference_of(run, after));
}

/// A tag that opens or closes an element, with its name.
pub enum TagEvent {
    Open(Seq<char>),
    Close(Seq<char>),
}

/// The opening and closing tags that the scan of `s[lo..hi)` meets, in order,
/// up to where it stops.
pub open spec fn tag_events(
    s: Seq<char>,
    lo: int,
    hi: int,
    after_prolog: bool,
    after_head: bool,
) -> Seq<TagEvent>
    decreases hi - lo,
    via tag_events_decreases
{
    if lo >= hi {
        Seq::empty()
    } else {
        match next_tag(s, lo, hi) {
            None => Seq::empty(),
            Some((a, b)) => {
                let t = s.subrange(a, b);
                if !escapes_ok(s, lo, a) {
                    Seq::empty()
                } else if !after_prolog && is_prolog(t) {
                    let l = trim_start(s, b, hi);
                    let h = trim_end(s, l, hi);
                    if l < h {
                        tag_events(s, l, h, true, after_head)
                    } else {
                        Seq::empty()
                    }
                } else if !after_head && a != lo {
                    Seq::empty()
                } else if is_full_comment(t) {
                    tag_events(s, b, hi, true, true)
                } else {
                    match resume_at(s, t, b, hi) {
                        None => Seq::empty(),
                        Some(r) => if has_inner_lt(t) {
                            Seq::empty()
                        } else if is_closing(t) {
                            seq![TagEvent::Close(close_name(t))] + tag_events(s, r, hi, true, true)
                        } else {
                            seq![TagEvent::Open(open_name(t))] + tag_events(s, r, hi, true, true)
                        },
                    }
                }
            },
        }
    }
}

#[via_fn]
proof fn tag_events_decreases(
    s: Seq<char>,
    lo: int,
    hi: int,
    after_prolog: bool,
    after_head: bool,
) {
    lemma_scan_steps(s, lo, hi);
}

/// Each step of the scan moves `lo` forward and keeps `hi`, or narrows both.
proof fn lemma_scan_steps(s: Seq<char>, lo: int, hi: int)
    ensures
        lo < hi ==> match next_tag(s, lo, hi) {
            Some((a, b)) => {
                &&& lo <= a < b <= hi
                &&& b <= trim_start(s, b, hi) <= hi
                &&& trim_start(s, b, hi) <= trim_end(s, trim_start(s, b, hi), hi) <= hi
                &&& match comment_close(s, b, hi) {
                    Some(e) => b < e <= hi,
                    None => true,
                }
            },
            None => true,
        },
{
    if lo < hi {
        lemma_next_tag(s, lo, hi);
        if let Some((a, b)) = next_tag(s, lo, hi) {
            lemma_trim_start(s, b, hi);
            lemma_trim_end(s, trim_start(s, b, hi), hi);
            lemma_comment_close(s, b, hi);
        }
    }
}

/// Replays `events` on a stack of open names: an opening tag pushes its name,
/// a closing tag must meet its own name on top and pops it. `None` when one
/// does not.
pub open spec fn replay(stack: Seq<Seq<char>>, events: Seq<TagEvent>) -> Option<Seq<Seq<char>>>
    decreases events.len(),
{
    if events.len() == 0 {
        Some(stack)
    } else {
        match events[0] {
            TagEvent::Open(n) => replay(stack.push(n), events.drop_first()),
            TagEvent::Close(n) => if stack.len() > 0 && stack.last() == n {
                replay(stack.drop_last(), events.drop_first())
            } else {
                None
            },
        }
    }
}

/// Where the scan accepts from a state, the tags it meets close every name
/// open in that state and every one they open, innermost first.
proof fn lemma_scan_nests(
    s: Seq<char>,
    lo: int,
    hi: int,
    stack: Seq<Seq<char>>,
    after_prolog: bool,
    after_head: bool,
)
    requires
        scan(s, lo, hi, stack, after_prolog, after_head),
    ensures
        replay(stack, tag_events(s, lo, hi, after_prolog, after_head)) == Some(
            Seq::<Seq<char>>::empty(),
        ),
    decreases hi - lo,
{
    lemma_scan_steps(s, lo, hi);
    if lo >= hi {
        assert(stack =~= Seq::<Seq<char>>::empty());
    } else if let Some((a, b)) = next_tag(s, lo, hi) {
        let t = s.subrange(a, b);
        if !after_prolog && is_prolog(t) {
            let l = trim_start(s, b, hi);
            lemma_scan_nests(s, l, trim_end(s, l, hi), stack, true, after_head);
        } else if is_full_comment(t) {
            lemma_scan_nests(s, b, hi, stack, true, true);
        } else if let Some(r) = resume_at(s, t, b, hi) {
            let events = tag_events(s, lo, hi, after_prolog, after_head);
            if is_closing(t) {
                lemma_scan_nests(s, r, hi, stack.drop_last(), true, true);
                assert(events.drop_first() =~= tag_events(s, r, hi, true, true));
            } else {
                lemma_scan_nests(s, r, hi, stack.push(open_name(t)), true, true);
                assert(events.drop_first() =~= tag_events(s, r, hi, true, true));
            }
        }
    }
}

/// In a valid document the opening and closing tags pair up: replayed on an
/// empty stack of names, each closing tag meets the innermost open name and
/// it is its own, and no name is left open at the end.
pub proof fn lemma_valid_tags_nest(s: Seq<char>)
    requires
        valid_xml(s),
    ensures
        replay(Seq::empty(), tag_events(s, 0, s.len() as int, false, false)) == Some(
            Seq::<Seq<char>>::empty(),
        ),
{
    lemma_scan_nests(s, 0, s.len() as int, Seq::empty(), false, false);
}

} // verus!
