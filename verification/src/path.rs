//! Unix paths as text: components, prefixes, joining.
//!
//! A path is a run of components between slashes. Repeated slashes, a trailing
//! slash and `.` count for nothing, except for a `.` at the start of a relative
//! path.

use crate::text::{chars_of, string_of};
use vstd::prelude::*;
use vstd::string::*;

verus! {

/// The next slash at or after `i`, or the end.
pub open spec fn slash_from(s: Seq<char>, i: int) -> int
    decreases s.len() - i,
{
    if i >= s.len() {
        s.len() as int
    } else if s[i] == '/' {
        i
    } else {
        slash_from(s, i + 1)
    }
}

/// Whether what stands between `i` and `e` is a component.
pub open spec fn is_component(s: Seq<char>, i: int, e: int) -> bool {
    i < e && (i == 0 || s.subrange(i, e) != seq!['.'])
}

/// The components from `i` on, each as where it begins and ends.
pub open spec fn spans_from(s: Seq<char>, i: int) -> Seq<(int, int)>
    decreases s.len() + 1 - i,
{
    if i >= s.len() {
        Seq::empty()
    } else {
        let e = slash_from(s, i);
        if e < i || e > s.len() {
            Seq::empty()
        } else if is_component(s, i, e) {
            seq![(i, e)] + spans_from(s, e + 1)
        } else {
            spans_from(s, e + 1)
        }
    }
}

/// Whether a path starts at the root.
pub open spec fn is_absolute(s: Seq<char>) -> bool {
    s.len() > 0 && s[0] == '/'
}

/// The components of a path, each as where it begins and ends. The root is a
/// component of its own.
pub open spec fn spans(s: Seq<char>) -> Seq<(int, int)> {
    if is_absolute(s) {
        seq![(0int, 1int)] + spans_from(s, 1)
    } else {
        spans_from(s, 0)
    }
}

/// The text of a span.
pub open spec fn span_text(s: Seq<char>, span: (int, int)) -> Seq<char> {
    s.subrange(span.0, span.1)
}

/// The components of a path.
pub open spec fn components(s: Seq<char>) -> Seq<Seq<char>> {
    spans(s).map_values(|span: (int, int)| span_text(s, span))
}

/// Whether the components of `s` begin with those of `base`.
pub open spec fn has_prefix(s: Seq<char>, base: Seq<char>) -> bool {
    components(base).is_prefix_of(components(s))
}

/// What follows the first `n` components: the text from the next component to
/// the last.
pub open spec fn after(s: Seq<char>, n: int) -> Seq<char> {
    if n >= spans(s).len() {
        Seq::empty()
    } else {
        s.subrange(spans(s)[n].0, spans(s).last().1)
    }
}

/// The path relative to `base`; `None` where it does not lie under `base`.
pub open spec fn stripped(s: Seq<char>, base: Seq<char>) -> Option<Seq<char>> {
    if has_prefix(s, base) {
        Some(after(s, spans(base).len() as int))
    } else {
        None
    }
}

/// A path taken from a base: an absolute one stands for itself, any other one
/// is put behind the base and a slash.
pub open spec fn joined(base: Seq<char>, tail: Seq<char>) -> Seq<char> {
    if is_absolute(tail) {
        tail
    } else if base.len() > 0 && base.last() != '/' {
        base.push('/') + tail
    } else {
        base + tail
    }
}

proof fn lemma_slash_from(s: Seq<char>, i: int)
    requires
        0 <= i,
    ensures
        i < s.len() ==> i <= slash_from(s, i) <= s.len(),
        slash_from(s, i) < s.len() ==> s[slash_from(s, i)] == '/',
        forall|k: int| i <= k < slash_from(s, i) && k < s.len() ==> s[k] != '/',
    decreases s.len() - i,
{
    if i < s.len() && s[i] != '/' {
        lemma_slash_from(s, i + 1);
    }
}

proof fn lemma_spans_from(s: Seq<char>, i: int)
    requires
        0 <= i,
    ensures
        forall|k: int|
            0 <= k < spans_from(s, i).len() ==> i <= (#[trigger] spans_from(s, i)[k]).0
                < spans_from(s, i)[k].1 <= s.len(),
        forall|k: int, l: int|
            0 <= k < l < spans_from(s, i).len() ==> (#[trigger] spans_from(s, i)[k]).1 < (
            #[trigger] spans_from(s, i)[l]).0,
    decreases s.len() + 1 - i,
{
    if i < s.len() {
        lemma_slash_from(s, i);
        let e = slash_from(s, i);
        lemma_spans_from(s, e + 1);
        let rest = spans_from(s, e + 1);
        assert forall|k: int, l: int| 0 <= k < l < spans_from(s, i).len() implies (
        #[trigger] spans_from(s, i)[k]).1 < (#[trigger] spans_from(s, i)[l]).0 by {
            if is_component(s, i, e) {
                assert(spans_from(s, i)[l] == rest[l - 1]);
                if k > 0 {
                    assert(spans_from(s, i)[k] == rest[k - 1]);
                }
            }
        }
    }
}

/// The spans of a path lie in it, one behind the other.
pub proof fn lemma_spans(s: Seq<char>)
    ensures
        forall|k: int|
            0 <= k < spans(s).len() ==> 0 <= (#[trigger] spans(s)[k]).0 < spans(s)[k].1
                <= s.len(),
        forall|k: int, l: int|
            0 <= k < l < spans(s).len() ==> (#[trigger] spans(s)[k]).1 <= (#[trigger] spans(
                s,
            )[l]).0,
{
    if is_absolute(s) {
        lemma_spans_from(s, 1);
        assert forall|k: int, l: int| 0 <= k < l < spans(s).len() implies (#[trigger] spans(
            s,
        )[k]).1 <= (#[trigger] spans(s)[l]).0 by {
            assert(spans(s)[l] == spans_from(s, 1)[l - 1]);
            if k > 0 {
                assert(spans(s)[k] == spans_from(s, 1)[k - 1]);
            }
        }
    } else {
        lemma_spans_from(s, 0);
    }
}

/// Spans as machine numbers.
spec fn pairs(v: Seq<(usize, usize)>) -> Seq<(int, int)> {
    v.map_values(|p: (usize, usize)| (p.0 as int, p.1 as int))
}

/// The spans of a path.
fn find_spans(s: &Vec<char>) -> (r: Vec<(usize, usize)>)
    ensures
        pairs(r@) == spans(s@),
{
    let mut out: Vec<(usize, usize)> = Vec::new();
    let mut i: usize = 0;
    if s.len() > 0 && s[0] == '/' {
        out.push((0, 1));
        i = 1;
    }
    assert(pairs(out@) + spans_from(s@, i as int) =~= spans(s@));
    while i < s.len()
        invariant
            pairs(out@) + spans_from(s@, i as int) == spans(s@),
        decreases s@.len() - i,
    {
        let start: usize = i;
        while i < s.len() && s[i] != '/'
            invariant
                start <= i <= s@.len(),
                slash_from(s@, start as int) == slash_from(s@, i as int),
            decreases s@.len() - i,
        {
            i = i + 1;
        }
        let ghost e = slash_from(s@, start as int);
        assert(e == i);
        let ghost before = out@;
        let dot = i - start == 1 && s[start] == '.';
        assert(dot <==> s@.subrange(start as int, e) == seq!['.']) by {
            if dot {
                assert(s@.subrange(start as int, e) =~= seq!['.']);
            } else if s@.subrange(start as int, e) == seq!['.'] {
                assert(s@.subrange(start as int, e).len() == 1);
                assert(s@.subrange(start as int, e)[0] == s@[start as int]);
            }
        }
        if start < i && (start == 0 || !dot) {
            out.push((start, i));
            assert(pairs(out@) =~= pairs(before).push((start as int, e)));
        }
        assert(pairs(out@) + spans_from(s@, e + 1) =~= pairs(before) + spans_from(
            s@,
            start as int,
        ));
        if i < s.len() {
            i = i + 1;
        } else {
            assert(spans_from(s@, e + 1) =~= spans_from(s@, i as int));
        }
    }
    assert(pairs(out@) =~= spans(s@));
    out
}

/// Whether two stretches of text are the same.
fn same_text(a: &Vec<char>, p: (usize, usize), b: &Vec<char>, q: (usize, usize)) -> (r: bool)
    requires
        p.0 <= p.1 <= a@.len(),
        q.0 <= q.1 <= b@.len(),
    ensures
        r == (a@.subrange(p.0 as int, p.1 as int) == b@.subrange(q.0 as int, q.1 as int)),
{
    let ghost left = a@.subrange(p.0 as int, p.1 as int);
    let ghost right = b@.subrange(q.0 as int, q.1 as int);
    if p.1 - p.0 != q.1 - q.0 {
        assert(left.len() != right.len());
        return false;
    }
    let mut i: usize = 0;
    while i < p.1 - p.0
        invariant
            p.0 <= p.1 <= a@.len(),
            q.0 <= q.1 <= b@.len(),
            p.1 - p.0 == q.1 - q.0,
            left == a@.subrange(p.0 as int, p.1 as int),
            right == b@.subrange(q.0 as int, q.1 as int),
            0 <= i <= p.1 - p.0,
            forall|k: int| 0 <= k < i ==> left[k] == right[k],
        decreases p.1 - p.0 - i,
    {
        if a[p.0 + i] != b[q.0 + i] {
            assert(left[i as int] != right[i as int]);
            return false;
        }
        i = i + 1;
    }
    assert(left =~= right);
    true
}

/// The path relative to `base`; `None` where it does not lie under `base`.
pub fn strip_prefix(path: &str, base: &str) -> (r: Option<String>)
    ensures
        match r {
            Some(rest) => stripped(path@, base@) == Some(rest@),
            None => stripped(path@, base@) is None,
        },
{
    let s = chars_of(path);
    let b = chars_of(base);
    let mine = find_spans(&s);
    let theirs = find_spans(&b);
    proof {
        lemma_spans(s@);
        lemma_spans(b@);
        assert(mine@.len() == spans(s@).len());
        assert(theirs@.len() == spans(b@).len());
        assert forall|k: int| 0 <= k < mine@.len() implies spans(s@)[k] == (
            (#[trigger] mine@[k]).0 as int,
            mine@[k].1 as int,
        ) by {
            assert(pairs(mine@)[k] == spans(s@)[k]);
        }
        assert forall|k: int| 0 <= k < theirs@.len() implies spans(b@)[k] == (
            (#[trigger] theirs@[k]).0 as int,
            theirs@[k].1 as int,
        ) by {
            assert(pairs(theirs@)[k] == spans(b@)[k]);
        }
    }
    if theirs.len() > mine.len() {
        return None;
    }
    let mut i: usize = 0;
    while i < theirs.len()
        invariant
            i <= theirs@.len() <= mine@.len(),
            mine@.len() == spans(s@).len(),
            theirs@.len() == spans(b@).len(),
            s@ == path@,
            b@ == base@,
            forall|k: int|
                0 <= k < mine@.len() ==> spans(s@)[k] == (
                    (#[trigger] mine@[k]).0 as int,
                    mine@[k].1 as int,
                ) && mine@[k].0 <= mine@[k].1 <= s@.len(),
            forall|k: int|
                0 <= k < theirs@.len() ==> spans(b@)[k] == (
                    (#[trigger] theirs@[k]).0 as int,
                    theirs@[k].1 as int,
                ) && theirs@[k].0 <= theirs@[k].1 <= b@.len(),
            forall|k: int| 0 <= k < i ==> #[trigger] components(b@)[k] == components(s@)[k],
        decreases theirs@.len() - i,
    {
        let p = mine[i];
        let q = theirs[i];
        assert(components(s@)[i as int] == span_text(s@, (p.0 as int, p.1 as int)));
        assert(components(b@)[i as int] == span_text(b@, (q.0 as int, q.1 as int)));
        if !same_text(&s, p, &b, q) {
            assert(components(b@)[i as int] != components(s@)[i as int]);
            return None;
        }
        i = i + 1;
    }
    proof {
        assert(components(b@) =~= components(s@).subrange(0, components(b@).len() as int));
    }
    if theirs.len() == mine.len() {
        return Some(String::new());
    }
    let from: usize = mine[theirs.len()].0;
    let to: usize = mine[mine.len() - 1].1;
    proof {
        let n = theirs@.len() as int;
        let last = mine@.len() - 1;
        assert(spans(s@)[n] == (mine@[n].0 as int, mine@[n].1 as int));
        assert(spans(s@).last() == (mine@[last].0 as int, mine@[last].1 as int));
        if n < last {
            assert(spans(s@)[n].1 <= spans(s@)[last].0);
        }
    }
    Some(string_of(&s, from, to))
}

/// A path taken from a base.
pub fn join(base: &str, tail: &str) -> (r: String)
    ensures
        r@ == joined(base@, tail@),
{
    let b = chars_of(base);
    let t = chars_of(tail);
    if t.len() > 0 && t[0] == '/' {
        return tail.to_string();
    }
    let mut out = base.to_string();
    if b.len() > 0 && b[b.len() - 1] != '/' {
        out.append("/");
        proof {
            reveal_strlit("/");
            assert(out@ =~= base@.push('/'));
        }
    }
    out.append(tail);
    out
}

/// Spans moved to the right.
spec fn shifted(v: Seq<(int, int)>, by: int) -> Seq<(int, int)> {
    v.map_values(|p: (int, int)| (p.0 + by, p.1 + by))
}

proof fn lemma_slash_skip(s: Seq<char>, st: int, j: int)
    requires
        0 <= st <= s.len(),
        0 <= j <= s.len() - st,
    ensures
        slash_from(s, st + j) == st + slash_from(s.skip(st), j),
    decreases s.len() - st - j,
{
    let t = s.skip(st);
    if j < t.len() && t[j] != '/' {
        lemma_slash_skip(s, st, j + 1);
    }
}

/// The spans of the rest of a path are those of the path, moved.
proof fn lemma_spans_skip(s: Seq<char>, st: int, j: int)
    requires
        0 <= st <= s.len(),
        0 <= j,
        j > 0 || st == 0 || s.subrange(st, slash_from(s, st)) != seq!['.'],
    ensures
        spans_from(s, st + j) == shifted(spans_from(s.skip(st), j), st),
    decreases s.len() + 1 - st - j,
{
    let t = s.skip(st);
    if j >= t.len() {
        assert(spans_from(s, st + j) =~= shifted(spans_from(t, j), st));
    } else {
        let e = slash_from(t, j);
        lemma_slash_from(t, j);
        lemma_slash_from(s, st + j);
        lemma_slash_skip(s, st, j);
        lemma_spans_skip(s, st, e + 1);
        assert(t.subrange(j, e) =~= s.subrange(st + j, st + e));
        assert(is_component(t, j, e) == is_component(s, st + j, st + e));
        assert(spans_from(s, st + j) =~= shifted(spans_from(t, j), st));
    }
}

/// The spans from a component on are the later spans.
proof fn lemma_spans_later(s: Seq<char>, i: int, k: int)
    requires
        0 <= i,
        0 <= k < spans_from(s, i).len(),
    ensures
        ({
            let span = spans_from(s, i)[k];
            &&& i <= span.0 < span.1 <= s.len()
            &&& slash_from(s, span.0) == span.1
            &&& is_component(s, span.0, span.1)
            &&& spans_from(s, span.0) == spans_from(s, i).skip(k)
        }),
    decreases s.len() + 1 - i,
{
    let e = slash_from(s, i);
    lemma_slash_from(s, i);
    if is_component(s, i, e) {
        if k == 0 {
            assert(spans_from(s, i).skip(0) =~= spans_from(s, i));
        } else {
            lemma_spans_later(s, e + 1, k - 1);
            assert(spans_from(s, i).skip(k) =~= spans_from(s, e + 1).skip(k - 1));
        }
    } else {
        lemma_spans_later(s, e + 1, k);
    }
}

proof fn lemma_slash_take(s: Seq<char>, end: int, i: int)
    requires
        0 <= i <= end <= s.len(),
    ensures
        slash_from(s.take(end), i) == if slash_from(s, i) < end {
            slash_from(s, i)
        } else {
            end
        },
    decreases end - i,
{
    lemma_slash_from(s, i);
    if i < end && s[i] != '/' {
        lemma_slash_take(s, end, i + 1);
    }
}

/// What follows the last component does not matter.
proof fn lemma_spans_take(s: Seq<char>, i: int)
    requires
        0 <= i,
        spans_from(s, i).len() > 0,
    ensures
        spans_from(s.take(spans_from(s, i).last().1), i) == spans_from(s, i),
    decreases s.len() + 1 - i,
{
    let all = spans_from(s, i);
    let end = all.last().1;
    lemma_spans_later(s, i, all.len() - 1);
    let t = s.take(end);
    let e = slash_from(s, i);
    lemma_slash_from(s, i);
    lemma_slash_take(s, end, i);
    let rest = spans_from(s, e + 1);
    if rest.len() == 0 {
        assert(all =~= seq![(i, e)]);
        assert(spans_from(t, e + 1) =~= Seq::<(int, int)>::empty());
        assert(t.subrange(i, e) =~= s.subrange(i, e));
        assert(spans_from(t, i) =~= all);
    } else {
        assert(rest.last() == all.last());
        lemma_spans_later(s, e + 1, rest.len() - 1);
        lemma_spans_take(s, e + 1);
        assert(t.subrange(i, e) =~= s.subrange(i, e));
        assert(spans_from(t, i) =~= all);
    }
}

/// The spans of a path under `shifted` have the same text.
proof fn lemma_components_shifted(
    s: Seq<char>,
    v: Seq<(int, int)>,
    t: Seq<char>,
    w: Seq<(int, int)>,
    by: int,
)
    requires
        v == shifted(w, by),
        0 <= by,
        forall|k: int|
            0 <= k < w.len() ==> 0 <= (#[trigger] w[k]).0 <= w[k].1 <= t.len() && w[k].1 + by
                <= s.len(),
        forall|i: int| 0 <= i < t.len() && i + by < s.len() ==> #[trigger] t[i] == s[i + by],
    ensures
        v.map_values(|span: (int, int)| span_text(s, span)) == w.map_values(
            |span: (int, int)| span_text(t, span),
        ),
{
    let left = v.map_values(|span: (int, int)| span_text(s, span));
    let right = w.map_values(|span: (int, int)| span_text(t, span));
    assert forall|k: int| 0 <= k < left.len() implies left[k] == right[k] by {
        assert(v[k] == (w[k].0 + by, w[k].1 + by));
        assert(span_text(s, v[k]) =~= span_text(t, w[k]));
    }
    assert(left =~= right);
}

/// A path taken behind a slash adds its components.
proof fn lemma_components_concat(a: Seq<char>, t: Seq<char>)
    requires
        a.len() > 0,
        a.last() == '/',
        !is_absolute(t),
        components(t).len() > 0 ==> components(t)[0] != seq!['.'],
    ensures
        spans(a + t) == spans(a) + shifted(spans(t), a.len() as int),
        components(a + t) == components(a) + components(t),
{
    let s = a + t;
    let n = a.len() as int;
    assert(s.skip(n) =~= t);
    assert(n == s.len() || s.subrange(n, slash_from(s, n)) != seq!['.']) by {
        if n < s.len() {
            lemma_slash_skip(s, n, 0);
            lemma_slash_from(t, 0);
            let e = slash_from(t, 0);
            assert(s.subrange(n, slash_from(s, n)) =~= t.subrange(0, e));
            if t.subrange(0, e) == seq!['.'] {
                assert(e == 1);
                assert(spans_from(t, 0)[0] == (0int, 1int));
                assert(components(t)[0] == t.subrange(0, 1));
            }
        }
    }
    if n == s.len() {
        assert(s.subrange(n, slash_from(s, n)).len() == 0);
    }
    lemma_spans_skip(s, n, 0);
    let tail = spans_from(s, n);
    assert(tail == shifted(spans(t), n));
    let first: int = if is_absolute(a) {
        1
    } else {
        0
    };
    lemma_spans_from_concat(a, t, first);
    assert(spans(s) =~= spans(a) + tail);
    lemma_spans(t);
    lemma_spans(a);
    lemma_components_shifted(s, tail, t, spans(t), n);
    assert(shifted(spans(a), 0) =~= spans(a));
    lemma_components_shifted(s, spans(a), a, spans(a), 0);
    assert(components(s) =~= components(a) + components(t));
}

proof fn lemma_spans_from_concat(a: Seq<char>, t: Seq<char>, i: int)
    requires
        a.len() > 0,
        a.last() == '/',
        0 <= i <= a.len(),
    ensures
        spans_from(a + t, i) == spans_from(a, i) + spans_from(a + t, a.len() as int),
    decreases a.len() - i,
{
    let s = a + t;
    if i == a.len() {
        assert(spans_from(s, i) =~= spans_from(a, i) + spans_from(s, a.len() as int));
    } else {
        assert(s.take(a.len() as int) =~= a);
        lemma_slash_take(s, a.len() as int, i);
        lemma_slash_from(a, i);
        lemma_slash_from(s, i);
        let e = slash_from(s, i);
        assert(e < a.len()) by {
            if e >= a.len() {
                assert(s[a.len() - 1] == '/');
            }
        }
        lemma_spans_from_concat(a, t, e + 1);
        assert(s.subrange(i, e) =~= a.subrange(i, e));
        assert(spans_from(s, i) =~= spans_from(a, i) + spans_from(s, a.len() as int));
    }
}

/// A slash at the end adds no component.
proof fn lemma_trailing_slash(b: Seq<char>)
    requires
        b.len() > 0,
    ensures
        spans(b.push('/')) == spans(b),
        components(b.push('/')) == components(b),
{
    let first: int = if is_absolute(b) {
        1
    } else {
        0
    };
    lemma_trailing_slash_from(b, first);
    assert(spans(b.push('/')) == spans(b));
    lemma_spans(b);
    assert(shifted(spans(b), 0) =~= spans(b));
    lemma_components_shifted(b.push('/'), spans(b), b, spans(b), 0);
}

proof fn lemma_trailing_slash_from(b: Seq<char>, i: int)
    requires
        0 <= i <= b.len(),
    ensures
        spans_from(b.push('/'), i) == spans_from(b, i),
    decreases b.len() - i,
{
    let s = b.push('/');
    assert(s.take(b.len() as int) =~= b);
    lemma_slash_take(s, b.len() as int, i);
    lemma_slash_from(b, i);
    lemma_slash_from(s, i);
    let e = slash_from(s, i);
    if i == b.len() {
        assert(e == i);
        assert(spans_from(s, e + 1) =~= Seq::<(int, int)>::empty());
        assert(spans_from(s, i) =~= spans_from(b, i));
    } else {
        assert(e <= b.len()) by {
            if e > b.len() {
                assert(s[b.len() as int] == '/');
            }
        }
        assert(s.subrange(i, e) =~= b.subrange(i, e));
        if e < b.len() {
            lemma_trailing_slash_from(b, e + 1);
        } else {
            assert(spans_from(s, e + 1) =~= spans_from(b, e + 1));
        }
        assert(spans_from(s, i) =~= spans_from(b, i));
    }
}

/// Joining puts the components of the relative path behind those of the base.
pub proof fn law_join_adds_components(base: Seq<char>, tail: Seq<char>)
    requires
        !is_absolute(tail),
        base.len() > 0 && components(tail).len() > 0 ==> components(tail)[0] != seq!['.'],
    ensures
        components(joined(base, tail)) == components(base) + components(tail),
{
    if base.len() == 0 {
        assert(base + tail =~= tail);
        assert(components(base) =~= Seq::<Seq<char>>::empty());
        assert(components(base) + components(tail) =~= components(tail));
    } else if base.last() != '/' {
        lemma_trailing_slash(base);
        lemma_components_concat(base.push('/'), tail);
    } else {
        lemma_components_concat(base, tail);
    }
}

/// A joined path stripped of its base gives the relative path back, where that
/// has nothing around its components.
pub proof fn law_strip_undoes_join(base: Seq<char>, tail: Seq<char>)
    requires
        base.len() > 0,
        !is_absolute(tail),
        components(tail).len() > 0 ==> components(tail)[0] != seq!['.'],
        after(tail, 0) == tail,
    ensures
        stripped(joined(base, tail), base) == Some(tail),
{
    let head = if base.last() != '/' {
        base.push('/')
    } else {
        base
    };
    if base.last() != '/' {
        lemma_trailing_slash(base);
    }
    lemma_strip_concat(head, tail);
    assert(joined(base, tail) == head + tail);
}

proof fn lemma_strip_concat(head: Seq<char>, tail: Seq<char>)
    requires
        head.len() > 0,
        head.last() == '/',
        !is_absolute(tail),
        components(tail).len() > 0 ==> components(tail)[0] != seq!['.'],
    ensures
        stripped(head + tail, head) == Some(after(tail, 0)),
{
    let whole = head + tail;
    let own = spans(tail);
    let all = spans(whole);
    let n = spans(head).len() as int;
    let by = head.len() as int;
    lemma_components_concat(head, tail);
    assert(has_prefix(whole, head)) by {
        assert(components(head).len() == n);
        assert(components(whole).subrange(0, n) =~= components(head));
    }
    if own.len() > 0 {
        let first = own[0];
        let last = own[own.len() - 1];
        assert(0 <= first.0 <= last.1 <= tail.len()) by {
            lemma_spans(tail);
            if own.len() > 1 {
                assert(first.1 <= last.0);
            }
        }
        assert(all[n] == shifted(own, by)[0]);
        assert(all.last() == shifted(own, by)[own.len() - 1]);
        assert(whole.subrange(first.0 + by, last.1 + by) =~= tail.subrange(first.0, last.1));
        assert(after(whole, n) == whole.subrange(all[n].0, all.last().1));
    } else {
        assert(after(tail, 0) == Seq::<char>::empty());
        assert(after(whole, n) == Seq::<char>::empty());
    }
}

/// What follows the first components of a path has the other components, and
/// nothing around them.
pub proof fn lemma_after(s: Seq<char>, n: int)
    requires
        0 <= n <= spans(s).len(),
    ensures
        components(after(s, n)) == components(s).skip(n),
        n < spans(s).len() ==> {
            &&& spans(after(s, n))[0].0 == 0
            &&& spans(after(s, n)).last().1 == after(s, n).len()
        },
        after(after(s, n), 0) == after(s, n),
        n > 0 ==> !is_absolute(after(s, n)),
        n > 0 && n < spans(s).len() ==> components(s)[n] != seq!['.'],
        n == 0 && spans(s).len() > 0 ==> is_absolute(after(s, n)) == is_absolute(s),
{
    let all = spans(s);
    let rest = after(s, n);
    lemma_spans(s);
    if n == all.len() {
        assert(components(rest) =~= components(s).skip(n));
    } else {
        let st = all[n].0;
        let end = all.last().1;
        if n < all.len() - 1 {
            assert(all[n].1 <= all[all.len() - 1].0);
        }
        let first: int = if is_absolute(s) {
            1
        } else {
            0
        };
        if first == 1 && n == 0 {
            // The root and all that follows.
            assert(rest =~= s.take(end));
            if all.len() > 1 {
                assert(all.last() == spans_from(s, 1).last());
                lemma_spans_take(s, 1);
            } else {
                assert(spans_from(rest, 1) =~= Seq::<(int, int)>::empty());
            }
            assert(spans(rest) =~= all);
            assert(after(rest, 0) =~= rest);
            assert(shifted(all, 0) =~= all);
            lemma_components_shifted(s, all, rest, all, 0);
            assert(components(s).skip(0) =~= components(s));
        } else {
            let body = spans_from(s, first);
            let k = n - first;
            assert(all[n] == body[k]);
            assert(all.last() == body.last());
            lemma_spans_later(s, first, k);
            let later = spans_from(s, st);
            assert(later =~= all.skip(n));
            assert(later.last() == all.last());
            lemma_spans_take(s, st);
            let cut = s.take(end);
            assert(cut.skip(st) =~= rest);
            lemma_slash_take(s, end, st);
            assert(cut.subrange(st, slash_from(cut, st)) =~= s.subrange(st, all[n].1));
            lemma_spans_skip(cut, st, 0);
            assert(later == shifted(spans_from(rest, 0), st));
            lemma_slash_from(s, st);
            assert(s[st] != '/');
            assert(rest[0] == s[st]);
            assert(spans(rest) == spans_from(rest, 0));
            let own = spans(rest);
            assert(later[0] == (own[0].0 + st, own[0].1 + st));
            assert(later.last() == (own.last().0 + st, own.last().1 + st));
            lemma_spans(rest);
            assert(after(rest, 0) =~= rest);
            lemma_components_shifted(s, later, rest, own, st);
            assert(components(rest) =~= components(s).skip(n));
            if n > 0 {
                assert(components(s)[n] == s.subrange(st, all[n].1));
            }
        }
    }
}

/// What lies under a base is found again from the base: stripping the base and
/// joining the rest to it gives a path with the same components.
pub proof fn law_join_undoes_strip(path: Seq<char>, base: Seq<char>)
    requires
        stripped(path, base) is Some,
    ensures
        components(joined(base, stripped(path, base)->0)) == components(path),
{
    let n = spans(base).len() as int;
    let rest = after(path, n);
    lemma_after(path, n);
    if is_absolute(rest) {
        assert(components(path).skip(0) =~= components(path));
    } else {
        if base.len() > 0 && n == 0 {
            lemma_no_components(base);
        }
        law_join_adds_components(base, rest);
        assert(components(base) + components(path).skip(n) =~= components(path));
    }
}

/// Only the empty path has no component.
pub proof fn lemma_no_components(s: Seq<char>)
    requires
        s.len() > 0,
    ensures
        spans(s).len() > 0,
{
    if !is_absolute(s) {
        lemma_slash_from(s, 0);
        assert(slash_from(s, 0) > 0);
    }
}

proof fn lemma_last_span(s: Seq<char>, i: int)
    requires
        0 <= i < s.len(),
        s.last() != '/',
        s.last() != '.',
    ensures
        spans_from(s, i).len() > 0,
        spans_from(s, i).last().1 == s.len(),
    decreases s.len() - i,
{
    let e = slash_from(s, i);
    lemma_slash_from(s, i);
    if e == s.len() {
        let piece = s.subrange(i, e);
        assert(piece.last() == s.last());
        assert(spans_from(s, e + 1) =~= Seq::<(int, int)>::empty());
        assert(is_component(s, i, e));
        assert(spans_from(s, i) =~= seq![(i, e)]);
    } else {
        assert(e + 1 < s.len());
        lemma_last_span(s, e + 1);
        let rest = spans_from(s, e + 1);
        if is_component(s, i, e) {
            assert(spans_from(s, i).last() == rest.last());
        }
    }
}

/// A relative path whose last character is neither a slash nor a dot has
/// nothing around its components, and begins with a component of its own.
pub proof fn lemma_plain_path(s: Seq<char>)
    requires
        s.len() > 1,
        s[0] != '/',
        s[1] != '/',
        s.last() != '/',
        s.last() != '.',
    ensures
        after(s, 0) == s,
        components(s).len() > 0,
        components(s)[0] != seq!['.'],
{
    lemma_last_span(s, 0);
    lemma_slash_from(s, 0);
    let e = slash_from(s, 0);
    assert(e > 1) by {
        if e <= 1 {
            assert(s[e] == '/');
        }
    }
    assert(spans(s)[0] == (0int, e));
    assert(components(s)[0] == s.subrange(0, e));
    assert(components(s)[0].len() > 1);
    assert(after(s, 0) =~= s);
}

} // verus!
