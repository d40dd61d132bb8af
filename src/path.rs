//! Lexical, component-wise path handling.
//!
//! A path is a string of components separated by `/`. Empty components (from
//! repeated, leading or trailing separators) carry no meaning. Resolution never
//! consults a filesystem: it is a function of the two strings alone.
use vstd::prelude::*;
use vstd::string::*;

use crate::error::ResolveError;

verus! {

/// The run of non-separator characters at the end of `s`.
pub open spec fn trailing_run(s: Seq<char>) -> Seq<char>
    decreases s.len(),
{
    if s.len() == 0 {
        seq![]
    } else if s.last() == '/' {
        seq![]
    } else {
        trailing_run(s.drop_last()).push(s.last())
    }
}

/// The components of `s` that a separator has already closed.
pub open spec fn closed_components(s: Seq<char>) -> Seq<Seq<char>>
    decreases s.len(),
{
    if s.len() == 0 {
        seq![]
    } else {
        let prev = closed_components(s.drop_last());
        let run = trailing_run(s.drop_last());
        if s.last() == '/' && run.len() > 0 {
            prev.push(run)
        } else {
            prev
        }
    }
}

/// The components of a slash-separated path: the non-empty runs of
/// characters between separators, in order.
pub open spec fn components(s: Seq<char>) -> Seq<Seq<char>> {
    let run = trailing_run(s);
    if run.len() > 0 {
        closed_components(s).push(run)
    } else {
        closed_components(s)
    }
}

/// A single component: non-empty, without a separator.
pub open spec fn is_name(x: Seq<char>) -> bool {
    x.len() > 0 && forall|i: int| 0 <= i < x.len() ==> x[i] != '/'
}

/// The views of a sequence of strings.
pub open spec fn names(v: Seq<String>) -> Seq<Seq<char>> {
    v.map_values(|x: String| x@)
}

proof fn lemma_trailing_run_is_tail(s: Seq<char>)
    ensures
        trailing_run(s).len() <= s.len(),
        trailing_run(s) == s.subrange(s.len() - trailing_run(s).len(), s.len() as int),
        forall|i: int| 0 <= i < trailing_run(s).len() ==> trailing_run(s)[i] != '/',
    decreases s.len(),
{
    if s.len() > 0 && s.last() != '/' {
        lemma_trailing_run_is_tail(s.drop_last());
        let r = trailing_run(s.drop_last());
        assert(trailing_run(s) =~= s.subrange(s.len() - r.len() - 1, s.len() as int));
    }
}

/// Every component of a path is a name.
pub proof fn lemma_components_are_names(s: Seq<char>)
    ensures
        forall|i: int| 0 <= i < components(s).len() ==> is_name(#[trigger] components(s)[i]),
    decreases s.len(),
{
    lemma_closed_components_are_names(s);
    lemma_trailing_run_is_tail(s);
}

proof fn lemma_closed_components_are_names(s: Seq<char>)
    ensures
        forall|i: int|
            0 <= i < closed_components(s).len() ==> is_name(#[trigger] closed_components(s)[i]),
    decreases s.len(),
{
    if s.len() > 0 {
        lemma_closed_components_are_names(s.drop_last());
        lemma_trailing_run_is_tail(s.drop_last());
        let prev = closed_components(s.drop_last());
        let run = trailing_run(s.drop_last());
        assert forall|i: int| 0 <= i < closed_components(s).len() implies is_name(
            #[trigger] closed_components(s)[i],
        ) by {
            if i < prev.len() {
                assert(closed_components(s)[i] == prev[i]);
            }
        }
    }
}

/// Splits a path into its components.
pub fn split_components(s: &str) -> (r: Vec<String>)
    ensures
        names(r@) == components(s@),
{
    let n = s.unicode_len();
    let mut parts: Vec<String> = Vec::new();
    let mut start: usize = 0;
    let mut i: usize = 0;
    while i < n
        invariant
            n == s@.len(),
            start <= i <= n,
            names(parts@) == closed_components(s@.take(i as int)),
            s@.subrange(start as int, i as int) == trailing_run(s@.take(i as int)),
        decreases n - i,
    {
        let c = s.get_char(i);
        assert(s@.take(i + 1).drop_last() =~= s@.take(i as int));
        if c == '/' {
            if start < i {
                let part = s.substring_char(start, i).to_owned();
                parts.push(part);
                assert(names(parts@) =~= closed_components(s@.take(i as int)).push(part@));
            }
            start = i + 1;
            assert(s@.subrange(start as int, start as int) =~= seq![]);
        } else {
            assert(s@.subrange(start as int, i + 1) =~= s@.subrange(start as int, i as int).push(c));
        }
        i = i + 1;
    }
    assert(s@.take(n as int) =~= s@);
    if start < n {
        let part = s.substring_char(start, n).to_owned();
        parts.push(part);
        assert(names(parts@) =~= closed_components(s@).push(part@));
    }
    parts
}

/// Components joined by single separators.
pub open spec fn join(c: Seq<Seq<char>>) -> Seq<char>
    decreases c.len(),
{
    if c.len() == 0 {
        seq![]
    } else if c.len() == 1 {
        c[0]
    } else {
        join(c.drop_last()) + seq!['/'] + c.last()
    }
}

/// Whether a path starts at the root.
pub open spec fn is_absolute(s: Seq<char>) -> bool {
    s.len() > 0 && s[0] == '/'
}

/// The path string with the given components, rooted or not.
pub open spec fn render(absolute: bool, c: Seq<Seq<char>>) -> Seq<char> {
    if absolute {
        seq!['/'] + join(c)
    } else {
        join(c)
    }
}

/// `p` lies inside `base`: both are rooted or both are not, and the
/// components of `base` begin those of `p`.
pub open spec fn is_within(base: Seq<char>, p: Seq<char>) -> bool {
    &&& is_absolute(p) == is_absolute(base)
    &&& components(base).len() <= components(p).len()
    &&& components(p).take(components(base).len() as int) == components(base)
}

/// The current-directory marker `.`.
pub open spec fn current_marker() -> Seq<char> {
    seq!['.']
}

/// The parent-directory marker `..`.
pub open spec fn parent_marker() -> Seq<char> {
    seq!['.', '.']
}

/// One segment of a request applied to the components gathered below the
/// base; `None` once a parent marker has tried to climb above the base.
pub open spec fn step(st: Option<Seq<Seq<char>>>, seg: Seq<char>) -> Option<Seq<Seq<char>>> {
    match st {
        None => None,
        Some(rel) => if seg == current_marker() {
            Some(rel)
        } else if seg == parent_marker() {
            if rel.len() == 0 {
                None
            } else {
                Some(rel.drop_last())
            }
        } else {
            Some(rel.push(seg))
        },
    }
}

/// The segments applied in order, starting from `st`.
pub open spec fn walk(st: Option<Seq<Seq<char>>>, segs: Seq<Seq<char>>) -> Option<
    Seq<Seq<char>>,
>
    decreases segs.len(),
{
    if segs.len() == 0 {
        st
    } else {
        step(walk(st, segs.drop_last()), segs.last())
    }
}

/// The path that `requested` names below `base`, or `None` where it escapes.
pub open spec fn resolution(base: Seq<char>, requested: Seq<char>) -> Option<Seq<char>> {
    match walk(Some(seq![]), components(requested)) {
        Some(rel) => Some(render(is_absolute(base), components(base) + rel)),
        None => None,
    }
}

proof fn lemma_run_of_plain(x: Seq<char>)
    requires
        forall|i: int| 0 <= i < x.len() ==> x[i] != '/',
    ensures
        trailing_run(x) == x,
        closed_components(x) == Seq::<Seq<char>>::empty(),
    decreases x.len(),
{
    if x.len() > 0 {
        lemma_run_of_plain(x.drop_last());
        assert(x.drop_last().push(x.last()) =~= x);
    }
}

/// A name is its own single component.
proof fn lemma_components_of_name(x: Seq<char>)
    requires
        is_name(x),
    ensures
        components(x) == seq![x],
{
    lemma_run_of_plain(x);
    assert(Seq::<Seq<char>>::empty().push(x) =~= seq![x]);
}

proof fn lemma_scan_after_separator(t: Seq<char>, b: Seq<char>)
    requires
        trailing_run(t).len() == 0,
    ensures
        closed_components(t + b) == closed_components(t) + closed_components(b),
        trailing_run(t + b) == trailing_run(b),
    decreases b.len(),
{
    if b.len() == 0 {
        assert(t + b =~= t);
        assert(closed_components(t) + closed_components(b) =~= closed_components(t));
    } else {
        lemma_scan_after_separator(t, b.drop_last());
        assert((t + b).drop_last() =~= t + b.drop_last());
        let cb = closed_components(b.drop_last());
        let run = trailing_run(b.drop_last());
        if b.last() == '/' && run.len() > 0 {
            assert((closed_components(t) + cb).push(run) =~= closed_components(t) + cb.push(run));
        }
    }
}

/// The components of two paths joined by a separator are those of the first
/// followed by those of the second.
pub proof fn lemma_components_concat(a: Seq<char>, b: Seq<char>)
    ensures
        components(a + seq!['/'] + b) == components(a) + components(b),
{
    let t = a + seq!['/'];
    assert(t.drop_last() =~= a);
    lemma_scan_after_separator(t, b);
    assert(a + seq!['/'] + b == t + b);
    let cb = closed_components(b);
    let rb = trailing_run(b);
    if rb.len() > 0 {
        assert((components(a) + cb).push(rb) =~= components(a) + cb.push(rb));
    }
}

proof fn lemma_components_of_join(c: Seq<Seq<char>>)
    requires
        forall|i: int| 0 <= i < c.len() ==> is_name(#[trigger] c[i]),
    ensures
        components(join(c)) == c,
        c.len() > 0 ==> join(c).len() > 0 && join(c)[0] == c[0][0],
    decreases c.len(),
{
    if c.len() == 0 {
        assert(components(join(c)) =~= c);
    } else if c.len() == 1 {
        lemma_components_of_name(c[0]);
        assert(seq![c[0]] =~= c);
    } else {
        let d = c.drop_last();
        lemma_components_of_join(d);
        lemma_components_concat(join(d), c.last());
        lemma_components_of_name(c.last());
        assert(d + seq![c.last()] =~= c);
    }
}

/// A rendered path has exactly the components it was rendered from, and is
/// rooted exactly when asked to be.
proof fn lemma_render(absolute: bool, c: Seq<Seq<char>>)
    requires
        forall|i: int| 0 <= i < c.len() ==> is_name(#[trigger] c[i]),
    ensures
        components(render(absolute, c)) == c,
        is_absolute(render(absolute, c)) == absolute,
{
    lemma_components_of_join(c);
    if absolute {
        lemma_components_concat(seq![], join(c));
        assert(seq![] + seq!['/'] + join(c) =~= seq!['/'] + join(c));
        assert(components(Seq::<char>::empty()) =~= Seq::<Seq<char>>::empty());
        assert(Seq::<Seq<char>>::empty() + c =~= c);
    }
}

proof fn lemma_walk_concat(st: Option<Seq<Seq<char>>>, a: Seq<Seq<char>>, b: Seq<Seq<char>>)
    ensures
        walk(st, a + b) == walk(walk(st, a), b),
    decreases b.len(),
{
    if b.len() == 0 {
        assert(a + b =~= a);
    } else {
        lemma_walk_concat(st, a, b.drop_last());
        assert((a + b).drop_last() =~= a + b.drop_last());
    }
}

proof fn lemma_walk_single(st: Option<Seq<Seq<char>>>, seg: Seq<char>)
    ensures
        walk(st, seq![seg]) == step(st, seg),
{
    assert(seq![seg].drop_last() =~= Seq::<Seq<char>>::empty());
    assert(walk(st, Seq::<Seq<char>>::empty()) == st);
}

proof fn lemma_walk_none(segs: Seq<Seq<char>>)
    ensures
        walk(None, segs) is None,
    decreases segs.len(),
{
    if segs.len() > 0 {
        lemma_walk_none(segs.drop_last());
    }
}

proof fn lemma_walk_names(st: Option<Seq<Seq<char>>>, segs: Seq<Seq<char>>)
    requires
        st matches Some(rel) ==> forall|i: int| 0 <= i < rel.len() ==> is_name(#[trigger] rel[i]),
        forall|i: int| 0 <= i < segs.len() ==> is_name(#[trigger] segs[i]),
    ensures
        walk(st, segs) matches Some(rel) ==> forall|i: int|
            0 <= i < rel.len() ==> is_name(#[trigger] rel[i]),
    decreases segs.len(),
{
    if segs.len() > 0 {
        lemma_walk_names(st, segs.drop_last());
        if let Some(rel) = walk(st, segs.drop_last()) {
            let next = step(walk(st, segs.drop_last()), segs.last());
            if let Some(nrel) = next {
                assert forall|i: int| 0 <= i < nrel.len() implies is_name(#[trigger] nrel[i]) by {
                    if i < rel.len() {
                        assert(nrel[i] == rel[i]);
                    } else {
                        assert(nrel[i] == segs.last());
                    }
                }
            }
        }
    }
}

/// Whatever `requested` holds, a resolved path lies inside `base`,
/// component by component.
pub proof fn lemma_resolution_stays_within(base: Seq<char>, requested: Seq<char>)
    ensures
        resolution(base, requested) matches Some(p) ==> is_within(base, p),
{
    if let Some(rel) = walk(Some(seq![]), components(requested)) {
        lemma_components_are_names(requested);
        lemma_components_are_names(base);
        lemma_walk_names(Some(seq![]), components(requested));
        let all = components(base) + rel;
        assert forall|i: int| 0 <= i < all.len() implies is_name(#[trigger] all[i]) by {
            if i < components(base).len() {
                assert(all[i] == components(base)[i]);
            } else {
                assert(all[i] == rel[i - components(base).len()]);
            }
        }
        lemma_render(is_absolute(base), all);
        assert(all.take(components(base).len() as int) =~= components(base));
    }
}

/// A current-directory marker changes nothing: `p/./q` resolves as `p/q`.
pub proof fn lemma_current_marker_is_noop(base: Seq<char>, p: Seq<char>, q: Seq<char>)
    ensures
        resolution(base, p + seq!['/', '.', '/'] + q) == resolution(base, p + seq!['/'] + q),
{
    let with_marker = p + seq!['/', '.', '/'] + q;
    assert(with_marker =~= p + seq!['/'] + (seq!['.'] + seq!['/'] + q));
    lemma_components_concat(p, seq!['.'] + seq!['/'] + q);
    lemma_components_concat(seq!['.'], q);
    lemma_components_of_name(seq!['.']);
    lemma_components_concat(p, q);
    let cp = components(p);
    let cq = components(q);
    assert(cp + (seq![seq!['.']] + cq) =~= cp + seq![current_marker()] + cq);
    lemma_walk_concat(Some(seq![]), cp + seq![current_marker()], cq);
    lemma_walk_concat(Some(seq![]), cp, seq![current_marker()]);
    lemma_walk_concat(Some(seq![]), cp, cq);
    let st = walk(Some(seq![]), cp);
    lemma_walk_single(st, current_marker());
}

/// A name followed by a parent marker cancels out: `p/x/../q` resolves as
/// `p/q` for every name `x` that is not itself a marker.
pub proof fn lemma_name_then_parent_cancels(
    base: Seq<char>,
    p: Seq<char>,
    x: Seq<char>,
    q: Seq<char>,
)
    requires
        is_name(x),
        x != current_marker(),
        x != parent_marker(),
    ensures
        resolution(base, p + seq!['/'] + x + seq!['/', '.', '.', '/'] + q) == resolution(
            base,
            p + seq!['/'] + q,
        ),
{
    let long = p + seq!['/'] + x + seq!['/', '.', '.', '/'] + q;
    assert(long =~= (p + seq!['/'] + x) + seq!['/'] + (seq!['.', '.'] + seq!['/'] + q));
    lemma_components_concat(p + seq!['/'] + x, seq!['.', '.'] + seq!['/'] + q);
    lemma_components_concat(p, x);
    lemma_components_of_name(x);
    lemma_components_concat(seq!['.', '.'], q);
    lemma_components_of_name(seq!['.', '.']);
    lemma_components_concat(p, q);
    let cp = components(p);
    let cq = components(q);
    let pair = seq![x, parent_marker()];
    assert((cp + seq![x]) + (seq![seq!['.', '.']] + cq) =~= (cp + pair) + cq);
    lemma_walk_concat(Some(seq![]), cp + pair, cq);
    lemma_walk_concat(Some(seq![]), cp, pair);
    lemma_walk_concat(Some(seq![]), cp, cq);
    assert(components(long) == cp + pair + cq);
    let st = walk(Some(seq![]), cp);
    assert(pair.drop_last() =~= seq![x]);
    assert(seq![x].drop_last() =~= Seq::<Seq<char>>::empty());
    lemma_walk_single(st, x);
    assert(pair.last() == parent_marker());
    assert(walk(st, pair) == step(step(st, x), parent_marker()));
    if let Some(rel) = st {
        assert(rel.push(x).drop_last() =~= rel);
    }
    assert(walk(st, pair) == st);
}

/// A request that begins by climbing out of the base is forbidden, whatever
/// follows.
pub proof fn lemma_leading_parent_is_forbidden(base: Seq<char>, q: Seq<char>)
    ensures
        resolution(base, seq!['.', '.', '/'] + q) is None,
{
    assert(seq!['.', '.', '/'] + q =~= seq!['.', '.'] + seq!['/'] + q);
    lemma_components_concat(seq!['.', '.'], q);
    lemma_components_of_name(seq!['.', '.']);
    let cq = components(q);
    assert(components(seq!['.', '.', '/'] + q) == seq![parent_marker()] + cq);
    lemma_walk_concat(Some(seq![]), seq![parent_marker()], cq);
    lemma_walk_single(Some(seq![]), parent_marker());
    lemma_walk_none(cq);
}

fn is_current_marker(seg: &str) -> (r: bool)
    ensures
        r == (seg@ == current_marker()),
{
    let n = seg.unicode_len();
    if n == 1 && seg.get_char(0) == '.' {
        assert(seg@ =~= current_marker());
        true
    } else {
        false
    }
}

fn is_parent_marker(seg: &str) -> (r: bool)
    ensures
        r == (seg@ == parent_marker()),
{
    let n = seg.unicode_len();
    if n == 2 && seg.get_char(0) == '.' && seg.get_char(1) == '.' {
        assert(seg@ =~= parent_marker());
        true
    } else {
        false
    }
}

/// Applies the segments of a request in order; `None` where one of them
/// climbs above the base.
fn walk_segments(segs: &Vec<String>) -> (r: Option<Vec<String>>)
    ensures
        match r {
            Some(rel) => walk(Some(seq![]), names(segs@)) == Some(names(rel@)),
            None => walk(Some(seq![]), names(segs@)) is None,
        },
{
    let mut rel: Vec<String> = Vec::new();
    let mut i: usize = 0;
    while i < segs.len()
        invariant
            i <= segs@.len(),
            walk(Some(seq![]), names(segs@).take(i as int)) == Some(names(rel@)),
        decreases segs@.len() - i,
    {
        let seg = &segs[i];
        assert(names(segs@).take(i + 1).drop_last() =~= names(segs@).take(i as int));
        if is_current_marker(seg.as_str()) {
        } else if is_parent_marker(seg.as_str()) {
            if rel.len() == 0 {
                proof {
                    lemma_walk_concat(
                        Some(seq![]),
                        names(segs@).take(i + 1),
                        names(segs@).skip(i + 1),
                    );
                    lemma_walk_none(names(segs@).skip(i + 1));
                    assert(names(segs@).take(i + 1) + names(segs@).skip(i + 1) =~= names(segs@));
                }
                return None;
            }
            let ghost before = rel@;
            rel.pop();
            assert(names(rel@) =~= names(before).drop_last());
        } else {
            let ghost before = rel@;
            rel.push(seg.clone());
            assert(names(rel@) =~= names(before).push(seg@));
        }
        i = i + 1;
    }
    assert(names(segs@).take(i as int) =~= names(segs@));
    Some(rel)
}

/// Writes components as a path string, rooted or not.
fn render_path(absolute: bool, comps: &Vec<String>) -> (r: String)
    ensures
        r@ == render(absolute, names(comps@)),
{
    let ghost lead: Seq<char> = if absolute {
        seq!['/']
    } else {
        seq![]
    };
    let mut out = String::new();
    proof {
        reveal_strlit("/");
    }
    if absolute {
        out.append("/");
    }
    let mut i: usize = 0;
    while i < comps.len()
        invariant
            i <= comps@.len(),
            out@ == lead + join(names(comps@).take(i as int)),
        decreases comps@.len() - i,
    {
        let ghost before = out@;
        proof {
            reveal_strlit("/");
        }
        assert("/"@ =~= seq!['/']);
        assert(names(comps@).take(i + 1).drop_last() =~= names(comps@).take(i as int));
        if i > 0 {
            out.append("/");
        }
        out.append(comps[i].as_str());
        if i == 0 {
            assert(out@ =~= lead + join(names(comps@).take(1)));
        } else {
            let ghost c = names(comps@).take(i + 1);
            assert(c.last() == comps@[i as int]@);
            assert(join(c) == join(c.drop_last()) + seq!['/'] + c.last());
            assert(out@ == before + seq!['/'] + comps@[i as int]@);
            assert(out@ =~= lead + join(c));
        }
        i = i + 1;
    }
    assert(names(comps@).take(i as int) =~= names(comps@));
    if absolute {
        out
    } else {
        assert(out@ =~= join(names(comps@)));
        out
    }
}

fn starts_at_root(s: &str) -> (r: bool)
    ensures
        r == is_absolute(s@),
{
    s.unicode_len() > 0 && s.get_char(0) == '/'
}

/// Resolves an untrusted, slash-separated `requested` path against the
/// trusted directory `base`. Current-directory markers are skipped, a parent
/// marker drops the last component gathered below `base`, and every other
/// component is appended as it stands. A parent marker with nothing left to
/// drop would leave `base`: the request is then `Forbidden`. The result is a
/// function of the two strings alone, and always lies inside `base`.
pub fn resolve_path(base: &str, requested: &str) -> (r: Result<String, ResolveError>)
    ensures
        match r {
            Ok(p) => resolution(base@, requested@) == Some(p@) && is_within(base@, p@),
            Err(e) => resolution(base@, requested@) is None && e == ResolveError::Forbidden,
        },
{
    let segs = split_components(requested);
    match walk_segments(&segs) {
        None => Err(ResolveError::Forbidden),
        Some(rel) => {
            let mut rel = rel;
            let mut comps = split_components(base);
            let ghost base_names = names(comps@);
            let ghost rel_names = names(rel@);
            comps.append(&mut rel);
            assert(names(comps@) =~= base_names + rel_names);
            let p = render_path(starts_at_root(base), &comps);
            proof {
                lemma_resolution_stays_within(base@, requested@);
            }
            Ok(p)
        },
    }
}

} // verus!
