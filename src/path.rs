//! Paths as text: `/` separates components.

use vstd::prelude::*;

verus! {

/// The `/`-separated segments of `p`, empty ones included.
pub open spec fn segments(p: Seq<char>) -> Seq<Seq<char>>
    decreases p.len(),
{
    if p.len() == 0 {
        seq![Seq::empty()]
    } else if p.last() == '/' {
        segments(p.drop_last()).push(Seq::empty())
    } else {
        let s = segments(p.drop_last());
        s.drop_last().push(s.last().push(p.last()))
    }
}

/// A segment that names something: neither empty nor `.`.
pub open spec fn is_normal(s: Seq<char>) -> bool {
    s.len() > 0 && s != seq!['.']
}

/// The segments of `s` that name something, in order.
pub open spec fn keep_normal(s: Seq<Seq<char>>) -> Seq<Seq<char>>
    decreases s.len(),
{
    if s.len() == 0 {
        s
    } else if is_normal(s.last()) {
        keep_normal(s.drop_last()).push(s.last())
    } else {
        keep_normal(s.drop_last())
    }
}

/// The component that a path starts with: `/` for an absolute path, `.` for
/// one whose first segment is `.`, none otherwise.
pub open spec fn leading(p: Seq<char>) -> Seq<Seq<char>> {
    if p.len() > 0 && p[0] == '/' {
        seq![seq!['/']]
    } else if p.len() > 0 && p[0] == '.' && (p.len() == 1 || p[1] == '/') {
        seq![seq!['.']]
    } else {
        Seq::empty()
    }
}

/// The components of `p`: its leading component, then its segments that name
/// something. Repeated separators and `.` segments past the first fall away.
pub open spec fn components(p: Seq<char>) -> Seq<Seq<char>> {
    leading(p) + keep_normal(segments(p))
}

/// `r` is `p` itself or a directory above it: the components of `r` begin
/// the components of `p`. The empty path holds every relative path.
pub open spec fn is_within(r: Seq<char>, p: Seq<char>) -> bool {
    components(r).is_prefix_of(components(p))
}

pub open spec fn views(v: Seq<String>) -> Seq<Seq<char>> {
    v.map_values(|s: String| s@)
}

/// `name` appended to `dir`, with one separator between them.
pub open spec fn join(dir: Seq<char>, name: Seq<char>) -> Seq<char> {
    if dir.len() == 0 || dir.last() == '/' {
        dir + name
    } else {
        dir + seq!['/'] + name
    }
}

/// A single component: not empty, no separator, neither `.` nor `..`.
pub open spec fn is_component(name: Seq<char>) -> bool {
    &&& name.len() > 0
    &&& !name.contains('/')
    &&& name != seq!['.']
    &&& name != seq!['.', '.']
}

/// `p` without the separators and the `.` segments at its end.
pub open spec fn trim_trailing(p: Seq<char>) -> Seq<char>
    decreases p.len(),
{
    if p.len() > 0 && (p.last() == '/' || (p.len() >= 2 && p.last() == '.' && p[p.len() - 2]
        == '/')) {
        trim_trailing(p.drop_last())
    } else {
        p
    }
}

/// What follows the last separator of `p` (all of `p` when it has none).
pub open spec fn last_segment(p: Seq<char>) -> Seq<char>
    decreases p.len(),
{
    if p.len() == 0 || p.last() == '/' {
        Seq::empty()
    } else {
        last_segment(p.drop_last()).push(p.last())
    }
}

/// The final component of `p`, separators and `.` segments at the end
/// ignored; none where that segment is empty, `.` or `..`.
pub open spec fn final_name(p: Seq<char>) -> Option<Seq<char>> {
    let s = last_segment(trim_trailing(p));
    if s.len() == 0 || s == seq!['.'] || s == seq!['.', '.'] {
        None
    } else {
        Some(s)
    }
}

/// Whether `s` names something.
fn is_normal_segment(s: &str) -> (r: bool)
    ensures
        r == is_normal(s@),
{
    let n = s.unicode_len();
    if n == 0 {
        return false;
    }
    if n == 1 && s.get_char(0) == '.' {
        assert(s@ =~= seq!['.']);
        return false;
    }
    assert(s@ != seq!['.']) by {
        if n == 1 {
            assert(s@[0] != seq!['.'][0]);
        }
    }
    true
}

/// The components of `p`.
pub fn components_of(p: &str) -> (r: Vec<String>)
    ensures
        views(r@) == components(p@),
{
    let n = p.unicode_len();
    let mut out: Vec<String> = Vec::new();
    proof {
        reveal_strlit("/");
        reveal_strlit(".");
    }
    if n > 0 && p.get_char(0) == '/' {
        out.push(String::from_str("/"));
        assert(views(out@) =~= seq!["/"@]);
        assert("/"@ =~= seq!['/']);
    } else if n > 0 && p.get_char(0) == '.' && (n == 1 || p.get_char(1) == '/') {
        out.push(String::from_str("."));
        assert(views(out@) =~= seq!["."@]);
        assert("."@ =~= seq!['.']);
    }
    let ghost lead = leading(p@);
    assert(views(out@) =~= lead);
    let mut start: usize = 0;
    let mut i: usize = 0;
    assert(p@.subrange(0, 0) =~= Seq::<char>::empty());
    assert(p@.subrange(0, 0) =~= p@.subrange(0, 0));
    assert(keep_normal(segments(p@.subrange(0, 0)).drop_last()) =~= Seq::<Seq<char>>::empty());
    assert(views(out@) =~= lead + keep_normal(segments(p@.subrange(0, 0)).drop_last()));
    while i < n
        invariant
            n == p@.len(),
            start <= i <= n,
            lead == leading(p@),
            segments(p@.subrange(0, i as int)).last() == p@.subrange(start as int, i as int),
            views(out@) == lead + keep_normal(segments(p@.subrange(0, i as int)).drop_last()),
        decreases n - i,
    {
        let ghost before = segments(p@.subrange(0, i as int));
        let ghost old_out = out@;
        proof {
            lemma_segments_len(p@.subrange(0, i as int));
        }
        assert(p@.subrange(0, i + 1).drop_last() =~= p@.subrange(0, i as int));
        assert(p@.subrange(0, i + 1).last() == p@[i as int]);
        if p.get_char(i) == '/' {
            let seg = p.substring_char(start, i);
            assert(segments(p@.subrange(0, i + 1)).drop_last() =~= before);
            if is_normal_segment(seg) {
                out.push(String::from_str(seg));
                assert(views(out@) =~= views(old_out).push(seg@));
                assert(before =~= before.drop_last().push(before.last()));
                assert(views(out@) =~= lead + keep_normal(before));
            } else {
                assert(views(out@) =~= lead + keep_normal(before));
            }
            start = i + 1;
            assert(segments(p@.subrange(0, i + 1)).last() =~= p@.subrange(i + 1, i + 1));
        } else {
            assert(segments(p@.subrange(0, i + 1)).drop_last() =~= before.drop_last());
            assert(p@.subrange(start as int, i + 1) =~= p@.subrange(start as int, i as int).push(
                p@[i as int],
            ));
        }
        i += 1;
    }
    assert(p@.subrange(0, n as int) =~= p@);
    let ghost all = segments(p@);
    proof {
        lemma_segments_len(p@);
    }
    assert(all =~= all.drop_last().push(all.last()));
    let ghost old_out = out@;
    let seg = p.substring_char(start, n);
    if is_normal_segment(seg) {
        out.push(String::from_str(seg));
        assert(views(out@) =~= views(old_out).push(seg@));
    }
    assert(views(out@) =~= lead + keep_normal(all));
    out
}

/// Whether `p` lies within `root`.
pub fn path_is_within(root: &str, p: &str) -> (r: bool)
    ensures
        r == is_within(root@, p@),
{
    let rc = components_of(root);
    let pc = components_of(p);
    if rc.len() > pc.len() {
        return false;
    }
    let mut k: usize = 0;
    while k < rc.len()
        invariant
            rc@.len() <= pc@.len(),
            k <= rc@.len(),
            views(rc@) == components(root@),
            views(pc@) == components(p@),
            forall|j: int| 0 <= j < k ==> rc@[j]@ == pc@[j]@,
        decreases rc@.len() - k,
    {
        if !(rc[k] == pc[k]) {
            assert(views(rc@)[k as int] != views(pc@).subrange(0, rc@.len() as int)[k as int]);
            return false;
        }
        k += 1;
    }
    assert(views(rc@) =~= views(pc@).subrange(0, rc@.len() as int));
    true
}

/// `name` appended to `dir`.
pub fn join_path(dir: &str, name: &str) -> (r: String)
    ensures
        r@ == join(dir@, name@),
{
    let n = dir.unicode_len();
    let mut r = String::from_str(dir);
    if n > 0 && dir.get_char(n - 1) != '/' {
        r.append("/");
        proof {
            reveal_strlit("/");
        }
    }
    r.append(name);
    r
}

/// The final component of `p`, as a slice of it.
pub fn final_name_of(p: &str) -> (r: Option<&str>)
    ensures
        r is None <==> final_name(p@) is None,
        r matches Some(s) ==> final_name(p@) == Some(s@),
{
    let n = p.unicode_len();
    let mut end = n;
    assert(p@.subrange(0, n as int) =~= p@);
    while end > 0 && (p.get_char(end - 1) == '/' || (end >= 2 && p.get_char(end - 1) == '.'
        && p.get_char(end - 2) == '/'))
        invariant
            n == p@.len(),
            end <= n,
            trim_trailing(p@) == trim_trailing(p@.subrange(0, end as int)),
        decreases end,
    {
        assert(p@.subrange(0, end - 1) =~= p@.subrange(0, end as int).drop_last());
        end -= 1;
    }
    assert(trim_trailing(p@) == p@.subrange(0, end as int));
    let mut start = end;
    while start > 0 && p.get_char(start - 1) != '/'
        invariant
            n == p@.len(),
            start <= end <= n,
            last_segment(p@.subrange(0, end as int)) == last_segment(
                p@.subrange(0, start as int),
            ) + p@.subrange(start as int, end as int),
        decreases start,
    {
        assert(p@.subrange(0, start - 1) =~= p@.subrange(0, start as int).drop_last());
        assert(p@.subrange(start - 1, end as int) =~= seq![p@[start - 1]] + p@.subrange(
            start as int,
            end as int,
        ));
        assert(last_segment(p@.subrange(0, start - 1)).push(p@[start - 1]) + p@.subrange(
            start as int,
            end as int,
        ) =~= last_segment(p@.subrange(0, start - 1)) + p@.subrange(start - 1, end as int));
        start -= 1;
    }
    assert(last_segment(p@.subrange(0, start as int)) =~= Seq::<char>::empty());
    assert(last_segment(trim_trailing(p@)) =~= p@.subrange(start as int, end as int));
    let s = p.substring_char(start, end);
    let len = end - start;
    if len == 0 {
        return None;
    }
    if len == 1 && s.get_char(0) == '.' {
        assert(s@ =~= seq!['.']);
        return None;
    }
    if len == 2 && s.get_char(0) == '.' && s.get_char(1) == '.' {
        assert(s@ =~= seq!['.', '.']);
        return None;
    }
    assert(s@ != seq!['.']) by {
        if len == 1 {
            assert(s@[0] != seq!['.'][0]);
        }
    }
    assert(s@ != seq!['.', '.']) by {
        if len == 2 {
            assert(s@[0] != seq!['.', '.'][0] || s@[1] != seq!['.', '.'][1]);
        }
    }
    Some(s)
}

pub proof fn lemma_segments_len(p: Seq<char>)
    ensures
        segments(p).len() >= 1,
    decreases p.len(),
{
    if p.len() > 0 {
        lemma_segments_len(p.drop_last());
    }
}

proof fn lemma_keep_normal_add(a: Seq<Seq<char>>, b: Seq<Seq<char>>)
    ensures
        keep_normal(a + b) == keep_normal(a) + keep_normal(b),
    decreases b.len(),
{
    if b.len() == 0 {
        assert(a + b =~= a);
        assert(keep_normal(a) + keep_normal(b) =~= keep_normal(a));
    } else {
        assert((a + b).drop_last() =~= a + b.drop_last());
        lemma_keep_normal_add(a, b.drop_last());
        if is_normal(b.last()) {
            assert(keep_normal(a) + keep_normal(b.drop_last()).push(b.last()) =~= (keep_normal(a)
                + keep_normal(b.drop_last())).push(b.last()));
        }
    }
}

/// The segments on either side of a separator.
proof fn lemma_segments_sep(a: Seq<char>, b: Seq<char>)
    ensures
        segments(a + seq!['/'] + b) == segments(a) + segments(b),
    decreases b.len(),
{
    let q = a + seq!['/'] + b;
    if b.len() == 0 {
        assert(q =~= a.push('/'));
        assert(q.drop_last() =~= a);
        assert(segments(a).push(Seq::empty()) =~= segments(a) + segments(b));
    } else {
        assert(q.drop_last() =~= a + seq!['/'] + b.drop_last());
        lemma_segments_sep(a, b.drop_last());
        lemma_segments_len(b.drop_last());
        let t = segments(b.drop_last());
        let sa = segments(a);
        if b.last() == '/' {
            assert((sa + t).push(Seq::empty()) =~= sa + t.push(Seq::empty()));
        } else {
            assert((sa + t).last() == t.last());
            assert((sa + t).drop_last() =~= sa + t.drop_last());
            assert((sa + t.drop_last()).push(t.last().push(b.last())) =~= sa + t.drop_last().push(
                t.last().push(b.last()),
            ));
        }
    }
}

/// Every path lies within itself.
pub proof fn lemma_within_self(p: Seq<char>)
    ensures
        is_within(p, p),
{
    assert(components(p).subrange(0, components(p).len() as int) =~= components(p));
}

/// A directory holds what is joined to it.
pub proof fn lemma_within_join(dir: Seq<char>, name: Seq<char>)
    ensures
        is_within(dir, join(dir, name)),
        dir.len() > 0 ==> components(join(dir, name)) == components(dir) + keep_normal(
            segments(name),
        ),
{
    let j = join(dir, name);
    let rest = keep_normal(segments(name));
    if dir.len() == 0 {
        assert(j =~= name);
        assert(leading(name) =~= leading(j));
        assert(segments(dir) =~= seq![Seq::<char>::empty()]);
        assert(seq![Seq::<char>::empty()].drop_last() =~= Seq::<Seq<char>>::empty());
        let e = seq![Seq::<char>::empty()];
        assert(e.last() == Seq::<char>::empty());
        assert(!is_normal(Seq::<char>::empty()));
        assert(keep_normal(e) == keep_normal(e.drop_last()));
        assert(keep_normal(Seq::<Seq<char>>::empty()) =~= Seq::<Seq<char>>::empty());
        assert(keep_normal(segments(dir)) =~= Seq::<Seq<char>>::empty());
        assert(leading(dir) =~= Seq::<Seq<char>>::empty());
        assert(components(dir) =~= Seq::<Seq<char>>::empty());
    } else {
        if dir.last() == '/' {
            let d = dir.drop_last();
            assert(j =~= d + seq!['/'] + name);
            lemma_segments_sep(d, name);
            assert(segments(dir) == segments(d).push(Seq::empty()));
            assert(segments(d).push(Seq::empty()).drop_last() =~= segments(d));
            lemma_keep_normal_add(segments(d), segments(name));
        } else {
            assert(j =~= dir + seq!['/'] + name);
            lemma_segments_sep(dir, name);
            lemma_keep_normal_add(segments(dir), segments(name));
        }
        assert(j[0] == dir[0]);
        if dir.len() > 1 {
            assert(j[1] == dir[1]);
        } else if dir.last() != '/' {
            assert(j[1] == '/');
        }
        assert(leading(j) =~= leading(dir));
        assert(components(j) =~= components(dir) + rest);
    }
    assert(components(j).subrange(0, components(dir).len() as int) =~= components(dir));
}

/// Containment is transitive.
pub proof fn lemma_within_trans(r: Seq<char>, p: Seq<char>, q: Seq<char>)
    requires
        is_within(r, p),
        is_within(p, q),
    ensures
        is_within(r, q),
{
    let (cr, cp, cq) = (components(r), components(p), components(q));
    assert(cq.subrange(0, cr.len() as int) =~= cq.subrange(0, cp.len() as int).subrange(
        0,
        cr.len() as int,
    ));
}

proof fn lemma_last_segment_after_sep(q: Seq<char>, name: Seq<char>)
    requires
        q.len() == 0 || q.last() == '/',
        !name.contains('/'),
    ensures
        last_segment(q + name) == name,
    decreases name.len(),
{
    if name.len() == 0 {
        assert(q + name =~= q);
    } else {
        assert((q + name).drop_last() =~= q + name.drop_last());
        assert(name.last() != '/') by {
            if name.last() == '/' {
                assert(name.contains('/'));
            }
        }
        assert(!name.drop_last().contains('/')) by {
            if name.drop_last().contains('/') {
                let k = choose|k: int| 0 <= k < name.drop_last().len() && name.drop_last()[k] == '/';
                assert(name[k] == '/');
            }
        }
        lemma_last_segment_after_sep(q, name.drop_last());
        assert(name.drop_last().push(name.last()) =~= name);
    }
}

/// The final name of a component joined to a directory is that component.
pub proof fn lemma_final_name_join(dir: Seq<char>, name: Seq<char>)
    requires
        is_component(name),
    ensures
        final_name(join(dir, name)) == Some(name),
{
    let q = if dir.len() == 0 || dir.last() == '/' {
        dir
    } else {
        dir + seq!['/']
    };
    assert(join(dir, name) =~= q + name);
    assert(name.last() != '/') by {
        if name.last() == '/' {
            assert(name.contains('/'));
        }
    }
    assert(!(name.last() == '.' && (q + name)[(q + name).len() - 2] == '/')) by {
        if name.len() == 1 {
            if name[0] == '.' {
                assert(name =~= seq!['.']);
            }
        } else {
            assert((q + name)[(q + name).len() - 2] == name[name.len() - 2]);
            if name[name.len() - 2] == '/' {
                assert(name.contains('/'));
            }
        }
    }
    assert(trim_trailing(q + name) == q + name);
    lemma_last_segment_after_sep(q, name);
}

/// A single component is its own only segment.
pub proof fn lemma_component_segments(name: Seq<char>)
    requires
        is_component(name),
    ensures
        keep_normal(segments(name)) == seq![name],
{
    lemma_segments_no_sep(name);
    let s = seq![name];
    assert(s.drop_last() =~= Seq::<Seq<char>>::empty());
    assert(is_normal(name));
    assert(keep_normal(s.drop_last()).push(name) =~= s);
}

proof fn lemma_segments_no_sep(name: Seq<char>)
    requires
        !name.contains('/'),
    ensures
        segments(name) == seq![name],
    decreases name.len(),
{
    if name.len() > 0 {
        assert(!name.drop_last().contains('/')) by {
            if name.drop_last().contains('/') {
                let k = choose|k: int| 0 <= k < name.drop_last().len() && name.drop_last()[k] == '/';
                assert(name[k] == '/');
            }
        }
        lemma_segments_no_sep(name.drop_last());
        assert(name.last() != '/') by {
            if name.last() == '/' {
                assert(name.contains('/'));
            }
        }
        assert(name.drop_last().push(name.last()) =~= name);
        assert(seq![name.drop_last()].drop_last().push(name.drop_last().push(name.last())) =~= seq![
            name,
        ]);
    } else {
        assert(name =~= Seq::<char>::empty());
    }
}

} // verus!
