//! Laws of the lexical path functions: what components normalization leaves, that it is
//! idempotent and keeps absoluteness, and what `relative_to` gives on equal or mixed
//! paths.

use vstd::prelude::*;
use crate::path::{
    classify_segment, collect_path, common_prefix_len, component_text, components, has_root,
    normalize_components, normalize_step, push_path, render_components, segments_components,
    spec_join, spec_normalize, drop_cur_dir, spec_relative_to, split_segments, Component,
};

verus! {

/// A component name that a path can hold: non-empty, without `/`, and neither `.` nor
/// `..`.
pub open spec fn valid_name(n: Seq<char>) -> bool {
    &&& n.len() > 0
    &&& !n.contains('/')
    &&& n != seq!['.']
    &&& n != seq!['.', '.']
}

/// What the components of any path text satisfy: the root occurs only first, and
/// normal components carry valid names.
pub open spec fn components_wf(cs: Seq<Component>) -> bool {
    &&& forall|i: int| 0 <= i < cs.len() && #[trigger] cs[i] is RootDir ==> i == 0
    &&& forall|i: int| 0 <= i < cs.len() ==> (#[trigger] cs[i] matches Component::Normal(n) ==> valid_name(n))
}

/// The shape of a normalized component list: well formed, without `.`, and with every
/// `..` preceded only by other `..` (so none follows the root or a normal component).
pub open spec fn normal_form(cs: Seq<Component>) -> bool {
    &&& components_wf(cs)
    &&& forall|i: int| 0 <= i < cs.len() ==> !(#[trigger] cs[i] is CurDir)
    &&& forall|i: int, j: int| 0 <= i < j < cs.len() && #[trigger] cs[j] is ParentDir ==> #[trigger] cs[i] is ParentDir
}

proof fn lemma_segments_no_slash(s: Seq<char>)
    ensures
        split_segments(s).len() >= 1,
        forall|i: int| 0 <= i < split_segments(s).len() ==> !(#[trigger] split_segments(s)[i]).contains('/'),
    decreases s.len(),
{
    if s.len() > 0 {
        let prev = split_segments(s.drop_last());
        lemma_segments_no_slash(s.drop_last());
        if s.last() != '/' {
            let segs = split_segments(s);
            assert forall|i: int| 0 <= i < segs.len() implies !(#[trigger] segs[i]).contains('/') by {
                if i == prev.len() - 1 {
                    let w = prev.last().push(s.last());
                    assert(segs[i] == w);
                    if w.contains('/') {
                        let k = choose|k: int| 0 <= k < w.len() && w[k] == '/';
                        if k < prev.last().len() {
                            assert(prev.last()[k] == '/');
                            assert(prev[prev.len() - 1].contains('/'));
                        }
                    }
                } else {
                    assert(segs[i] == prev[i]);
                }
            }
        } else {
            let segs = split_segments(s);
            assert forall|i: int| 0 <= i < segs.len() implies !(#[trigger] segs[i]).contains('/') by {
                if i < prev.len() {
                    assert(segs[i] == prev[i]);
                } else {
                    assert(segs[i] =~= Seq::<char>::empty());
                }
            }
        }
    }
}

proof fn lemma_segments_components_wf(segs: Seq<Seq<char>>, root: bool)
    requires
        forall|i: int| 0 <= i < segs.len() ==> !(#[trigger] segs[i]).contains('/'),
    ensures
        components_wf(segments_components(segs, root)),
        segs.len() > 0 && root ==> segments_components(segs, root).len() > 0
            && segments_components(segs, root)[0] is RootDir,
        !root ==> forall|i: int| 0 <= i < segments_components(segs, root).len() ==> !(#[trigger] segments_components(segs, root)[i] is RootDir),
    decreases segs.len(),
{
    if segs.len() > 0 {
        let prev = segs.drop_last();
        lemma_segments_components_wf(prev, root);
        let a = segments_components(prev, root);
        let b = classify_segment(segs.last(), segs.len() == 1, root);
        let cs = segments_components(segs, root);
        assert(cs == a + b);
        assert(!segs[segs.len() - 1].contains('/'));
        if segs.len() == 1 {
            assert(prev.len() == 0);
            assert(a.len() == 0);
        }
        assert forall|i: int| 0 <= i < cs.len() && #[trigger] cs[i] is RootDir implies i == 0 by {
            if i >= a.len() {
                assert(cs[i] == b[i - a.len()]);
            } else {
                assert(cs[i] == a[i]);
            }
        }
        assert forall|i: int| 0 <= i < cs.len() implies (#[trigger] cs[i] matches Component::Normal(n)
            ==> valid_name(n)) by {
            if i >= a.len() {
                assert(cs[i] == b[i - a.len()]);
            } else {
                assert(cs[i] == a[i]);
            }
        }
        if !root {
            assert forall|i: int| 0 <= i < cs.len() implies !(#[trigger] cs[i] is RootDir) by {
                if i >= a.len() {
                    assert(cs[i] == b[i - a.len()]);
                } else {
                    assert(cs[i] == a[i]);
                }
            }
        }
    }
}

/// The components of any path text are well formed, and the root is among them exactly
/// when the text starts with `/`, and then it comes first.
pub proof fn lemma_components_wf(s: Seq<char>)
    ensures
        components_wf(components(s)),
        has_root(s) ==> components(s).len() > 0 && components(s)[0] is RootDir,
        !has_root(s) ==> forall|i: int| 0 <= i < components(s).len() ==> !(#[trigger] components(s)[i] is RootDir),
{
    lemma_segments_no_slash(s);
    lemma_segments_components_wf(split_segments(s), has_root(s));
}

/// Whether a component list starts at the root.
pub open spec fn rooted(cs: Seq<Component>) -> bool {
    cs.len() > 0 && cs[0] is RootDir
}

proof fn lemma_normalize_normal_form(cs: Seq<Component>)
    requires
        components_wf(cs),
    ensures
        normal_form(normalize_components(cs)),
        rooted(normalize_components(cs)) == rooted(cs),
    decreases cs.len(),
{
    if cs.len() > 0 {
        let prev = cs.drop_last();
        assert(components_wf(prev)) by {
            assert forall|i: int| 0 <= i < prev.len() && #[trigger] prev[i] is RootDir implies i == 0 by {
                assert(prev[i] == cs[i]);
            }
            assert forall|i: int| 0 <= i < prev.len() implies (#[trigger] prev[i] matches Component::Normal(
                n,
            ) ==> valid_name(n)) by {
                assert(prev[i] == cs[i]);
            }
        }
        lemma_normalize_normal_form(prev);
        let acc = normalize_components(prev);
        let c = cs.last();
        let r = normalize_components(cs);
        assert(r == normalize_step(acc, c));
        assert(cs[cs.len() - 1] == c);
        if prev.len() > 0 {
            assert(prev[0] == cs[0]);
        }
        match c {
            Component::CurDir => {},
            Component::ParentDir => {
                if acc.len() > 0 && acc.last() is Normal {
                    assert(r == acc.drop_last());
                    assert forall|i: int| 0 <= i < r.len() implies r[i] == acc[i] by {}
                } else if acc.len() > 0 && acc.last() is RootDir {
                } else {
                    let n = acc.len() as int;
                    assert(r == acc.push(Component::ParentDir));
                    assert forall|i: int| 0 <= i < r.len() implies r[i] == (if i < n {
                        acc[i]
                    } else {
                        Component::ParentDir
                    }) by {}
                    if acc.len() > 0 {
                        assert(acc[n - 1] is ParentDir);
                        assert forall|i: int| 0 <= i < n implies #[trigger] acc[i] is ParentDir by {
                            if i < n - 1 {
                                assert(acc[n - 1] is ParentDir);
                            }
                        }
                    }
                    assert forall|i: int, j: int| 0 <= i < j < r.len() && #[trigger] r[j] is ParentDir implies #[trigger] r[i] is ParentDir by {
                        if j < n {
                            assert(r[j] == acc[j] && r[i] == acc[i]);
                        } else {
                            assert(r[i] == acc[i]);
                        }
                    }
                    assert forall|i: int| 0 <= i < r.len() && #[trigger] r[i] is RootDir implies i == 0 by {
                        if i < n {
                            assert(r[i] == acc[i]);
                        }
                    }
                    assert forall|i: int| 0 <= i < r.len() implies (#[trigger] r[i] matches Component::Normal(
                        nm,
                    ) ==> valid_name(nm)) by {
                        if i < n {
                            assert(r[i] == acc[i]);
                        }
                    }
                    assert forall|i: int| 0 <= i < r.len() implies !(#[trigger] r[i] is CurDir) by {
                        if i < n {
                            assert(r[i] == acc[i]);
                        }
                    }
                }
            },
            _ => {
                let n = acc.len() as int;
                assert(r == acc.push(c));
                assert forall|i: int| 0 <= i < r.len() implies r[i] == (if i < n {
                    acc[i]
                } else {
                    c
                }) by {}
                if c is RootDir {
                    assert(cs.len() - 1 == 0);
                    assert(prev.len() == 0);
                    assert(acc.len() == 0);
                }
                assert forall|i: int, j: int| 0 <= i < j < r.len() && #[trigger] r[j] is ParentDir implies #[trigger] r[i] is ParentDir by {
                    assert(r[j] == acc[j] && r[i] == acc[i]);
                }
                assert forall|i: int| 0 <= i < r.len() && #[trigger] r[i] is RootDir implies i == 0 by {
                    if i < n {
                        assert(r[i] == acc[i]);
                    }
                }
                assert forall|i: int| 0 <= i < r.len() implies (#[trigger] r[i] matches Component::Normal(
                    nm,
                ) ==> valid_name(nm)) by {
                    if i < n {
                        assert(r[i] == acc[i]);
                    }
                }
                assert forall|i: int| 0 <= i < r.len() implies !(#[trigger] r[i] is CurDir) by {
                    if i < n {
                        assert(r[i] == acc[i]);
                    }
                }
            },
        }
    }
}


proof fn lemma_normal_form_prefix(cs: Seq<Component>)
    requires
        normal_form(cs),
        cs.len() > 0,
    ensures
        normal_form(cs.drop_last()),
{
    let p = cs.drop_last();
    assert forall|i: int| 0 <= i < p.len() implies p[i] == cs[i] by {}
    assert forall|i: int| 0 <= i < p.len() && #[trigger] p[i] is RootDir implies i == 0 by {
        assert(p[i] == cs[i]);
    }
    assert forall|i: int| 0 <= i < p.len() implies (#[trigger] p[i] matches Component::Normal(n)
        ==> valid_name(n)) by {
        assert(p[i] == cs[i]);
    }
    assert forall|i: int| 0 <= i < p.len() implies !(#[trigger] p[i] is CurDir) by {
        assert(p[i] == cs[i]);
    }
    assert forall|i: int, j: int| 0 <= i < j < p.len() && #[trigger] p[j] is ParentDir implies #[trigger] p[i] is ParentDir by {
        assert(p[i] == cs[i] && p[j] == cs[j]);
    }
}

/// Normalizing a list that is already in normal form changes nothing.
proof fn lemma_normalize_fixed(cs: Seq<Component>)
    requires
        normal_form(cs),
    ensures
        normalize_components(cs) == cs,
    decreases cs.len(),
{
    if cs.len() > 0 {
        let prev = cs.drop_last();
        lemma_normal_form_prefix(cs);
        lemma_normalize_fixed(prev);
        let c = cs.last();
        let n = prev.len() as int;
        assert(cs[n] == c);
        match c {
            Component::CurDir => {
                assert(!(cs[n] is CurDir));
            },
            Component::ParentDir => {
                if n > 0 {
                    assert(cs[n - 1] is ParentDir);
                    assert(prev.last() == cs[n - 1]);
                }
                assert(prev.push(c) =~= cs);
            },
            Component::RootDir => {
                assert(n == 0);
                assert(prev.push(c) =~= cs);
            },
            Component::Normal(_) => {
                assert(prev.push(c) =~= cs);
            },
        }
    }
}

/// Appending text without `/` extends the last segment.
proof fn lemma_split_append_plain(a: Seq<char>, t: Seq<char>)
    requires
        !t.contains('/'),
    ensures
        split_segments(a + t) == split_segments(a).update(
            split_segments(a).len() - 1,
            split_segments(a).last() + t,
        ),
    decreases t.len(),
{
    lemma_segments_no_slash(a);
    let sa = split_segments(a);
    if t.len() == 0 {
        assert(a + t =~= a);
        assert(sa.last() + t =~= sa.last());
        assert(sa.update(sa.len() - 1, sa.last()) =~= sa);
    } else {
        let t2 = t.drop_last();
        assert(!t2.contains('/')) by {
            if t2.contains('/') {
                let k = choose|k: int| 0 <= k < t2.len() && t2[k] == '/';
                assert(t[k] == '/');
            }
        }
        lemma_split_append_plain(a, t2);
        assert((a + t).drop_last() =~= a + t2);
        assert((a + t).last() == t.last());
        assert(t.last() != '/') by {
            assert(t[t.len() - 1] == t.last());
        }
        let prev = split_segments(a + t2);
        assert(prev.last() + seq![t.last()] =~= (sa.last() + t2).push(t.last()));
        assert((sa.last() + t2).push(t.last()) =~= sa.last() + t);
        assert(prev.update(prev.len() - 1, prev.last().push(t.last())) =~= sa.update(
            sa.len() - 1,
            sa.last() + t,
        ));
    }
}

/// The text of a component list in normal form parses back to the same list.
proof fn lemma_components_render(cs: Seq<Component>)
    requires
        normal_form(cs),
        cs.len() > 0,
    ensures
        components(render_components(cs)) == cs,
        render_components(cs).len() > 0,
        (render_components(cs).last() == '/') <==> cs =~= seq![Component::RootDir],
    decreases cs.len(),
{
    let texts = cs.map_values(|c: Component| component_text(c));
    let r = render_components(cs);
    assert(r == collect_path(texts));
    let c = cs.last();
    let n = cs.len() - 1;
    assert(cs[n] == c);
    let t = component_text(c);
    assert(texts.last() == t);
    let prev = cs.drop_last();
    assert(texts.drop_last() =~= prev.map_values(|c: Component| component_text(c)));
    assert(r == push_path(collect_path(texts.drop_last()), t));
    if !(c is RootDir) {
        assert(t.len() > 0 && !t.contains('/') && t.last() != '/') by {
            match c {
                Component::Normal(nm) => {
                    assert(valid_name(nm));
                    assert(t[t.len() - 1] == t.last());
                },
                Component::ParentDir => {},
                _ => {
                    assert(!(cs[n] is CurDir));
                },
            }
        }
        assert(!has_root(t)) by {
            assert(t[0] != '/') by {
                if t[0] == '/' {
                    assert(t.contains('/'));
                }
            }
        }
    }
    if n == 0 {
        assert(texts.drop_last() =~= Seq::<Seq<char>>::empty());
        assert(collect_path(texts.drop_last()) == Seq::<char>::empty());
        if c is RootDir {
            assert(r == seq!['/']);
            assert(cs =~= seq![Component::RootDir]);
            let e = Seq::<char>::empty();
            assert(seq!['/'].drop_last() =~= e);
            assert(split_segments(e) == seq![e]);
            assert(split_segments(r) == seq![e].push(e));
            assert(has_root(r));
            let segs = split_segments(r);
            assert(segs.drop_last() =~= seq![e]);
            assert(seq![e].drop_last() =~= Seq::<Seq<char>>::empty());
            assert(seq![e].last() == e);
            assert(segs.last() == e);
            let one = seq![e];
            let none = Seq::<Seq<char>>::empty();
            assert(one.drop_last() == none);
            assert(segments_components(none, true) == Seq::<Component>::empty());
            assert(classify_segment(one.last(), one.len() == 1, true) == seq![Component::RootDir]);
            assert(segments_components(one, true) =~= seq![Component::RootDir]);
            assert(classify_segment(e, false, true) =~= Seq::<Component>::empty());
            assert(segments_components(segs, true) =~= seq![Component::RootDir]);
            assert(components(r) =~= cs);
        } else {
            assert(r =~= t);
            let e = Seq::<char>::empty();
            lemma_split_append_plain(e, t);
            assert(e + t =~= t);
            assert(split_segments(e) == seq![e]);
            assert(split_segments(t) =~= seq![t]);
            assert(seq![t].drop_last() =~= Seq::<Seq<char>>::empty());
            assert(seq![t].last() == t);
            assert(!has_root(t));
            assert(t != seq!['.']) by {
                match c {
                    Component::Normal(nm) => {
                        assert(valid_name(nm));
                    },
                    _ => {},
                }
            }
            assert(classify_segment(t, true, false) =~= seq![c]) by {
                match c {
                    Component::Normal(nm) => {
                        assert(valid_name(nm));
                    },
                    _ => {},
                }
            }
            let one = seq![t];
            let none = Seq::<Seq<char>>::empty();
            assert(one.drop_last() == none);
            assert(segments_components(none, false) == Seq::<Component>::empty());
            assert(classify_segment(one.last(), one.len() == 1, false) == seq![c]);
            assert(segments_components(one, false) =~= seq![c]);
            assert(components(r) =~= cs);
            assert(!(cs =~= seq![Component::RootDir])) by {
                assert(cs[0] == c);
            }
        }
    } else {
        lemma_normal_form_prefix(cs);
        lemma_components_render(prev);
        let b = render_components(prev);
        assert(b == collect_path(texts.drop_last()));
        assert(!(c is RootDir)) by {
            if c is RootDir {
                assert(n == 0);
            }
        }
        assert(prev[0] == cs[0]);
        let root = has_root(b);
        let sb = split_segments(b);
        lemma_segments_no_slash(b);
        if prev =~= seq![Component::RootDir] {
            // `/` followed by a name
            assert(r == b + t);
            lemma_split_append_plain(b, t);
            assert(b.last() == '/');
            assert(b.len() > 0);
            assert(b.drop_last() + seq!['/'] =~= b);
            assert(sb == split_segments(b.drop_last()).push(Seq::<char>::empty()));
            assert(sb.last() + t =~= t);
            let segs = sb.update(sb.len() - 1, t);
            assert(segs =~= sb.drop_last().push(t));
            assert(split_segments(r) == segs);
            assert(has_root(r) == root) by {
                assert(r[0] == b[0]);
            }
            assert(segs.drop_last() =~= sb.drop_last());
            assert(segments_components(sb, root) == segments_components(sb.drop_last(), root) + classify_segment(Seq::<char>::empty(), sb.len() == 1, root));
            assert(sb.len() >= 2);
            assert(segments_components(sb, root) == segments_components(sb.drop_last(), root));
            assert(classify_segment(t, false, root) == seq![c]) by {
                match c {
                    Component::Normal(nm) => {
                        assert(valid_name(nm));
                    },
                    Component::ParentDir => {
                        assert(cs[1] is ParentDir);
                        assert(cs[0] is ParentDir);
                    },
                    _ => {},
                }
            }
            assert(components(r) =~= cs);
            assert(r.last() == t.last());
            assert(!(cs =~= seq![Component::RootDir])) by {
                assert(cs.len() == 2);
            }
        } else {
            // a separator goes between
            assert(b.last() != '/');
            assert(r == b + seq!['/'] + t);
            let bs = b + seq!['/'];
            assert(bs.drop_last() =~= b);
            assert(bs.last() == '/');
            assert(split_segments(bs) == sb.push(Seq::<char>::empty()));
            lemma_split_append_plain(bs, t);
            let sbs = split_segments(bs);
            assert(sbs.last() + t =~= t);
            let segs = sbs.update(sbs.len() - 1, t);
            assert(segs =~= sb.push(t));
            assert(split_segments(r) == segs);
            assert(has_root(r) == root) by {
                assert(r[0] == b[0]);
            }
            assert(segs.drop_last() =~= sb);
            assert(sb.len() >= 1);
            assert(classify_segment(t, false, root) == seq![c]) by {
                match c {
                    Component::Normal(nm) => {
                        assert(valid_name(nm));
                    },
                    _ => {},
                }
            }
            assert(components(r) =~= cs);
            assert(r.last() == t.last());
            assert(!(cs =~= seq![Component::RootDir])) by {
                assert(cs.len() >= 2);
            }
        }
    }
}


/// The components of `.`: just the current directory.
proof fn lemma_components_dot()
    ensures
        components(seq!['.']) =~= seq![Component::CurDir],
        normalize_components(components(seq!['.'])) =~= Seq::<Component>::empty(),
{
    let d = seq!['.'];
    let e = Seq::<char>::empty();
    lemma_split_append_plain(e, d);
    assert(e + d =~= d);
    assert(split_segments(e) == seq![e]);
    assert(split_segments(d) =~= seq![d]);
    let one = seq![d];
    let none = Seq::<Seq<char>>::empty();
    assert(one.drop_last() == none);
    assert(segments_components(none, false) == Seq::<Component>::empty());
    assert(classify_segment(one.last(), true, false) == seq![Component::CurDir]);
    assert(segments_components(one, false) =~= seq![Component::CurDir]);
    assert(!has_root(d));
    let cs = seq![Component::CurDir];
    assert(cs.drop_last() =~= Seq::<Component>::empty());
    assert(normalize_components(Seq::<Component>::empty()) == Seq::<Component>::empty());
}

/// The normalized component list of `s`, and that it is in normal form.
proof fn lemma_normalized(s: Seq<char>)
    ensures
        normal_form(normalize_components(components(s))),
        rooted(normalize_components(components(s))) == has_root(s),
{
    lemma_components_wf(s);
    lemma_normalize_normal_form(components(s));
    if has_root(s) {
        assert(rooted(components(s)));
    } else {
        if rooted(components(s)) {
            assert(components(s)[0] is RootDir);
        }
    }
}

/// Normalizing twice gives what normalizing once gives.
pub proof fn lemma_normalize_idempotent(s: Seq<char>)
    ensures
        spec_normalize(spec_normalize(s)) == spec_normalize(s),
{
    let cs = normalize_components(components(s));
    lemma_normalized(s);
    if cs.len() == 0 {
        assert(spec_normalize(s) == seq!['.']);
        lemma_components_dot();
    } else {
        lemma_components_render(cs);
        lemma_normalize_fixed(cs);
    }
}

/// A normalized path is `.`, or its components hold no `.`, no `..` after the root or a
/// normal component, and only valid names.
pub proof fn lemma_normalize_resolves_dots(s: Seq<char>)
    ensures
        spec_normalize(s) == seq!['.'] || normal_form(components(spec_normalize(s))),
{
    let cs = normalize_components(components(s));
    lemma_normalized(s);
    if cs.len() > 0 {
        lemma_components_render(cs);
    }
}

/// Normalization keeps a path absolute or relative.
pub proof fn lemma_normalize_keeps_root(s: Seq<char>)
    ensures
        has_root(spec_normalize(s)) == has_root(s),
{
    let cs = normalize_components(components(s));
    lemma_normalized(s);
    if cs.len() > 0 {
        let r = render_components(cs);
        lemma_components_render(cs);
        lemma_components_wf(r);
        if !has_root(r) && rooted(cs) {
            assert(components(r)[0] is RootDir);
        }
    }
}

proof fn lemma_common_prefix_self(a: Seq<Component>)
    ensures
        common_prefix_len(a, a) == a.len(),
    decreases a.len(),
{
    if a.len() > 0 {
        lemma_common_prefix_self(a.drop_first());
    }
}

/// The relative path from a path to itself is `.`.
pub proof fn lemma_relative_to_self(p: Seq<char>)
    ensures
        spec_relative_to(p, p) == Some(seq!['.']),
{
    let n = spec_normalize(p);
    let nt = normalize_components(components(p));
    lemma_target_components(p);
    lemma_compared_components(p);
    let tc = components(n);
    let bc = drop_cur_dir(components(n));
    if nt.len() == 0 {
        assert(bc.len() == 0);
        assert(common_prefix_len(tc, bc) == 0);
        let pieces = Seq::new(0, |i: int| seq!['.', '.']) + tc.skip(0).map_values(
            |c: Component| component_text(c),
        );
        assert(pieces =~= seq![seq!['.']]);
        assert(pieces.drop_last() =~= Seq::<Seq<char>>::empty());
        assert(collect_path(Seq::<Seq<char>>::empty()) == Seq::<char>::empty());
        assert(pieces.last() == seq!['.']);
        assert(collect_path(pieces) == push_path(Seq::<char>::empty(), seq!['.']));
        assert(!has_root(seq!['.']));
        assert(Seq::<char>::empty() + seq!['.'] =~= seq!['.']);
        assert(bc.skip(0) =~= bc);
    } else {
        assert(tc == bc);
        lemma_common_prefix_self(tc);
        let pieces = Seq::new(0, |i: int| seq!['.', '.']) + tc.skip(tc.len() as int).map_values(
            |c: Component| component_text(c),
        );
        assert(pieces =~= Seq::<Seq<char>>::empty());
        assert(collect_path(pieces) == Seq::<char>::empty());
        assert(bc.skip(tc.len() as int) =~= Seq::<Component>::empty());
    }
}

/// Splitting a concatenation: the last segment of `a` and the first of `t` merge.
proof fn lemma_split_concat(a: Seq<char>, t: Seq<char>)
    ensures
        split_segments(a + t) == split_segments(a).drop_last() + seq![
            split_segments(a).last() + split_segments(t)[0],
        ] + split_segments(t).drop_first(),
    decreases t.len(),
{
    lemma_segments_no_slash(a);
    lemma_segments_no_slash(t);
    let sa = split_segments(a);
    let st = split_segments(t);
    if t.len() == 0 {
        assert(a + t =~= a);
        assert(st == seq![Seq::<char>::empty()]);
        assert(sa.last() + st[0] =~= sa.last());
        assert(st.drop_first() =~= Seq::<Seq<char>>::empty());
        assert(sa.drop_last() + seq![sa.last()] + st.drop_first() =~= sa);
    } else {
        let t2 = t.drop_last();
        let c = t.last();
        lemma_split_concat(a, t2);
        lemma_segments_no_slash(t2);
        let s2 = split_segments(t2);
        assert((a + t).drop_last() =~= a + t2);
        assert((a + t).last() == c);
        let p = split_segments(a + t2);
        assert(p == sa.drop_last() + seq![sa.last() + s2[0]] + s2.drop_first());
        if c == '/' {
            assert(st == s2.push(Seq::<char>::empty()));
            assert(st[0] == s2[0]);
            assert(st.drop_first() =~= s2.drop_first().push(Seq::<char>::empty()));
            assert(split_segments(a + t) == p.push(Seq::<char>::empty()));
            assert(p.push(Seq::<char>::empty()) =~= sa.drop_last() + seq![sa.last() + st[0]]
                + st.drop_first());
        } else {
            assert(st == s2.update(s2.len() - 1, s2.last().push(c)));
            assert(split_segments(a + t) == p.update(p.len() - 1, p.last().push(c)));
            if s2.len() == 1 {
                assert(st[0] == s2[0].push(c));
                assert(st.drop_first() =~= Seq::<Seq<char>>::empty());
                assert(s2.drop_first() =~= Seq::<Seq<char>>::empty());
                assert((sa.last() + s2[0]).push(c) =~= sa.last() + st[0]);
                assert(p.update(p.len() - 1, p.last().push(c)) =~= sa.drop_last() + seq![
                    sa.last() + st[0],
                ] + st.drop_first());
            } else {
                assert(st[0] == s2[0]);
                assert(st.drop_first() =~= s2.drop_first().update(
                    s2.drop_first().len() - 1,
                    s2.drop_first().last().push(c),
                ));
                assert(p.update(p.len() - 1, p.last().push(c)) =~= sa.drop_last() + seq![
                    sa.last() + st[0],
                ] + st.drop_first());
            }
        }
    }
}


/// The components of segments that follow at least one other segment: those of the
/// segments on their own, less a leading current directory.
proof fn lemma_segments_components_concat(x: Seq<Seq<char>>, y: Seq<Seq<char>>, root: bool)
    requires
        x.len() >= 1,
    ensures
        segments_components(x + y, root) == segments_components(x, root) + drop_cur_dir(
            segments_components(y, false),
        ),
    decreases y.len(),
{
    if y.len() == 0 {
        assert(x + y =~= x);
        assert(segments_components(y, false) == Seq::<Component>::empty());
        assert(segments_components(x, root) + Seq::<Component>::empty() =~= segments_components(
            x,
            root,
        ));
    } else {
        let y2 = y.drop_last();
        let seg = y.last();
        lemma_segments_components_concat(x, y2, root);
        assert((x + y).drop_last() =~= x + y2);
        assert((x + y).last() == seg);
        assert((x + y).len() != 1);
        let a = segments_components(y2, false);
        let add = classify_segment(seg, false, root);
        assert(segments_components(x + y, root) == segments_components(x + y2, root) + add);
        assert(segments_components(y, false) == a + classify_segment(seg, y.len() == 1, false));
        if y2.len() == 0 {
            assert(a == Seq::<Component>::empty());
            assert(a + classify_segment(seg, true, false) =~= classify_segment(seg, true, false));
            assert(drop_cur_dir(a) =~= Seq::<Component>::empty());
            if seg == seq!['.'] {
                assert(drop_cur_dir(classify_segment(seg, true, false)) =~= Seq::<Component>::empty());
                assert(add =~= Seq::<Component>::empty());
            } else {
                assert(drop_cur_dir(classify_segment(seg, true, false)) =~= add);
            }
        } else {
            assert(classify_segment(seg, false, false) == add);
            assert(add.len() == 0 || !(add[0] is CurDir));
            if a.len() > 0 && a[0] is CurDir {
                assert(drop_cur_dir(a + add) =~= drop_cur_dir(a) + add);
            } else if a.len() > 0 {
                assert(drop_cur_dir(a + add) =~= drop_cur_dir(a) + add);
            } else {
                assert(a + add =~= add);
                assert(drop_cur_dir(a + add) =~= drop_cur_dir(a) + add);
            }
        }
        assert(segments_components(x + y, root) =~= segments_components(x, root) + drop_cur_dir(
            segments_components(y, false),
        ));
    }
}


/// The components of a relative path pushed onto a non-empty one follow the components
/// of the latter, less a leading current directory.
proof fn lemma_components_push(b: Seq<char>, r: Seq<char>)
    requires
        b.len() > 0,
        r.len() > 0,
        !has_root(r),
    ensures
        components(push_path(b, r)) == components(b) + drop_cur_dir(components(r)),
{
    let root = has_root(b);
    let sb = split_segments(b);
    let sr = split_segments(r);
    lemma_segments_no_slash(b);
    lemma_segments_no_slash(r);
    let e = Seq::<char>::empty();
    if b.last() != '/' {
        let bs = b + seq!['/'];
        let j = push_path(b, r);
        assert(j == bs + r);
        assert(bs.drop_last() =~= b);
        assert(bs.last() == '/');
        assert(split_segments(bs) == sb.push(e));
        lemma_split_concat(bs, r);
        assert(sb.push(e).drop_last() =~= sb);
        assert(sb.push(e).last() == e);
        assert(e + sr[0] =~= sr[0]);
        assert(seq![sr[0]] + sr.drop_first() =~= sr);
        assert(split_segments(j) =~= sb + sr);
        lemma_segments_components_concat(sb, sr, root);
        assert(has_root(j) == root) by {
            assert(j[0] == b[0]);
        }
    } else {
        let j = push_path(b, r);
        assert(j == b + r);
        lemma_split_concat(b, r);
        assert(b.drop_last() + seq!['/'] =~= b);
        let x = split_segments(b.drop_last());
        lemma_segments_no_slash(b.drop_last());
        assert(sb == x.push(e));
        assert(sb.drop_last() =~= x);
        assert(sb.last() + sr[0] =~= sr[0]);
        assert(seq![sr[0]] + sr.drop_first() =~= sr);
        assert(split_segments(j) =~= x + sr);
        lemma_segments_components_concat(x, sr, root);
        assert(segments_components(sb, root) == segments_components(x, root) + classify_segment(
            e,
            false,
            root,
        ));
        assert(segments_components(sb, root) =~= segments_components(x, root));
        assert(has_root(j) == root) by {
            assert(j[0] == b[0]);
        }
    }
}


/// Normalization continued from the list `acc`.
pub open spec fn normalize_from(acc: Seq<Component>, cs: Seq<Component>) -> Seq<Component>
    decreases cs.len(),
{
    if cs.len() == 0 {
        acc
    } else {
        normalize_step(normalize_from(acc, cs.drop_last()), cs.last())
    }
}

proof fn lemma_normalize_from_empty(cs: Seq<Component>)
    ensures
        normalize_components(cs) == normalize_from(Seq::<Component>::empty(), cs),
    decreases cs.len(),
{
    if cs.len() > 0 {
        lemma_normalize_from_empty(cs.drop_last());
    }
}

proof fn lemma_normalize_from_concat(acc: Seq<Component>, x: Seq<Component>, y: Seq<Component>)
    ensures
        normalize_from(acc, x + y) == normalize_from(normalize_from(acc, x), y),
    decreases y.len(),
{
    if y.len() == 0 {
        assert(x + y =~= x);
    } else {
        lemma_normalize_from_concat(acc, x, y.drop_last());
        assert((x + y).drop_last() =~= x + y.drop_last());
        assert((x + y).last() == y.last());
    }
}

/// `n` parent-directory components.
pub open spec fn parents(n: nat) -> Seq<Component> {
    Seq::new(n, |i: int| Component::ParentDir)
}

/// Each `..` removes one trailing normal component.
proof fn lemma_normalize_parents(acc: Seq<Component>, n: nat)
    requires
        n <= acc.len(),
        forall|i: int| acc.len() - n <= i < acc.len() ==> #[trigger] acc[i] is Normal,
    ensures
        normalize_from(acc, parents(n)) == acc.take(acc.len() - n),
    decreases n,
{
    if n == 0 {
        assert(parents(0) =~= Seq::<Component>::empty());
        assert(acc.take(acc.len() as int) =~= acc);
    } else {
        let m = (n - 1) as nat;
        lemma_normalize_parents(acc, m);
        assert(parents(n).drop_last() =~= parents(m));
        assert(parents(n).last() is ParentDir);
        let mid = acc.take(acc.len() - m);
        assert(mid.last() == acc[acc.len() - n]);
        assert(mid.drop_last() =~= acc.take(acc.len() - n));
    }
}


proof fn lemma_common_prefix_facts(a: Seq<Component>, b: Seq<Component>)
    ensures
        common_prefix_len(a, b) <= a.len(),
        common_prefix_len(a, b) <= b.len(),
        a.take(common_prefix_len(a, b) as int) == b.take(common_prefix_len(a, b) as int),
        a.len() > 0 && b.len() > 0 && a[0] == b[0] ==> common_prefix_len(a, b) >= 1,
        common_prefix_len(a, b) < a.len() && common_prefix_len(a, b) < b.len() ==> a[common_prefix_len(a, b) as int]
            != b[common_prefix_len(a, b) as int],
    decreases a.len(),
{
    let k = common_prefix_len(a, b);
    if a.len() > 0 && b.len() > 0 && a[0] == b[0] {
        lemma_common_prefix_facts(a.drop_first(), b.drop_first());
        let k2 = common_prefix_len(a.drop_first(), b.drop_first());
        assert(a.drop_first().take(k2 as int) == b.drop_first().take(k2 as int));
        assert forall|i: int| 0 <= i < k implies a.take(k as int)[i] == b.take(k as int)[i] by {
            if i > 0 {
                assert(a.take(k as int)[i] == a.drop_first().take(k2 as int)[i - 1]);
                assert(b.take(k as int)[i] == b.drop_first().take(k2 as int)[i - 1]);
            }
        }
        assert(a.take(k as int) =~= b.take(k as int));
        if k < a.len() && k < b.len() {
            assert(a[k as int] == a.drop_first()[k2 as int]);
            assert(b[k as int] == b.drop_first()[k2 as int]);
        }
    } else {
        assert(a.take(0) =~= b.take(0));
    }
}

proof fn lemma_normal_form_take(cs: Seq<Component>, k: int)
    requires
        normal_form(cs),
        0 <= k <= cs.len(),
    ensures
        normal_form(cs.take(k)),
{
    let p = cs.take(k);
    assert forall|i: int| 0 <= i < p.len() && #[trigger] p[i] is RootDir implies i == 0 by {
        assert(p[i] == cs[i]);
    }
    assert forall|i: int| 0 <= i < p.len() implies (#[trigger] p[i] matches Component::Normal(n)
        ==> valid_name(n)) by {
        assert(p[i] == cs[i]);
    }
    assert forall|i: int| 0 <= i < p.len() implies !(#[trigger] p[i] is CurDir) by {
        assert(p[i] == cs[i]);
    }
    assert forall|i: int, j: int| 0 <= i < j < p.len() && #[trigger] p[j] is ParentDir implies #[trigger] p[i] is ParentDir by {
        assert(p[i] == cs[i] && p[j] == cs[j]);
    }
}

proof fn lemma_components_empty()
    ensures
        components(Seq::<char>::empty()) == Seq::<Component>::empty(),
{
    let e = Seq::<char>::empty();
    let one = seq![e];
    assert(split_segments(e) == one);
    assert(one.drop_last() =~= Seq::<Seq<char>>::empty());
    assert(segments_components(Seq::<Seq<char>>::empty(), false) == Seq::<Component>::empty());
    assert(one.last() == e);
    assert(classify_segment(e, true, false) =~= Seq::<Component>::empty());
    assert(segments_components(one, false) =~= Seq::<Component>::empty());
}

/// The components that `relative_to` compares for a path: those of its normalized text,
/// none for `.`; they are its normalized component list.
proof fn lemma_compared_components(s: Seq<char>)
    ensures
        drop_cur_dir(components(spec_normalize(s))) == normalize_components(components(s)),
{
    let n = normalize_components(components(s));
    lemma_normalized(s);
    if n.len() > 0 {
        lemma_components_render(n);
        assert(!(n[0] is CurDir));
    } else {
        lemma_components_dot();
        assert(seq![Component::CurDir].drop_first() =~= Seq::<Component>::empty());
    }
}

/// The components of a normalized target: its normalized component list, or the single
/// current directory when it normalizes to `.`.
proof fn lemma_target_components(s: Seq<char>)
    ensures
        normalize_components(components(s)).len() > 0 ==> components(spec_normalize(s))
            == normalize_components(components(s)),
        normalize_components(components(s)).len() == 0 ==> spec_normalize(s) == seq!['.']
            && components(spec_normalize(s)) == seq![Component::CurDir],
{
    let n = normalize_components(components(s));
    lemma_normalized(s);
    if n.len() > 0 {
        lemma_components_render(n);
    } else {
        lemma_components_dot();
    }
}

/// When a relative path is refused: always when exactly one path is absolute, never for
/// two absolute paths, and never for two relative paths whose base holds no `..` once
/// normalized.
pub proof fn lemma_relative_to_none(target: Seq<char>, base: Seq<char>)
    ensures
        has_root(target) != has_root(base) ==> spec_relative_to(target, base) is None,
        has_root(target) && has_root(base) ==> spec_relative_to(target, base) is Some,
        !has_root(target) && !has_root(base) && !components(spec_normalize(base)).contains(
            Component::ParentDir,
        ) ==> spec_relative_to(target, base) is Some,
{
    lemma_normalize_keeps_root(target);
    lemma_normalize_keeps_root(base);
    lemma_compared_components(target);
    lemma_compared_components(base);
    lemma_normalized(base);
    let nb = normalize_components(components(base));
    let nt = normalize_components(components(target));
    let tc = components(spec_normalize(target));
    let k = common_prefix_len(tc, nb);
    lemma_common_prefix_facts(tc, nb);
    if has_root(base) {
        assert forall|i: int| 0 <= i < nb.len() implies nb[i] != Component::ParentDir by {
            if nb[i] is ParentDir && i > 0 {
                assert(nb[0] is ParentDir);
            }
        }
    }
    if has_root(target) == has_root(base) && nb.skip(k as int).contains(Component::ParentDir) {
        let j = choose|j: int| 0 <= j < nb.skip(k as int).len() && nb.skip(k as int)[j]
            == Component::ParentDir;
        assert(nb[j + k] == Component::ParentDir);
        if !has_root(base) {
            lemma_normalized(base);
            assert(components(spec_normalize(base)).contains(Component::ParentDir)) by {
                if nb.len() > 0 {
                    lemma_components_render(nb);
                    assert(components(spec_normalize(base))[j + k] == Component::ParentDir);
                }
            }
        }
    }
}

/// Joining `base` with the relative path from `base` to `target`, when there is one,
/// leads to `target`, up to normalization.
pub proof fn lemma_relative_to_join(target: Seq<char>, base: Seq<char>)
    requires
        spec_relative_to(target, base) is Some,
    ensures
        spec_normalize(spec_join(base, spec_relative_to(target, base)->0)) == spec_normalize(
            target,
        ),
{
    if normalize_components(components(target)).len() == 0 {
        lemma_relative_to_join_dot(target, base);
    } else {
        lemma_relative_to_join_named(target, base);
    }
}

/// The relative path is the shortest one: with `k` the length of the longest common
/// prefix of the normalized components of `target` and `base` (they agree on the first
/// `k` and differ right after, unless one ends there), the result normalizes to exactly
/// one `..` for each normalized component of `base` past those `k`, followed by the
/// normalized components of `target` past them; it never climbs out of a shared
/// component.
pub proof fn lemma_relative_to_minimal(target: Seq<char>, base: Seq<char>)
    requires
        spec_relative_to(target, base) is Some,
    ensures
        ({
            let nt = normalize_components(components(target));
            let nb = normalize_components(components(base));
            let r = spec_relative_to(target, base)->0;
            exists|k: int|
                #![trigger nt.skip(k)]
                {
                    &&& 0 <= k <= nt.len()
                    &&& k <= nb.len()
                    &&& nt.take(k) == nb.take(k)
                    &&& (k < nt.len() && k < nb.len() ==> nt[k] != nb[k])
                    &&& normalize_components(components(r)) == parents((nb.len() - k) as nat)
                        + nt.skip(k)
                }
        }),
{
    let nt = normalize_components(components(target));
    let nb = normalize_components(components(base));
    lemma_common_prefix_facts(nt, nb);
    if nt.len() == 0 {
        lemma_relative_to_join_dot(target, base);
    } else {
        lemma_relative_to_join_named(target, base);
    }
    let k = common_prefix_len(nt, nb) as int;
    assert(nt.skip(k) == nt.skip(k));
}

/// The components that the relative path from `base` to `target` normalizes to: one
/// `..` for each normalized component of `base` past the longest common prefix, then the
/// rest of the normalized components of `target`.
spec fn expected_relative(target: Seq<char>, base: Seq<char>) -> Seq<Component> {
    let nt = normalize_components(components(target));
    let nb = normalize_components(components(base));
    let k = common_prefix_len(nt, nb);
    parents((nb.len() - k) as nat) + nt.skip(k as int)
}

/// The round trip for a target that normalizes to `.`: the relative path climbs out of
/// every component of the base and ends in `.`.
proof fn lemma_relative_to_join_dot(target: Seq<char>, base: Seq<char>)
    requires
        spec_relative_to(target, base) is Some,
        normalize_components(components(target)).len() == 0,
    ensures
        spec_normalize(spec_join(base, spec_relative_to(target, base)->0)) == spec_normalize(
            target,
        ),
        normalize_components(components(spec_relative_to(target, base)->0)) == expected_relative(
            target,
            base,
        ),
{
    let nb = normalize_components(components(base));
    lemma_normalized(base);
    lemma_normalized(target);
    lemma_normalize_keeps_root(target);
    lemma_normalize_keeps_root(base);
    lemma_target_components(target);
    lemma_compared_components(base);
    lemma_components_dot();
    let dot = seq!['.'];
    let tc = components(spec_normalize(target));
    assert(tc == seq![Component::CurDir]);
    assert(common_prefix_len(tc, nb) == 0) by {
        if nb.len() > 0 {
            assert(!(nb[0] is CurDir));
        }
    }
    assert(nb.skip(0) =~= nb);
    let u = nb.len();
    assert(!has_root(base));
    assert forall|i: int| 0 <= i < nb.len() implies #[trigger] nb[i] is Normal by {
        assert(!(nb[i] is CurDir));
        if nb[i] is RootDir {
            assert(i == 0);
            assert(rooted(nb));
        }
        if nb[i] is ParentDir {
            assert(nb.skip(0)[i] == nb[i]);
        }
    }
    let ups = Seq::new(u, |i: int| seq!['.', '.']);
    let pieces = ups + tc.skip(0).map_values(|c: Component| component_text(c));
    assert(pieces =~= ups.push(dot));
    assert(ups =~= parents(u).map_values(|c: Component| component_text(c)));
    assert(pieces.drop_last() =~= ups);
    assert(pieces.last() == dot);
    let r0 = collect_path(ups);
    let rel = push_path(r0, dot);
    assert(collect_path(pieces) == rel);
    assert(!has_root(dot));
    lemma_normalize_from_empty(components(base));
    if u == 0 {
        assert(ups =~= Seq::<Seq<char>>::empty());
        assert(r0 == Seq::<char>::empty());
        assert(Seq::<char>::empty() + dot =~= dot);
        assert(rel == dot);
        assert(spec_relative_to(target, base) == Some(dot));
        assert(expected_relative(target, base) =~= Seq::<Component>::empty());
        if base.len() == 0 {
            assert(spec_join(base, dot) == dot);
        } else {
            lemma_components_push(base, dot);
            assert(drop_cur_dir(components(dot)) =~= Seq::<Component>::empty());
            assert(components(base) + Seq::<Component>::empty() =~= components(base));
            assert(nb.len() == 0);
        }
    } else {
        let ps = parents(u);
        assert(normal_form(ps)) by {
            assert forall|i: int| 0 <= i < ps.len() implies ps[i] == Component::ParentDir by {}
        }
        lemma_components_render(ps);
        assert(r0 == render_components(ps));
        assert(r0.last() != '/') by {
            if r0.last() == '/' {
                assert(ps =~= seq![Component::RootDir]);
                assert(ps[0] is ParentDir);
            }
        }
        assert(rel == r0 + seq!['/'] + dot);
        assert(rel.len() > 0);
        assert(!has_root(rel)) by {
            lemma_components_wf(r0);
            if has_root(rel) {
                assert(rel[0] == r0[0]);
                assert(components(r0)[0] is RootDir);
            }
        }
        lemma_components_push(r0, dot);
        assert(push_path(r0, dot) == rel);
        assert(drop_cur_dir(components(dot)) =~= Seq::<Component>::empty());
        assert(components(rel) =~= ps);
        assert(spec_relative_to(target, base) == Some(rel));
        lemma_normalize_fixed(ps);
        assert(expected_relative(target, base) =~= ps);
        assert(base.len() > 0) by {
            if base.len() == 0 {
                lemma_components_empty();
            }
        }
        lemma_components_push(base, rel);
        assert(drop_cur_dir(ps) == ps);
        let all = components(base) + ps;
        assert(components(spec_join(base, rel)) == all);
        lemma_normalize_from_empty(all);
        lemma_normalize_from_concat(Seq::<Component>::empty(), components(base), ps);
        lemma_normalize_parents(nb, u);
        assert(nb.take(0) =~= Seq::<Component>::empty());
        assert(normalize_components(all) =~= Seq::<Component>::empty());
    }
}

/// The round trip for a target that does not normalize to `.`.
proof fn lemma_relative_to_join_named(target: Seq<char>, base: Seq<char>)
    requires
        spec_relative_to(target, base) is Some,
        normalize_components(components(target)).len() > 0,
    ensures
        spec_normalize(spec_join(base, spec_relative_to(target, base)->0)) == spec_normalize(
            target,
        ),
        normalize_components(components(spec_relative_to(target, base)->0)) == expected_relative(
            target,
            base,
        ),
{
    let nb = normalize_components(components(base));
    let nt = normalize_components(components(target));
    lemma_target_components(target);
    lemma_normalized(base);
    lemma_normalized(target);
    lemma_normalize_keeps_root(target);
    lemma_normalize_keeps_root(base);
    lemma_compared_components(target);
    lemma_compared_components(base);
    lemma_common_prefix_facts(nt, nb);
    let k = common_prefix_len(nt, nb);
    let u = (nb.len() - k) as nat;
    assert(has_root(target) == has_root(base));
    assert(!nb.skip(k as int).contains(Component::ParentDir));
    if rooted(nt) {
        assert(nt[0] == nb[0]);
        assert(k >= 1);
    }
    assert forall|i: int| k <= i < nb.len() implies #[trigger] nb[i] is Normal by {
        if nb[i] is ParentDir {
            assert(nb.skip(k as int)[i - k] == nb[i]);
        }
        assert(!(nb[i] is CurDir));
        if nb[i] is RootDir {
            assert(i == 0);
            assert(rooted(nb));
        }
    }
    let rest = nt.skip(k as int);
    let l = parents(u) + rest;
    let pieces = Seq::new(u, |i: int| seq!['.', '.']) + nt.skip(k as int).map_values(
        |c: Component| component_text(c),
    );
    assert(pieces =~= l.map_values(|c: Component| component_text(c)));
    assert(normal_form(l)) by {
        assert forall|i: int| 0 <= i < l.len() implies l[i] == (if i < u {
            Component::ParentDir
        } else {
            nt[k + i - u]
        }) by {}
        assert forall|i: int| 0 <= i < l.len() && #[trigger] l[i] is RootDir implies i == 0 by {
            if i >= u {
                assert(nt[k + i - u] is RootDir);
                assert(k + i - u == 0);
                assert(rooted(nt));
            }
        }
        assert forall|i: int| 0 <= i < l.len() implies (#[trigger] l[i] matches Component::Normal(
            n,
        ) ==> valid_name(n)) by {
            if i >= u {
                assert(l[i] == nt[k + i - u]);
            }
        }
        assert forall|i: int| 0 <= i < l.len() implies !(#[trigger] l[i] is CurDir) by {
            if i >= u {
                assert(l[i] == nt[k + i - u]);
            }
        }
        assert forall|i: int, j: int| 0 <= i < j < l.len() && #[trigger] l[j] is ParentDir implies #[trigger] l[i] is ParentDir by {
            if i >= u {
                assert(l[j] == nt[k + j - u]);
                assert(l[i] == nt[k + i - u]);
            }
        }
    }
    let e = Seq::<char>::empty();
    lemma_normalize_from_empty(components(base));
    lemma_normal_form_take(nt, k as int);
    lemma_normalize_fixed(nt.take(k as int));
    lemma_normalize_from_empty(nt.take(k as int));
    lemma_normalize_from_concat(Seq::<Component>::empty(), nt.take(k as int), rest);
    assert(nt.take(k as int) + rest =~= nt);
    lemma_normalize_fixed(nt);
    lemma_normalize_from_empty(nt);
    lemma_components_dot();
    if l.len() == 0 {
        assert(pieces =~= Seq::<Seq<char>>::empty());
        assert(collect_path(pieces) == e);
        let rel = seq!['.'];
        assert(spec_relative_to(target, base) == Some(rel));
        assert(k == nb.len());
        assert(k == nt.len());
        assert(expected_relative(target, base) == l);
        assert(nb.take(k as int) =~= nb);
        assert(nt.take(k as int) =~= nt);
        assert(nb == nt);
        if base.len() == 0 {
            assert(spec_join(base, rel) == rel);
            assert(nt.len() == 0) by {
                lemma_components_empty();
            }
        } else {
            lemma_components_push(base, rel);
            assert(drop_cur_dir(components(rel)) =~= Seq::<Component>::empty());
            assert(components(base) + Seq::<Component>::empty() =~= components(base));
        }
    } else {
        let rel = collect_path(pieces);
        assert(rel == render_components(l));
        lemma_components_render(l);
        assert(spec_relative_to(target, base) == Some(rel));
        lemma_normalize_fixed(l);
        assert(expected_relative(target, base) == l);
        lemma_components_wf(rel);
        assert(!has_root(rel)) by {
            if has_root(rel) {
                assert(components(rel)[0] is RootDir);
                assert(l[0] is RootDir);
            }
        }
        if base.len() == 0 {
            lemma_components_empty();
            assert(nb.len() == 0);
            assert(l =~= nt);
            assert(spec_join(base, rel) == rel);
            assert(rel == spec_normalize(target));
            lemma_normalize_idempotent(target);
        } else {
            lemma_components_push(base, rel);
            assert(drop_cur_dir(l) == l);
            let all = components(base) + l;
            assert(components(spec_join(base, rel)) == all);
            lemma_normalize_from_empty(all);
            lemma_normalize_from_concat(Seq::<Component>::empty(), components(base), l);
            lemma_normalize_from_concat(nb, parents(u), rest);
            lemma_normalize_parents(nb, u);
            assert(nb.take(nb.len() - u) == nb.take(k as int));
            assert(normalize_components(all) == nt);
        }
    }
}


/// The components of a single segment without `/` that is not rooted.
proof fn lemma_components_single(t: Seq<char>)
    requires
        t.len() > 0,
        !t.contains('/'),
    ensures
        components(t) == classify_segment(t, true, false),
{
    let e = Seq::<char>::empty();
    lemma_split_append_plain(e, t);
    assert(e + t =~= t);
    assert(split_segments(e) == seq![e]);
    assert(split_segments(t) =~= seq![t]);
    assert(!has_root(t)) by {
        if t[0] == '/' {
            assert(t.contains('/'));
        }
    }
    let one = seq![t];
    assert(one.drop_last() =~= Seq::<Seq<char>>::empty());
    assert(segments_components(Seq::<Seq<char>>::empty(), false) == Seq::<Component>::empty());
    assert(one.last() == t);
    assert(segments_components(one, false) =~= classify_segment(t, true, false));
}

/// Going into a directory and back out with `..` changes nothing once normalized:
/// `p/name/..` normalizes to what `p` does, for every path `p` and every name.
pub proof fn lemma_normalize_enter_leave(p: Seq<char>, name: Seq<char>)
    requires
        valid_name(name),
    ensures
        spec_normalize(push_path(push_path(p, name), seq!['.', '.'])) == spec_normalize(p),
{
    let up = seq!['.', '.'];
    assert(!up.contains('/')) by {
        if up.contains('/') {
            let k = choose|k: int| 0 <= k < up.len() && up[k] == '/';
        }
    }
    lemma_components_single(name);
    lemma_components_single(up);
    assert(name[0] != '/') by {
        if name[0] == '/' {
            assert(name.contains('/'));
        }
    }
    assert(classify_segment(name, true, false) == seq![Component::Normal(name)]);
    assert(classify_segment(up, true, false) == seq![Component::ParentDir]);
    let q = push_path(p, name);
    let c = components(p);
    if p.len() == 0 {
        lemma_components_empty();
        assert(q =~= name);
        assert(components(q) =~= c + seq![Component::Normal(name)]);
    } else {
        lemma_components_push(p, name);
        assert(drop_cur_dir(seq![Component::Normal(name)]) == seq![Component::Normal(name)]);
    }
    assert(components(q) == c + seq![Component::Normal(name)]);
    assert(q.len() > 0) by {
        if p.len() == 0 {
        } else {
            assert(q.len() >= p.len());
        }
    }
    lemma_components_push(q, up);
    assert(drop_cur_dir(seq![Component::ParentDir]) == seq![Component::ParentDir]);
    let two = seq![Component::Normal(name), Component::ParentDir];
    let all = c + two;
    assert(components(push_path(q, up)) =~= all);
    lemma_normalize_from_empty(all);
    lemma_normalize_from_empty(c);
    lemma_normalize_from_concat(Seq::<Component>::empty(), c, two);
    let n = normalize_components(c);
    assert(two.drop_last() =~= seq![Component::Normal(name)]);
    assert(seq![Component::Normal(name)].drop_last() =~= Seq::<Component>::empty());
    assert(normalize_from(n, Seq::<Component>::empty()) == n);
    assert(normalize_from(n, seq![Component::Normal(name)]) == n.push(Component::Normal(name)));
    assert(n.push(Component::Normal(name)).drop_last() =~= n);
    assert(normalize_from(n, two) == n);
}

/// Appending a name appends it to the normalized form: `p/name` normalizes to the
/// normalized `p` followed by `name` (just `name` when `p` normalizes to `.`).
pub proof fn lemma_normalize_push_name(p: Seq<char>, name: Seq<char>)
    requires
        valid_name(name),
    ensures
        spec_normalize(push_path(p, name)) == (if spec_normalize(p) == seq!['.'] {
            name
        } else {
            push_path(spec_normalize(p), name)
        }),
{
    lemma_components_single(name);
    assert(name[0] != '/') by {
        if name[0] == '/' {
            assert(name.contains('/'));
        }
    }
    let nm = Component::Normal(name);
    assert(classify_segment(name, true, false) == seq![nm]);
    let c = components(p);
    if p.len() == 0 {
        lemma_components_empty();
        assert(push_path(p, name) =~= name);
        assert(components(push_path(p, name)) =~= c + seq![nm]);
    } else {
        lemma_components_push(p, name);
        assert(drop_cur_dir(seq![nm]) == seq![nm]);
    }
    let all = c + seq![nm];
    assert(components(push_path(p, name)) == all);
    assert(all.drop_last() =~= c);
    assert(all.last() == nm);
    let n = normalize_components(c);
    assert(normalize_components(all) == n.push(nm));
    let texts = n.map_values(|x: Component| component_text(x));
    let texts2 = n.push(nm).map_values(|x: Component| component_text(x));
    assert(texts2.drop_last() =~= texts);
    assert(texts2.last() == name);
    assert(spec_normalize(push_path(p, name)) == collect_path(texts2));
    assert(collect_path(texts2) == push_path(collect_path(texts), name));
    lemma_normalized(p);
    if n.len() == 0 {
        assert(texts =~= Seq::<Seq<char>>::empty());
        assert(push_path(Seq::<char>::empty(), name) =~= name) by {
            assert(!has_root(name));
        }
    } else {
        lemma_components_render(n);
        assert(spec_normalize(p) != seq!['.']) by {
            if spec_normalize(p) == seq!['.'] {
                lemma_components_dot();
                assert(n[0] is CurDir);
            }
        }
    }
}

/// The starting points of normalization: the empty path normalizes to `.`, the root to
/// `/`, and `..` past the root is absorbed (`/..` normalizes to `/`).
pub proof fn lemma_normalize_base_cases()
    ensures
        spec_normalize(Seq::<char>::empty()) == seq!['.'],
        spec_normalize(seq!['/']) == seq!['/'],
        spec_normalize(seq!['/', '.', '.']) == seq!['/'],
{
    lemma_components_empty();
    let root = seq![Component::RootDir];
    assert(normal_form(root));
    lemma_components_render(root);
    let rt = root.map_values(|x: Component| component_text(x));
    assert(rt.drop_last() =~= Seq::<Seq<char>>::empty());
    assert(rt.last() == seq!['/']);
    assert(collect_path(rt) == push_path(Seq::<char>::empty(), seq!['/']));
    let slash = seq!['/'];
    assert(render_components(root) == slash);
    lemma_normalize_fixed(root);
    let up = seq!['.', '.'];
    assert(!up.contains('/')) by {
        if up.contains('/') {
            let k = choose|k: int| 0 <= k < up.len() && up[k] == '/';
        }
    }
    lemma_components_single(up);
    lemma_components_push(slash, up);
    assert(push_path(slash, up) =~= seq!['/', '.', '.']);
    assert(drop_cur_dir(seq![Component::ParentDir]) == seq![Component::ParentDir]);
    let all = root + seq![Component::ParentDir];
    assert(components(seq!['/', '.', '.']) =~= all);
    assert(all.drop_last() =~= root);
    assert(normalize_components(all) == root);
}

/// A trailing `.` changes nothing once normalized: `p/.` normalizes to what `p` does.
pub proof fn lemma_normalize_trailing_dot(p: Seq<char>)
    ensures
        spec_normalize(push_path(p, seq!['.'])) == spec_normalize(p),
{
    let dot = seq!['.'];
    lemma_components_dot();
    if p.len() == 0 {
        lemma_components_empty();
        assert(push_path(p, dot) =~= dot);
        assert(normalize_components(components(p)) =~= Seq::<Component>::empty()) by {
            assert(components(p) == Seq::<Component>::empty());
        }
    } else {
        lemma_components_push(p, dot);
        assert(drop_cur_dir(components(dot)) =~= Seq::<Component>::empty());
        assert(components(p) + Seq::<Component>::empty() =~= components(p));
    }
}

/// Joining: an empty child gives the parent, an absolute child replaces the parent, and
/// otherwise the child follows the parent, with one `/` between them unless the parent is
/// empty or already ends in `/`.
pub proof fn lemma_join(parent: Seq<char>, child: Seq<char>)
    ensures
        spec_join(parent, Seq::<char>::empty()) == parent,
        child.len() > 0 && child[0] == '/' ==> spec_join(parent, child) == child,
        child.len() > 0 && child[0] != '/' && parent.len() > 0 && parent.last() != '/' ==> spec_join(
            parent,
            child,
        ) == parent + seq!['/'] + child,
        child.len() > 0 && child[0] != '/' && (parent.len() == 0 || parent.last() == '/')
            ==> spec_join(parent, child) == parent + child,
{
}

} // verus!
