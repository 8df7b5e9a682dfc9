//! Lexical path helpers with Unix semantics: splitting a path into components,
//! normalizing `.` and `..`, joining, relative paths and absoluteness.
//! Nothing here touches the file system.

use vstd::prelude::*;
use vstd::string::*;
use crate::strings::chars_of;

verus! {

// ---------------------------------------------------------------------------
// Model
// ---------------------------------------------------------------------------

/// One lexical component of a path.
pub enum Component {
    /// The leading `/` of an absolute path.
    RootDir,
    /// A leading `.` of a relative path.
    CurDir,
    /// A `..` segment.
    ParentDir,
    /// Any other non-empty segment.
    Normal(Seq<char>),
}

/// Whether the path text starts at the root (`/`).
pub open spec fn has_root(s: Seq<char>) -> bool {
    s.len() > 0 && s[0] == '/'
}

/// The `/`-separated segments of `s`, empty ones included; there is always at least one.
pub open spec fn split_segments(s: Seq<char>) -> Seq<Seq<char>>
    decreases s.len(),
{
    if s.len() == 0 {
        seq![Seq::<char>::empty()]
    } else {
        let prev = split_segments(s.drop_last());
        if s.last() == '/' {
            prev.push(Seq::<char>::empty())
        } else {
            prev.update(prev.len() - 1, prev.last().push(s.last()))
        }
    }
}

/// The components that one segment contributes: the first segment of a rooted path is
/// the root, a first segment `.` of an unrooted path is the current directory, empty
/// segments and other `.` segments vanish, `..` is the parent directory and anything
/// else is a normal component.
pub open spec fn classify_segment(seg: Seq<char>, first: bool, root: bool) -> Seq<Component> {
    if first && root {
        seq![Component::RootDir]
    } else if first && seg == seq!['.'] {
        seq![Component::CurDir]
    } else if seg.len() == 0 || seg == seq!['.'] {
        seq![]
    } else if seg == seq!['.', '.'] {
        seq![Component::ParentDir]
    } else {
        seq![Component::Normal(seg)]
    }
}

/// The components contributed by a run of segments, the first of which is the path's
/// first segment.
pub open spec fn segments_components(segs: Seq<Seq<char>>, root: bool) -> Seq<Component>
    decreases segs.len(),
{
    if segs.len() == 0 {
        seq![]
    } else {
        segments_components(segs.drop_last(), root) + classify_segment(
            segs.last(),
            segs.len() == 1,
            root,
        )
    }
}

/// The components of the path text `s`, as `std::path::Path::components` yields them
/// on Unix.
pub open spec fn components(s: Seq<char>) -> Seq<Component> {
    segments_components(split_segments(s), has_root(s))
}

/// One step of lexical normalization: `.` vanishes, `..` removes a preceding normal
/// component, is absorbed by the root, and is kept otherwise.
pub open spec fn normalize_step(acc: Seq<Component>, c: Component) -> Seq<Component> {
    match c {
        Component::CurDir => acc,
        Component::ParentDir => {
            if acc.len() > 0 && acc.last() is Normal {
                acc.drop_last()
            } else if acc.len() > 0 && acc.last() is RootDir {
                acc
            } else {
                acc.push(Component::ParentDir)
            }
        },
        _ => acc.push(c),
    }
}

/// Lexical normalization of a component list, left to right.
pub open spec fn normalize_components(cs: Seq<Component>) -> Seq<Component>
    decreases cs.len(),
{
    if cs.len() == 0 {
        seq![]
    } else {
        normalize_step(normalize_components(cs.drop_last()), cs.last())
    }
}

/// The text of one component.
pub open spec fn component_text(c: Component) -> Seq<char> {
    match c {
        Component::RootDir => seq!['/'],
        Component::CurDir => seq!['.'],
        Component::ParentDir => seq!['.', '.'],
        Component::Normal(name) => name,
    }
}

/// Appending `piece` to the path `buf` as `PathBuf::push` does on Unix: an absolute
/// piece replaces the buffer; otherwise a `/` goes between them when `buf` is
/// non-empty and does not already end in one.
pub open spec fn push_path(buf: Seq<char>, piece: Seq<char>) -> Seq<char> {
    if has_root(piece) {
        piece
    } else if buf.len() > 0 && buf.last() != '/' {
        buf + seq!['/'] + piece
    } else {
        buf + piece
    }
}

/// Pushing `pieces` in order onto an empty path.
pub open spec fn collect_path(pieces: Seq<Seq<char>>) -> Seq<char>
    decreases pieces.len(),
{
    if pieces.len() == 0 {
        seq![]
    } else {
        push_path(collect_path(pieces.drop_last()), pieces.last())
    }
}

/// The text of a component list, or `.` when it is empty.
pub open spec fn render_components(cs: Seq<Component>) -> Seq<char> {
    if cs.len() == 0 {
        seq!['.']
    } else {
        collect_path(cs.map_values(|c: Component| component_text(c)))
    }
}

/// The lexically normalized form of the path text `s`.
pub open spec fn spec_normalize(s: Seq<char>) -> Seq<char> {
    render_components(normalize_components(components(s)))
}

// ---------------------------------------------------------------------------
// Components in executable form
// ---------------------------------------------------------------------------

/// A path component as a value.
enum Part {
    Root,
    Cur,
    Parent,
    Name(String),
}

impl View for Part {
    type V = Component;

    closed spec fn view(&self) -> Component {
        match self {
            Part::Root => Component::RootDir,
            Part::Cur => Component::CurDir,
            Part::Parent => Component::ParentDir,
            Part::Name(n) => Component::Normal(n@),
        }
    }
}

spec fn parts_view(v: Seq<Part>) -> Seq<Component> {
    v.map_values(|p: Part| p@)
}

proof fn lemma_parts_view_push(v: Seq<Part>, p: Part)
    ensures
        parts_view(v.push(p)) == parts_view(v).push(p@),
{
    assert(parts_view(v.push(p)) =~= parts_view(v).push(p@));
}

/// The component that the segment `chars[st..en]` of `s` contributes, if any.
fn classify(s: &str, chars: &Vec<char>, st: usize, en: usize, first: bool, root: bool) -> (r:
    Option<Part>)
    requires
        chars@ == s@,
        st <= en <= chars@.len(),
    ensures
        classify_segment(chars@.subrange(st as int, en as int), first, root) == match r {
            Some(p) => seq![p@],
            None => Seq::<Component>::empty(),
        },
{
    let ghost seg = chars@.subrange(st as int, en as int);
    let len = en - st;
    if first && root {
        return Some(Part::Root);
    }
    let is_dot = len == 1 && chars[st] == '.';
    let is_dot_dot = len == 2 && chars[st] == '.' && chars[st + 1] == '.';
    assert(seg.len() == len);
    assert(len >= 1 ==> seg[0] == chars@[st as int]);
    assert(len >= 2 ==> seg[1] == chars@[st + 1]);
    assert(seq!['.'].len() == 1 && seq!['.'][0] == '.');
    assert(seq!['.', '.'].len() == 2 && seq!['.', '.'][0] == '.' && seq!['.', '.'][1] == '.');
    assert(is_dot <==> seg == seq!['.']) by {
        if is_dot {
            assert(seg =~= seq!['.']);
        }
    }
    assert(is_dot_dot <==> seg == seq!['.', '.']) by {
        if is_dot_dot {
            assert(seg =~= seq!['.', '.']);
        }
    }
    if first && is_dot {
        Some(Part::Cur)
    } else if len == 0 || is_dot {
        None
    } else if is_dot_dot {
        Some(Part::Parent)
    } else {
        let name = s.substring_char(st, en).to_owned();
        Some(Part::Name(name))
    }
}

/// The components of `s`.
fn parse_components(s: &str) -> (v: Vec<Part>)
    ensures
        parts_view(v@) == components(s@),
{
    let chars = chars_of(s);
    let n = chars.len();
    let root = n > 0 && chars[0] == '/';
    let mut out: Vec<Part> = Vec::new();
    let mut st: usize = 0;
    let mut count: usize = 0;
    let mut i: usize = 0;
    proof {
        assert(s@.take(0) =~= Seq::<char>::empty());
        assert(chars@.subrange(0, 0) =~= Seq::<char>::empty());
    }
    while i < n
        invariant
            n == chars@.len(),
            chars@ == s@,
            root == has_root(s@),
            st <= i <= n,
            count <= i,
            split_segments(s@.take(i as int)).len() == count + 1,
            split_segments(s@.take(i as int)).last() == chars@.subrange(st as int, i as int),
            parts_view(out@) == segments_components(
                split_segments(s@.take(i as int)).drop_last(),
                root,
            ),
        decreases n - i,
    {
        let ghost segs = split_segments(s@.take(i as int));
        proof {
            assert(s@.take(i + 1).drop_last() =~= s@.take(i as int));
            assert(s@.take(i + 1).last() == chars@[i as int]);
        }
        if chars[i] == '/' {
            let c = classify(s, &chars, st, i, count == 0, root);
            proof {
                let segs2 = split_segments(s@.take(i + 1));
                assert(segs2 == segs.push(Seq::<char>::empty()));
                assert(segs2.drop_last() =~= segs);
                assert(segs.drop_last() + seq![segs.last()] =~= segs);
            }
            match c {
                Some(p) => {
                    proof {
                        lemma_parts_view_push(out@, p);
                    }
                    out.push(p);
                },
                None => {},
            }
            proof {
                let segs2 = split_segments(s@.take(i + 1));
                assert(segs2.drop_last().drop_last() =~= segs.drop_last());
                assert(parts_view(out@) =~= segments_components(segs2.drop_last(), root));
                assert(chars@.subrange(i + 1, i + 1) =~= Seq::<char>::empty());
            }
            count = count + 1;
            st = i + 1;
        } else {
            proof {
                let segs2 = split_segments(s@.take(i + 1));
                assert(segs2.drop_last() =~= segs.drop_last());
                assert(chars@.subrange(st as int, i + 1) =~= chars@.subrange(
                    st as int,
                    i as int,
                ).push(chars@[i as int]));
            }
        }
        i = i + 1;
    }
    let c = classify(s, &chars, st, n, count == 0, root);
    proof {
        let segs = split_segments(s@.take(n as int));
        assert(s@.take(n as int) =~= s@);
        assert(segs.drop_last().push(segs.last()) =~= segs);
    }
    match c {
        Some(p) => {
            proof {
                lemma_parts_view_push(out@, p);
            }
            out.push(p);
        },
        None => {},
    }
    proof {
        let segs = split_segments(s@);
        assert(parts_view(out@) =~= segments_components(segs, root));
    }
    out
}


/// A copy of `p`.
fn copy_part(p: &Part) -> (r: Part)
    ensures
        r@ == p@,
{
    match p {
        Part::Root => Part::Root,
        Part::Cur => Part::Cur,
        Part::Parent => Part::Parent,
        Part::Name(n) => Part::Name(n.clone()),
    }
}

/// Lexical normalization of `parts`.
fn normalize_parts(parts: &Vec<Part>) -> (r: Vec<Part>)
    ensures
        parts_view(r@) == normalize_components(parts_view(parts@)),
{
    let mut stack: Vec<Part> = Vec::new();
    let mut i: usize = 0;
    while i < parts.len()
        invariant
            i <= parts@.len(),
            parts_view(stack@) == normalize_components(parts_view(parts@.take(i as int))),
        decreases parts@.len() - i,
    {
        let ghost acc = parts_view(stack@);
        proof {
            let pv = parts_view(parts@.take(i + 1));
            assert(pv.drop_last() =~= parts_view(parts@.take(i as int)));
            assert(pv.last() == parts@[i as int]@);
        }
        match &parts[i] {
            Part::Cur => {},
            Part::Parent => {
                let n = stack.len();
                let pop = n > 0 && match &stack[n - 1] {
                    Part::Name(_) => true,
                    _ => false,
                };
                let absorb = n > 0 && match &stack[n - 1] {
                    Part::Root => true,
                    _ => false,
                };
                if pop {
                    stack.pop();
                    proof {
                        assert(parts_view(stack@) =~= acc.drop_last());
                    }
                } else if !absorb {
                    proof {
                        lemma_parts_view_push(stack@, Part::Parent);
                    }
                    stack.push(Part::Parent);
                }
            },
            p => {
                let q = copy_part(p);
                proof {
                    lemma_parts_view_push(stack@, q);
                }
                stack.push(q);
            },
        }
        i = i + 1;
    }
    proof {
        assert(parts@.take(parts@.len() as int) =~= parts@);
    }
    stack
}

/// The text of `p`.
fn part_text(p: &Part) -> (r: &str)
    ensures
        r@ == component_text(p@),
{
    proof {
        reveal_strlit("/");
        reveal_strlit(".");
        reveal_strlit("..");
    }
    match p {
        Part::Root => "/",
        Part::Cur => ".",
        Part::Parent => "..",
        Part::Name(n) => n.as_str(),
    }
}

/// Append `piece` to the path `buf` (see [`push_path`]).
fn push_piece(buf: &mut String, piece: &str)
    ensures
        final(buf)@ == push_path(old(buf)@, piece@),
{
    let absolute = !piece.is_empty() && piece.get_char(0) == '/';
    if absolute {
        *buf = piece.to_owned();
    } else {
        let n = buf.as_str().unicode_len();
        if n > 0 && buf.as_str().get_char(n - 1) != '/' {
            let sep = "/";
            proof {
                reveal_strlit("/");
            }
            buf.append(sep);
        }
        buf.append(piece);
    }
}

/// The text of `parts`, or `.` when there are none.
fn render_parts(parts: &Vec<Part>) -> (r: String)
    ensures
        r@ == render_components(parts_view(parts@)),
{
    if parts.len() == 0 {
        proof {
            reveal_strlit(".");
        }
        return String::from_str(".");
    }
    let ghost texts = parts_view(parts@).map_values(|c: Component| component_text(c));
    let mut buf = String::new();
    let mut i: usize = 0;
    while i < parts.len()
        invariant
            i <= parts@.len(),
            texts == parts_view(parts@).map_values(|c: Component| component_text(c)),
            buf@ == collect_path(texts.take(i as int)),
        decreases parts@.len() - i,
    {
        proof {
            assert(texts.take(i + 1).drop_last() =~= texts.take(i as int));
        }
        push_piece(&mut buf, part_text(&parts[i]));
        i = i + 1;
    }
    proof {
        assert(texts.take(parts@.len() as int) =~= texts);
    }
    buf
}

/// Normalize `path` lexically: drop `.` components, let `..` remove the normal
/// component before it (or vanish after the root), and render the result, which is
/// `.` when nothing is left. Symbolic links are not consulted.
pub fn normalize(path: &str) -> (r: String)
    ensures
        r@ == spec_normalize(path@),
{
    let parts = parse_components(path);
    let normalized = normalize_parts(&parts);
    render_parts(&normalized)
}


/// Whether the path text `s` is absolute, that is, starts with `/`.
pub fn is_absolute(path: &str) -> (b: bool)
    ensures
        b == has_root(path@),
{
    !path.is_empty() && path.get_char(0) == '/'
}

/// `parent` joined with `child`: `parent` itself when `child` is empty, otherwise
/// `child` pushed onto `parent` (an absolute `child` replaces `parent`).
pub open spec fn spec_join(parent: Seq<char>, child: Seq<char>) -> Seq<char> {
    if child.len() == 0 {
        parent
    } else {
        push_path(parent, child)
    }
}

/// Join two path segments as `Path::join` does, except that an empty `child` gives
/// `parent` back without a trailing separator.
pub fn join(parent: &str, child: &str) -> (r: String)
    ensures
        r@ == spec_join(parent@, child@),
{
    if child.is_empty() {
        return parent.to_owned();
    }
    let mut buf = parent.to_owned();
    push_piece(&mut buf, child);
    buf
}

/// The length of the longest common prefix of two component lists.
pub open spec fn common_prefix_len(a: Seq<Component>, b: Seq<Component>) -> nat
    decreases a.len(),
{
    if a.len() == 0 || b.len() == 0 || a[0] != b[0] {
        0
    } else {
        1 + common_prefix_len(a.drop_first(), b.drop_first())
    }
}

/// A component list without a leading current-directory component.
pub open spec fn drop_cur_dir(cs: Seq<Component>) -> Seq<Component> {
    if cs.len() > 0 && cs[0] is CurDir {
        cs.drop_first()
    } else {
        cs
    }
}

/// The path from `base` to `target` after both are normalized, a base that normalizes
/// to `.` counting as no component. `None` when exactly one of them is absolute, or when `base` has a
/// `..` past the common prefix (the way back would need the name of the directory it
/// climbs to). Otherwise one `..` for each component of `base` past the common prefix,
/// followed by the rest of `target`, or `.` when that is nothing.
pub open spec fn spec_relative_to(target: Seq<char>, base: Seq<char>) -> Option<Seq<char>> {
    let t = spec_normalize(target);
    let b = spec_normalize(base);
    let tc = components(t);
    let bc = drop_cur_dir(components(b));
    let k = common_prefix_len(tc, bc);
    if has_root(t) != has_root(b) || bc.skip(k as int).contains(Component::ParentDir) {
        None
    } else {
        let pieces = Seq::new((bc.len() - k) as nat, |i: int| seq!['.', '.']) + tc.skip(
            k as int,
        ).map_values(|c: Component| component_text(c));
        let r = collect_path(pieces);
        Some(
            if r.len() == 0 {
                seq!['.']
            } else {
                r
            },
        )
    }
}

/// `parts` without a leading current-directory part.
fn without_cur_dir(parts: Vec<Part>) -> (r: Vec<Part>)
    ensures
        parts_view(r@) == drop_cur_dir(parts_view(parts@)),
{
    let mut parts = parts;
    let lead = parts.len() > 0 && match &parts[0] {
        Part::Cur => true,
        _ => false,
    };
    if lead {
        let ghost before = parts@;
        parts.remove(0);
        proof {
            assert(parts_view(parts@) =~= parts_view(before).drop_first());
        }
    }
    parts
}

/// Whether one of `parts` from index `from` on is a parent-directory part.
fn climbs_from(parts: &Vec<Part>, from: usize) -> (b: bool)
    requires
        from <= parts@.len(),
    ensures
        b == parts_view(parts@).skip(from as int).contains(Component::ParentDir),
{
    let ghost pv = parts_view(parts@);
    let mut i = from;
    while i < parts.len()
        invariant
            from <= i <= parts@.len(),
            pv == parts_view(parts@),
            forall|j: int| from <= j < i ==> pv[j] != Component::ParentDir,
        decreases parts@.len() - i,
    {
        let is_parent = match &parts[i] {
            Part::Parent => true,
            _ => false,
        };
        if is_parent {
            proof {
                assert(pv.skip(from as int)[i - from] == Component::ParentDir);
            }
            return true;
        }
        i = i + 1;
    }
    proof {
        if pv.skip(from as int).contains(Component::ParentDir) {
            let j = choose|j: int| 0 <= j < pv.skip(from as int).len() && pv.skip(from as int)[j]
                == Component::ParentDir;
            assert(pv[j + from] == Component::ParentDir);
        }
    }
    false
}

/// Whether two parts are the same component.
fn same_part(a: &Part, b: &Part) -> (r: bool)
    ensures
        r == (a@ == b@),
{
    match a {
        Part::Root => match b {
            Part::Root => true,
            _ => false,
        },
        Part::Cur => match b {
            Part::Cur => true,
            _ => false,
        },
        Part::Parent => match b {
            Part::Parent => true,
            _ => false,
        },
        Part::Name(x) => match b {
            Part::Name(y) => {
                let r = x.eq(y);
                proof {
                    if a@ == b@ {
                        assert(Component::Normal(x@) == Component::Normal(y@));
                    }
                }
                r
            },
            _ => false,
        },
    }
}

/// The length of the common prefix of `a` and `b`.
fn common_prefix(a: &Vec<Part>, b: &Vec<Part>) -> (k: usize)
    ensures
        k == common_prefix_len(parts_view(a@), parts_view(b@)),
        k <= a@.len(),
        k <= b@.len(),
{
    let ghost av = parts_view(a@);
    let ghost bv = parts_view(b@);
    let mut k: usize = 0;
    proof {
        assert(av.skip(0) =~= av);
        assert(bv.skip(0) =~= bv);
    }
    while k < a.len() && k < b.len() && same_part(&a[k], &b[k])
        invariant
            k <= a@.len(),
            k <= b@.len(),
            av == parts_view(a@),
            bv == parts_view(b@),
            common_prefix_len(av, bv) == k + common_prefix_len(av.skip(k as int), bv.skip(k as int)),
        decreases a@.len() - k,
    {
        proof {
            assert(av.skip(k as int).drop_first() =~= av.skip(k + 1));
            assert(bv.skip(k as int).drop_first() =~= bv.skip(k + 1));
            assert(av.skip(k as int)[0] == av[k as int]);
            assert(bv.skip(k as int)[0] == bv[k as int]);
        }
        k = k + 1;
    }
    proof {
        if k < a@.len() && k < b@.len() {
            assert(av.skip(k as int)[0] == av[k as int]);
            assert(bv.skip(k as int)[0] == bv[k as int]);
        }
    }
    k
}

/// The path that leads from `base` to `target`, both normalized first; `None` when one
/// is absolute and the other relative, or when `base` climbs with `..` out of the part
/// it shares with `target`, so that no relative path can be computed.
pub fn relative_to(target: &str, base: &str) -> (r: Option<String>)
    ensures
        r is None <==> spec_relative_to(target@, base@) is None,
        r matches Some(p) ==> spec_relative_to(target@, base@) == Some(p@),
{
    let target_norm = normalize(target);
    let base_norm = normalize(base);
    if is_absolute(target_norm.as_str()) != is_absolute(base_norm.as_str()) {
        return None;
    }
    let tc = parse_components(target_norm.as_str());
    let bc = without_cur_dir(parse_components(base_norm.as_str()));
    let k = common_prefix(&tc, &bc);
    if climbs_from(&bc, k) {
        return None;
    }
    let ups = bc.len() - k;
    let ghost tv = parts_view(tc@);
    let ghost pieces = Seq::new(ups as nat, |i: int| seq!['.', '.']) + tv.skip(k as int).map_values(
        |c: Component| component_text(c),
    );
    let up = "..";
    proof {
        reveal_strlit("..");
    }
    let mut buf = String::new();
    let mut u: usize = 0;
    while u < ups
        invariant
            u <= ups,
            up@ == seq!['.', '.'],
            pieces == Seq::new(ups as nat, |i: int| seq!['.', '.']) + tv.skip(k as int).map_values(
                |c: Component| component_text(c),
            ),
            buf@ == collect_path(pieces.take(u as int)),
        decreases ups - u,
    {
        proof {
            assert(pieces.take(u + 1).drop_last() =~= pieces.take(u as int));
        }
        push_piece(&mut buf, up);
        u = u + 1;
    }
    let mut j: usize = k;
    while j < tc.len()
        invariant
            k <= j <= tc@.len(),
            tv == parts_view(tc@),
            pieces == Seq::new(ups as nat, |i: int| seq!['.', '.']) + tv.skip(k as int).map_values(
                |c: Component| component_text(c),
            ),
            buf@ == collect_path(pieces.take(ups + j - k)),
        decreases tc@.len() - j,
    {
        proof {
            assert(pieces.take(ups + j - k + 1).drop_last() =~= pieces.take(ups + j - k));
            assert(pieces[ups + j - k] == component_text(tv[j as int]));
        }
        push_piece(&mut buf, part_text(&tc[j]));
        j = j + 1;
    }
    proof {
        assert(pieces.take(ups + j - k) =~= pieces);
    }
    if buf.as_str().is_empty() {
        proof {
            reveal_strlit(".");
        }
        Some(String::from_str("."))
    } else {
        Some(buf)
    }
}

/// `path` with a leading `~` replaced by the home directory `home`: `~` alone becomes
/// `home`, `~/rest` becomes `home/rest`; without a home directory, or without a
/// leading `~`, the path is kept.
pub open spec fn spec_expand_home(path: Seq<char>, home: Option<Seq<char>>) -> Seq<char> {
    if path == seq!['~'] {
        match home {
            Some(h) => h,
            None => path,
        }
    } else if path.len() >= 2 && path[0] == '~' && path[1] == '/' {
        match home {
            Some(h) => h + seq!['/'] + path.skip(2),
            None => path,
        }
    } else {
        path
    }
}

/// What home expansion does, for every path and home directory: `~/rest` becomes
/// `home/rest` whatever `rest` holds, `~` alone becomes `home`, and without a home
/// directory, or for a path that starts with neither `~/` nor is `~`, the path is kept.
pub proof fn lemma_expand_home(rest: Seq<char>, home: Seq<char>, path: Seq<char>)
    ensures
        spec_expand_home(seq!['~', '/'] + rest, Some(home)) == home + seq!['/'] + rest,
        spec_expand_home(seq!['~'], Some(home)) == home,
        spec_expand_home(path, None) == path,
        !(path.len() >= 1 && path[0] == '~') ==> spec_expand_home(path, Some(home)) == path,
        path.len() >= 2 && path[0] == '~' && path[1] != '/' ==> spec_expand_home(path, Some(home))
            == path,
{
    let p = seq!['~', '/'] + rest;
    assert(p[0] == '~' && p[1] == '/');
    assert(p.skip(2) =~= rest);
    assert(p != seq!['~']) by {
        assert(p.len() >= 2);
    }
    if path.len() >= 2 {
        assert(path != seq!['~']);
    }
    if !(path.len() >= 1 && path[0] == '~') {
        assert(path != seq!['~']) by {
            if path == seq!['~'] {
                assert(path[0] == '~');
            }
        }
    }
}

/// Expand a leading `~` in `path` with the home directory `home`, when there is one.
pub fn expand_home_from(path: &str, home: Option<&str>) -> (r: String)
    ensures
        r@ == spec_expand_home(path@, match home {
            Some(h) => Some(h@),
            None => None,
        }),
{
    let n = path.unicode_len();
    let first_tilde = n >= 1 && path.get_char(0) == '~';
    if n == 1 && first_tilde {
        proof {
            assert(path@ =~= seq!['~']);
        }
        return match home {
            Some(h) => h.to_owned(),
            None => path.to_owned(),
        };
    }
    proof {
        if path@ == seq!['~'] {
            assert(path@.len() == 1);
        }
    }
    if n >= 2 && first_tilde && path.get_char(1) == '/' {
        match home {
            Some(h) => {
                let mut r = h.to_owned();
                let sep = "/";
                proof {
                    reveal_strlit("/");
                }
                r.append(sep);
                r.append(path.substring_char(2, n));
                proof {
                    assert(path@.subrange(2, n as int) =~= path@.skip(2));
                }
                r
            },
            None => path.to_owned(),
        }
    } else {
        path.to_owned()
    }
}

} // verus!
