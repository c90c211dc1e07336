//! Lexical path handling: splitting a POSIX-style path into components,
//! normalizing `.` and `..` without touching the filesystem, joining a
//! working directory with an argument, and rendering a parsed path back
//! to text.

use vstd::prelude::*;
use vstd::string::StrSliceExecFns;
use vstd::string::StringExecFns;

verus! {

/// Error returned by [`normalize_lexically`] when a `..` component would
/// escape above the path's own root.
#[derive(Debug, PartialEq)]
pub struct NormalizeError;

/// The root of a POSIX-style path, as lexical normalization sees it.
#[derive(Clone, Copy, Debug, PartialEq, Eq, Structural)]
pub enum RootKind {
    /// The path has no root: it is purely relative or empty.
    NoRoot,
    /// The path begins with `/`.
    SlashRoot,
}

/// Mathematical model of a parsed path: its root and its component names.
#[verifier::ext_equal]
pub ghost struct PathModel {
    pub root: RootKind,
    pub names: Seq<Seq<char>>,
}

/// The single-character component `.`.
pub open spec fn dot_name() -> Seq<char> {
    seq!['.']
}

/// The parent-directory component `..`.
pub open spec fn parent_name() -> Seq<char> {
    seq!['.', '.']
}

/// Scan `s` left to right, splitting on `/`: the completed non-empty
/// segments, together with the partial segment after the last separator.
pub open spec fn segs_acc(s: Seq<char>) -> (Seq<Seq<char>>, Seq<char>)
    decreases s.len(),
{
    if s.len() == 0 {
        (Seq::empty(), Seq::empty())
    } else {
        let (done, cur) = segs_acc(s.drop_last());
        if s.last() == '/' {
            if cur.len() > 0 {
                (done.push(cur), Seq::empty())
            } else {
                (done, Seq::empty())
            }
        } else {
            (done, cur.push(s.last()))
        }
    }
}

/// The non-empty `/`-separated segments of `s`.
pub open spec fn segments_of(s: Seq<char>) -> Seq<Seq<char>> {
    let (done, cur) = segs_acc(s);
    if cur.len() > 0 {
        done.push(cur)
    } else {
        done
    }
}

/// Remove every `.` segment.
pub open spec fn drop_dots(segs: Seq<Seq<char>>) -> Seq<Seq<char>>
    decreases segs.len(),
{
    if segs.len() == 0 {
        Seq::empty()
    } else {
        let rest = drop_dots(segs.drop_last());
        if segs.last() == dot_name() {
            rest
        } else {
            rest.push(segs.last())
        }
    }
}

/// The components of `s`: its non-empty segments with every `.` segment
/// removed.  `..` segments are kept.
pub open spec fn components_of(s: Seq<char>) -> Seq<Seq<char>> {
    drop_dots(segments_of(s))
}

/// The root of the text `s`: `/...` is rooted, anything else is not.  A
/// leading `.` is an ordinary segment, dropped like any other.
pub open spec fn spec_root_of(s: Seq<char>) -> RootKind {
    if s.len() > 0 && s[0] == '/' {
        RootKind::SlashRoot
    } else {
        RootKind::NoRoot
    }
}

/// Collapse a component sequence: an ordinary name is kept, `..` removes
/// the most recent kept name and fails when none is left, since it would
/// then escape above the root.
pub open spec fn norm_comps(comps: Seq<Seq<char>>) -> Option<Seq<Seq<char>>>
    decreases comps.len(),
{
    if comps.len() == 0 {
        Some(Seq::empty())
    } else {
        match norm_comps(comps.drop_last()) {
            None => None,
            Some(st) => {
                if comps.last() == parent_name() {
                    if st.len() == 0 {
                        None
                    } else {
                        Some(st.drop_last())
                    }
                } else {
                    Some(st.push(comps.last()))
                }
            },
        }
    }
}

/// What lexical normalization of the text `s` yields: its root together
/// with the collapsed names, or nothing when a `..` would escape the root.
pub open spec fn spec_normalize(s: Seq<char>) -> Option<PathModel> {
    match norm_comps(components_of(s)) {
        None => None,
        Some(names) => Some(PathModel { root: spec_root_of(s), names }),
    }
}

/// A name that can appear in a normalized path: non-empty, free of `/`,
/// and neither `.` nor `..`.
pub open spec fn valid_name(n: Seq<char>) -> bool {
    &&& n.len() > 0
    &&& forall|i: int| 0 <= i < n.len() ==> n[i] != '/'
    &&& n != dot_name()
    &&& n != parent_name()
}

pub open spec fn all_valid_names(names: Seq<Seq<char>>) -> bool {
    forall|i: int| 0 <= i < names.len() ==> valid_name(#[trigger] names[i])
}

/// The views of a sequence of component strings.
pub open spec fn names_view(names: Seq<String>) -> Seq<Seq<char>> {
    names.map_values(|n: String| n@)
}

/// A parsed path: its root kind and its component names.
pub struct LexPath {
    pub root: RootKind,
    pub names: Vec<String>,
}

impl View for LexPath {
    type V = PathModel;

    open spec fn view(&self) -> PathModel {
        PathModel { root: self.root, names: names_view(self.names@) }
    }
}

/// Relies on `String::push`: appends the given character to the end of
/// the string.
pub assume_specification[ String::push ](s: &mut String, c: char)
    ensures
        final(s)@ == old(s)@.push(c),
;

/// Fold one completed segment into the running normalization state.
/// `gdone` is the sequence of segments already folded; `ok` says whether
/// normalization has failed yet, and `names` is meaningful only while it
/// has not.
fn fold_segment(names: &mut Vec<String>, seg: String, ok: bool, Ghost(gdone): Ghost<
    Seq<Seq<char>>,
>) -> (r: bool)
    requires
        seg@.len() > 0,
        forall|i: int| 0 <= i < seg@.len() ==> seg@[i] != '/',
        match norm_comps(drop_dots(gdone)) {
            None => !ok,
            Some(st) => ok && st == names_view(old(names)@),
        },
        all_valid_names(names_view(old(names)@)),
    ensures
        match norm_comps(drop_dots(gdone.push(seg@))) {
            None => !r,
            Some(st) => r && st == names_view(final(names)@),
        },
        all_valid_names(names_view(final(names)@)),
{
    proof {
        assert(gdone.push(seg@).drop_last() =~= gdone);
    }
    if is_dot(&seg) {
        proof {
            assert(drop_dots(gdone.push(seg@)) == drop_dots(gdone));
        }
        ok
    } else if is_parent(&seg) {
        proof {
            assert(drop_dots(gdone.push(seg@)) =~= drop_dots(gdone).push(seg@));
            assert(drop_dots(gdone).push(seg@).drop_last() =~= drop_dots(gdone));
        }
        if !ok {
            false
        } else if names.len() == 0 {
            false
        } else {
            names.pop();
            proof {
                assert(names_view(names@) =~= names_view(old(names)@).drop_last());
            }
            true
        }
    } else {
        proof {
            assert(drop_dots(gdone.push(seg@)) =~= drop_dots(gdone).push(seg@));
            assert(drop_dots(gdone).push(seg@).drop_last() =~= drop_dots(gdone));
        }
        if !ok {
            false
        } else {
            names.push(seg);
            proof {
                assert(names_view(names@) =~= names_view(old(names)@).push(seg@));
            }
            true
        }
    }
}

/// Normalize a path lexically, resolving `.` and `..` components without
/// consulting the filesystem.  `..` always removes the lexical parent:
/// `a/b/../c` becomes `a/c` even when `b` is a symbolic link whose real
/// parent differs.  Returns an error exactly when a `..` would ascend
/// above the path's own root.
pub fn normalize_lexically(p: &str) -> (r: Result<LexPath, NormalizeError>)
    ensures
        match r {
            Ok(np) => spec_normalize(p@) == Some(np@) && all_valid_names(np@.names),
            Err(_) => spec_normalize(p@) is None,
        },
{
    let n = p.unicode_len();
    let root = if n > 0 && p.get_char(0) == '/' {
        RootKind::SlashRoot
    } else {
        RootKind::NoRoot
    };
    assert(root == spec_root_of(p@));
    let mut names: Vec<String> = Vec::new();
    let mut cur = String::new();
    let mut ok = true;
    let ghost mut gdone: Seq<Seq<char>> = Seq::empty();
    let mut i: usize = 0;
    proof {
        assert(p@.take(0) =~= Seq::<char>::empty());
    }
    while i < n
        invariant
            i <= n,
            n == p@.len(),
            (gdone, cur@) == segs_acc(p@.take(i as int)),
            forall|j: int| 0 <= j < cur@.len() ==> cur@[j] != '/',
            match norm_comps(drop_dots(gdone)) {
                None => !ok,
                Some(st) => ok && st == names_view(names@),
            },
            all_valid_names(names_view(names@)),
        decreases n - i,
    {
        let c = p.get_char(i);
        proof {
            assert(p@.take(i + 1).drop_last() =~= p@.take(i as int));
            assert(p@.take(i + 1).last() == c);
        }
        if c == '/' {
            if cur.as_str().unicode_len() > 0 {
                let seg = cur;
                cur = String::new();
                let ghost segv = seg@;
                ok = fold_segment(&mut names, seg, ok, Ghost(gdone));
                proof {
                    gdone = gdone.push(segv);
                }
            } else {
                proof {
                    assert(cur@ =~= Seq::<char>::empty());
                }
            }
        } else {
            cur.push(c);
        }
        i = i + 1;
    }
    proof {
        assert(p@.take(n as int) =~= p@);
    }
    if cur.as_str().unicode_len() > 0 {
        let seg = cur;
        let ghost segv = seg@;
        ok = fold_segment(&mut names, seg, ok, Ghost(gdone));
        proof {
            gdone = gdone.push(segv);
        }
    }
    assert(gdone == segments_of(p@));
    if ok {
        Ok(LexPath { root, names })
    } else {
        Err(NormalizeError)
    }
}

/// Parse a path into its root and its components without collapsing
/// `..`: `.` segments and empty segments are dropped, `..` segments are
/// kept as ordinary names.  This is how a descriptor path is compared,
/// component by component, against normalized arguments.
pub fn parse_components(p: &str) -> (r: LexPath)
    ensures
        r@.root == spec_root_of(p@),
        r@.names == components_of(p@),
{
    let n = p.unicode_len();
    let root = if n > 0 && p.get_char(0) == '/' {
        RootKind::SlashRoot
    } else {
        RootKind::NoRoot
    };
    assert(root == spec_root_of(p@));
    let mut names: Vec<String> = Vec::new();
    let mut cur = String::new();
    let ghost mut gdone: Seq<Seq<char>> = Seq::empty();
    let mut i: usize = 0;
    proof {
        assert(p@.take(0) =~= Seq::<char>::empty());
    }
    while i < n
        invariant
            i <= n,
            n == p@.len(),
            (gdone, cur@) == segs_acc(p@.take(i as int)),
            names_view(names@) == drop_dots(gdone),
        decreases n - i,
    {
        let c = p.get_char(i);
        proof {
            assert(p@.take(i + 1).drop_last() =~= p@.take(i as int));
            assert(p@.take(i + 1).last() == c);
        }
        if c == '/' {
            if cur.as_str().unicode_len() > 0 {
                let seg = cur;
                cur = String::new();
                let ghost segv = seg@;
                proof {
                    assert(gdone.push(segv).drop_last() =~= gdone);
                }
                if !is_dot(&seg) {
                    names.push(seg);
                    proof {
                        assert(names_view(names@) =~= drop_dots(gdone).push(segv));
                    }
                }
                proof {
                    gdone = gdone.push(segv);
                }
            } else {
                proof {
                    assert(cur@ =~= Seq::<char>::empty());
                }
            }
        } else {
            cur.push(c);
        }
        i = i + 1;
    }
    proof {
        assert(p@.take(n as int) =~= p@);
    }
    if cur.as_str().unicode_len() > 0 {
        let seg = cur;
        let ghost segv = seg@;
        proof {
            assert(gdone.push(segv).drop_last() =~= gdone);
        }
        if !is_dot(&seg) {
            names.push(seg);
            proof {
                assert(names_view(names@) =~= drop_dots(gdone).push(segv));
            }
        }
        proof {
            gdone = gdone.push(segv);
        }
    }
    assert(gdone == segments_of(p@));
    LexPath { root, names }
}

/// The names joined with `/` between them.
pub open spec fn join_names(names: Seq<Seq<char>>) -> Seq<char>
    decreases names.len(),
{
    if names.len() == 0 {
        Seq::empty()
    } else if names.len() == 1 {
        names[0]
    } else {
        join_names(names.drop_last()) + seq!['/'] + names.last()
    }
}

/// The textual form of a parsed path, as the std path type prints it.
pub open spec fn spec_render(m: PathModel) -> Seq<char> {
    match m.root {
        RootKind::SlashRoot => seq!['/'] + join_names(m.names),
        RootKind::NoRoot => join_names(m.names),
    }
}

/// Joining `base` and `arg` as the std path type does: an absolute `arg`
/// replaces `base`; otherwise a separator is inserted unless `base` is
/// empty or already ends with one.
pub open spec fn spec_join(base: Seq<char>, arg: Seq<char>) -> Seq<char> {
    if arg.len() > 0 && arg[0] == '/' {
        arg
    } else if base.len() == 0 {
        arg
    } else if base.last() == '/' {
        base + arg
    } else {
        base + seq!['/'] + arg
    }
}

/// Join `arg` onto the directory `base`: an absolute `arg` stands alone,
/// a relative one is appended behind a separator.
pub fn join_paths(base: &str, arg: &str) -> (r: String)
    ensures
        r@ == spec_join(base@, arg@),
{
    let bn = base.unicode_len();
    let an = arg.unicode_len();
    let mut out = String::new();
    if an > 0 && arg.get_char(0) == '/' {
        out.append(arg);
        proof {
            assert(out@ =~= arg@);
        }
    } else if bn == 0 {
        out.append(arg);
        proof {
            assert(out@ =~= arg@);
        }
    } else if base.get_char(bn - 1) == '/' {
        out.append(base);
        out.append(arg);
        proof {
            assert(base@.last() == base@[bn - 1]);
            assert(out@ =~= base@ + arg@);
        }
    } else {
        out.append(base);
        out.push('/');
        out.append(arg);
        proof {
            assert(base@.last() == base@[bn - 1]);
            assert(out@ =~= base@ + seq!['/'] + arg@);
        }
    }
    out
}

impl LexPath {
    /// The textual form of this path, as the std path type prints it.
    pub fn render(&self) -> (r: String)
        ensures
            r@ == spec_render(self@),
    {
        let mut out = String::new();
        match self.root {
            RootKind::SlashRoot => {
                out.push('/');
            },
            RootKind::NoRoot => {},
        }
        let ghost prefix: Seq<char> = out@;
        proof {
            assert(self@.names.take(0) =~= Seq::<Seq<char>>::empty());
            assert(prefix + join_names(self@.names.take(0)) =~= prefix);
            assert(prefix + join_names(self@.names) =~= spec_render(self@)) by {
                if self.root is SlashRoot {
                    assert(prefix =~= seq!['/']);
                } else {
                    assert(prefix =~= Seq::<char>::empty());
                    assert(prefix + join_names(self@.names) =~= join_names(self@.names));
                }
            }
        }
        let mut i: usize = 0;
        while i < self.names.len()
            invariant
                i <= self.names.len(),
                self@.names.len() == self.names.len(),
                out@ == prefix + join_names(self@.names.take(i as int)),
                prefix + join_names(self@.names) == spec_render(self@),
            decreases self.names.len() - i,
        {
            if i > 0 {
                out.push('/');
            }
            out.append(self.names[i].as_str());
            proof {
                let ns = self@.names;
                assert(ns.take(i + 1).drop_last() =~= ns.take(i as int));
                assert(ns.take(i + 1).last() == ns[i as int]);
                if i == 0 {
                    assert(join_names(ns.take(1)) == ns[0]);
                    assert(prefix + join_names(ns.take(0)) + ns[0] =~= prefix + join_names(
                        ns.take(1),
                    ));
                } else {
                    assert(join_names(ns.take(i + 1)) == join_names(ns.take(i as int)) + seq!['/']
                        + ns[i as int]);
                    assert(prefix + join_names(ns.take(i as int)).push('/') + ns[i as int] =~= prefix
                        + join_names(ns.take(i + 1)));
                    assert((prefix + join_names(ns.take(i as int))).push('/') =~= prefix
                        + join_names(ns.take(i as int)).push('/'));
                }
            }
            i = i + 1;
        }
        proof {
            assert(self@.names.take(self.names@.len() as int) =~= self@.names);
        }
        out
    }
}

/// A well-formed segment: non-empty and free of separators.
pub open spec fn wf_seg(n: Seq<char>) -> bool {
    n.len() > 0 && forall|j: int| 0 <= j < n.len() ==> n[j] != '/'
}

pub open spec fn all_wf_segs(segs: Seq<Seq<char>>) -> bool {
    forall|i: int| 0 <= i < segs.len() ==> wf_seg(#[trigger] segs[i])
}

/// Ending a path with a separator completes the pending segment.
proof fn lemma_push_sep(t: Seq<char>)
    ensures
        segs_acc(t.push('/')) == (segments_of(t), Seq::<char>::empty()),
{
    assert(t.push('/').drop_last() =~= t);
}

/// Appending separator-free text only extends the pending segment.
proof fn lemma_app_nosep(t: Seq<char>, w: Seq<char>)
    requires
        forall|i: int| 0 <= i < w.len() ==> w[i] != '/',
    ensures
        segs_acc(t + w) == (segs_acc(t).0, segs_acc(t).1 + w),
    decreases w.len(),
{
    if w.len() == 0 {
        assert(t + w =~= t);
        assert(segs_acc(t).1 + w =~= segs_acc(t).1);
    } else {
        lemma_app_nosep(t, w.drop_last());
        assert((t + w).drop_last() =~= t + w.drop_last());
        assert((t + w).last() == w.last());
        assert(segs_acc(t).1 + w =~= (segs_acc(t).1 + w.drop_last()).push(w.last()));
    }
}

/// Splitting distributes over a separator: the segments of `t`, then a
/// `/`, then `r` are the segments of `t` followed by those of `r`.
proof fn lemma_sep_concat(t: Seq<char>, r: Seq<char>)
    ensures
        segs_acc(t.push('/') + r) == (segments_of(t) + segs_acc(r).0, segs_acc(r).1),
    decreases r.len(),
{
    if r.len() == 0 {
        lemma_push_sep(t);
        assert(t.push('/') + r =~= t.push('/'));
        assert(segments_of(t) + segs_acc(r).0 =~= segments_of(t));
    } else {
        lemma_sep_concat(t, r.drop_last());
        assert((t.push('/') + r).drop_last() =~= t.push('/') + r.drop_last());
        assert((t.push('/') + r).last() == r.last());
        let d0 = segs_acc(r.drop_last()).0;
        let c0 = segs_acc(r.drop_last()).1;
        if r.last() == '/' {
            if c0.len() > 0 {
                assert(segments_of(t) + d0.push(c0) =~= (segments_of(t) + d0).push(c0));
            }
        }
    }
}

/// Removing `.` segments distributes over concatenation.
proof fn lemma_drop_dots_concat(a: Seq<Seq<char>>, b: Seq<Seq<char>>)
    ensures
        drop_dots(a + b) == drop_dots(a) + drop_dots(b),
    decreases b.len(),
{
    if b.len() == 0 {
        assert(a + b =~= a);
        assert(drop_dots(a) + drop_dots(b) =~= drop_dots(a));
    } else {
        lemma_drop_dots_concat(a, b.drop_last());
        assert((a + b).drop_last() =~= a + b.drop_last());
        assert((a + b).last() == b.last());
        if b.last() != dot_name() {
            assert(drop_dots(a) + drop_dots(b) =~= (drop_dots(a) + drop_dots(b.drop_last())).push(
                b.last(),
            ));
        }
    }
}

/// Every segment produced by splitting is non-empty and separator-free.
proof fn lemma_segs_wf(s: Seq<char>)
    ensures
        all_wf_segs(segs_acc(s).0),
        forall|j: int| 0 <= j < segs_acc(s).1.len() ==> segs_acc(s).1[j] != '/',
        all_wf_segs(segments_of(s)),
    decreases s.len(),
{
    if s.len() > 0 {
        lemma_segs_wf(s.drop_last());
    }
}

/// `drop_dots` keeps segments well-formed and leaves no `.` behind.
proof fn lemma_drop_dots_wf(segs: Seq<Seq<char>>)
    requires
        all_wf_segs(segs),
    ensures
        all_wf_segs(drop_dots(segs)),
        forall|i: int| 0 <= i < drop_dots(segs).len() ==> #[trigger] drop_dots(segs)[i]
            != dot_name(),
    decreases segs.len(),
{
    if segs.len() > 0 {
        lemma_drop_dots_wf(segs.drop_last());
    }
}

/// Collapsing well-formed, dot-free components yields only valid names.
proof fn lemma_norm_wf(comps: Seq<Seq<char>>, ns: Seq<Seq<char>>)
    requires
        all_wf_segs(comps),
        forall|i: int| 0 <= i < comps.len() ==> #[trigger] comps[i] != dot_name(),
        norm_comps(comps) == Some(ns),
    ensures
        all_valid_names(ns),
    decreases comps.len(),
{
    if comps.len() == 0 {
    } else {
        let st = norm_comps(comps.drop_last()).unwrap();
        lemma_norm_wf(comps.drop_last(), st);
    }
}

/// Normalization never yields a `.` or `..` component: every name of a
/// normalized path is non-empty, separator-free, and neither `.` nor
/// `..`.
pub proof fn lemma_normalized_names_valid(s: Seq<char>, m: PathModel)
    requires
        spec_normalize(s) == Some(m),
    ensures
        all_valid_names(m.names),
{
    lemma_segs_wf(s);
    lemma_drop_dots_wf(segments_of(s));
    lemma_norm_wf(components_of(s), m.names);
}

/// Text that begins with `..` (then ends or continues with `/`) has `..`
/// as its first segment.
proof fn lemma_leading_parent_segs(s: Seq<char>)
    requires
        s.len() >= 2,
        s[0] == '.',
        s[1] == '.',
        s.len() == 2 || s[2] == '/',
    ensures
        ({
            let (d, c) = segs_acc(s);
            if d.len() == 0 {
                c == parent_name() && s.len() == 2
            } else {
                d[0] == parent_name()
            }
        }),
    decreases s.len(),
{
    if s.len() == 2 {
        assert(s.drop_last() =~= seq!['.']);
        assert(seq!['.'].drop_last() =~= Seq::<char>::empty());
        assert(segs_acc(Seq::<char>::empty()) == (Seq::<Seq<char>>::empty(), Seq::<
            char,
        >::empty()));
        assert(segs_acc(seq!['.']).1 =~= seq!['.']);
        assert(segs_acc(s).1 =~= parent_name());
        assert(segs_acc(s).0 =~= Seq::<Seq<char>>::empty());
    } else if s.len() == 3 {
        assert(s.last() == '/');
        assert(s.drop_last() =~= seq!['.', '.']);
        assert(seq!['.', '.'].drop_last() =~= seq!['.']);
        assert(seq!['.'].drop_last() =~= Seq::<char>::empty());
        assert(segs_acc(Seq::<char>::empty()) == (Seq::<Seq<char>>::empty(), Seq::<
            char,
        >::empty()));
        assert(segs_acc(seq!['.']).1 =~= seq!['.']);
        assert(segs_acc(seq!['.']).0 =~= Seq::<Seq<char>>::empty());
        assert(segs_acc(seq!['.', '.']).1 =~= parent_name());
        assert(segs_acc(seq!['.', '.']).0 =~= Seq::<Seq<char>>::empty());
        assert(segs_acc(s).0 =~= Seq::<Seq<char>>::empty().push(parent_name()));
        assert(segs_acc(s).0[0] == parent_name());
    } else {
        lemma_leading_parent_segs(s.drop_last());
    }
}

/// The first segment survives `drop_dots` when it is not `.` itself.
proof fn lemma_drop_dots_head(segs: Seq<Seq<char>>)
    requires
        segs.len() > 0,
        segs[0] != dot_name(),
    ensures
        drop_dots(segs).len() > 0,
        drop_dots(segs)[0] == segs[0],
    decreases segs.len(),
{
    if segs.len() == 1 {
        assert(segs.drop_last() =~= Seq::<Seq<char>>::empty());
        assert(segs.last() == segs[0]);
    } else {
        lemma_drop_dots_head(segs.drop_last());
    }
}

/// A component sequence that opens with `..` cannot be collapsed.
pub proof fn lemma_parent_head_fails(comps: Seq<Seq<char>>)
    requires
        comps.len() > 0,
        comps[0] == parent_name(),
    ensures
        norm_comps(comps) is None,
    decreases comps.len(),
{
    if comps.len() == 1 {
        assert(comps.drop_last() =~= Seq::<Seq<char>>::empty());
        assert(comps.last() == comps[0]);
    } else {
        lemma_parent_head_fails(comps.drop_last());
    }
}

/// A path that begins with an un-rooted `..` cannot be normalized: it
/// would escape above its own starting point.
pub proof fn lemma_unrooted_leading_parent_fails(s: Seq<char>)
    requires
        s.len() >= 2,
        s[0] == '.',
        s[1] == '.',
        s.len() == 2 || s[2] == '/',
    ensures
        spec_root_of(s) == RootKind::NoRoot,
        spec_normalize(s) is None,
{
    lemma_leading_parent_segs(s);
    let d = segs_acc(s).0;
    let c = segs_acc(s).1;
    if d.len() == 0 {
        assert(segments_of(s) == d.push(c));
        assert(segments_of(s)[0] == parent_name());
    } else {
        assert(segments_of(s)[0] == parent_name());
    }
    assert(parent_name().len() == 2 && dot_name().len() == 1);
    lemma_drop_dots_head(segments_of(s));
    lemma_parent_head_fails(components_of(s));
}

/// Once collapsing has failed on a prefix, it fails on the whole.
pub proof fn lemma_norm_none_extends(comps: Seq<Seq<char>>, k: int)
    requires
        0 <= k <= comps.len(),
        norm_comps(comps.take(k)) is None,
    ensures
        norm_comps(comps) is None,
    decreases comps.len(),
{
    if k == comps.len() {
        assert(comps.take(k) =~= comps);
    } else {
        assert(comps.drop_last().take(k) =~= comps.take(k));
        lemma_norm_none_extends(comps.drop_last(), k);
    }
}

/// A `..` met while nothing is left above the established root makes the
/// whole normalization fail.
pub proof fn lemma_ascend_past_root_fails(s: Seq<char>, j: int)
    requires
        0 <= j < components_of(s).len(),
        norm_comps(components_of(s).take(j)) == Some(Seq::<Seq<char>>::empty()),
        components_of(s)[j] == parent_name(),
    ensures
        spec_normalize(s) is None,
{
    let comps = components_of(s);
    assert(comps.take(j + 1).drop_last() =~= comps.take(j));
    assert(comps.take(j + 1).last() == comps[j]);
    assert(norm_comps(comps.take(j + 1)) is None);
    lemma_norm_none_extends(comps, j + 1);
}

/// Splitting the joined form of valid names recovers the names.
proof fn lemma_join_segs(names: Seq<Seq<char>>)
    requires
        names.len() > 0,
        all_valid_names(names),
    ensures
        segs_acc(join_names(names)) == (names.drop_last(), names.last()),
    decreases names.len(),
{
    if names.len() == 1 {
        assert(segs_acc(Seq::<char>::empty()) == (Seq::<Seq<char>>::empty(), Seq::<
            char,
        >::empty()));
        lemma_app_nosep(Seq::empty(), names[0]);
        assert(Seq::<char>::empty() + names[0] =~= names[0]);
        assert(Seq::<char>::empty() + names[0] =~= join_names(names));
        assert(names.drop_last() =~= Seq::<Seq<char>>::empty());
        assert(segs_acc(join_names(names)).1 =~= names.last());
    } else {
        lemma_join_segs(names.drop_last());
        let t = join_names(names.drop_last());
        lemma_push_sep(t);
        lemma_app_nosep(t.push('/'), names.last());
        assert(t + seq!['/'] + names.last() =~= t.push('/') + names.last());
        assert(names.drop_last().drop_last().push(names.drop_last().last()) =~= names.drop_last());
        assert(Seq::<char>::empty() + names.last() =~= names.last());
    }
}

/// The joined form begins with the first name.
proof fn lemma_join_prefix_chars(names: Seq<Seq<char>>)
    requires
        names.len() > 0,
        all_valid_names(names),
    ensures
        join_names(names).len() >= names[0].len(),
        forall|j: int| 0 <= j < names[0].len() ==> join_names(names)[j] == names[0][j],
    decreases names.len(),
{
    if names.len() == 1 {
    } else {
        lemma_join_prefix_chars(names.drop_last());
        assert(names.drop_last()[0] == names[0]);
    }
}

/// `drop_dots` leaves a sequence of valid names unchanged.
proof fn lemma_drop_dots_valid_id(names: Seq<Seq<char>>)
    requires
        all_valid_names(names),
    ensures
        drop_dots(names) == names,
    decreases names.len(),
{
    if names.len() == 0 {
        assert(drop_dots(names) =~= names);
    } else {
        lemma_drop_dots_valid_id(names.drop_last());
        assert(names.drop_last().push(names.last()) =~= names);
    }
}

/// Collapsing a sequence of valid names leaves it unchanged: nothing in
/// it is `.` or `..`.
pub proof fn lemma_norm_valid_id(names: Seq<Seq<char>>)
    requires
        all_valid_names(names),
    ensures
        norm_comps(names) == Some(names),
    decreases names.len(),
{
    if names.len() == 0 {
        assert(norm_comps(names) == Some(Seq::<Seq<char>>::empty()));
        assert(names =~= Seq::<Seq<char>>::empty());
    } else {
        lemma_norm_valid_id(names.drop_last());
        assert(names.drop_last().push(names.last()) =~= names);
    }
}

/// Rendering a path of valid names parses back to the same root and the
/// same components.
pub proof fn lemma_render_parses_back(m: PathModel)
    requires
        all_valid_names(m.names),
    ensures
        spec_root_of(spec_render(m)) == m.root,
        components_of(spec_render(m)) == m.names,
{
    let r = spec_render(m);
    assert(segs_acc(Seq::<char>::empty()) == (Seq::<Seq<char>>::empty(), Seq::<char>::empty()));
    assert(Seq::<char>::empty().push('/') =~= seq!['/']);
    assert(drop_dots(Seq::<Seq<char>>::empty()) == Seq::<Seq<char>>::empty());
    match m.root {
        RootKind::SlashRoot => {
            if m.names.len() == 0 {
                assert(r =~= seq!['/']);
                assert(segs_acc(seq!['/']) == (segments_of(Seq::<char>::empty()), Seq::<
                    char,
                >::empty())) by {
                    lemma_push_sep(Seq::<char>::empty());
                    assert(Seq::<char>::empty().push('/') =~= seq!['/']);
                }
                assert(components_of(r) =~= m.names);
            } else {
                lemma_join_segs(m.names);
                lemma_sep_concat(Seq::<char>::empty(), join_names(m.names));
                assert(r =~= Seq::<char>::empty().push('/') + join_names(m.names));
                assert(segs_acc(r).0 =~= m.names.drop_last());
                assert(segs_acc(r).1 == m.names.last());
                assert(segments_of(r) =~= m.names);
                lemma_drop_dots_valid_id(m.names);
                assert(r[0] == '/');
            }
        },
        RootKind::NoRoot => {
            if m.names.len() == 0 {
                assert(r =~= Seq::<char>::empty());
                assert(components_of(r) =~= m.names);
            } else {
                lemma_join_segs(m.names);
                assert(segments_of(r) =~= m.names.drop_last().push(m.names.last()));
                assert(segments_of(r) =~= m.names);
                lemma_drop_dots_valid_id(m.names);
                lemma_join_prefix_chars(m.names);
                assert(r[0] == m.names[0][0]);
                assert(r[0] != '/');
            }
        },
    }
}

/// Normalization is idempotent: rendering a normalized path and
/// normalizing it again gives the same path back.
pub proof fn lemma_normalize_idempotent(s: Seq<char>, m: PathModel)
    requires
        spec_normalize(s) == Some(m),
    ensures
        spec_normalize(spec_render(m)) == Some(m),
{
    lemma_normalized_names_valid(s, m);
    lemma_render_parses_back(m);
    lemma_norm_valid_id(m.names);
}

/// Joining a slash-rooted working directory with a relative argument and
/// normalizing the result is the same as collapsing the concatenation of
/// the directory's components with the argument's components, under the
/// directory's root.
pub proof fn lemma_join_then_normalize(base: Seq<char>, arg: Seq<char>)
    requires
        spec_root_of(base) == RootKind::SlashRoot,
        base.len() == 1 || base.last() != '/',
        spec_root_of(arg) != RootKind::SlashRoot,
    ensures
        spec_root_of(spec_join(base, arg)) == RootKind::SlashRoot,
        components_of(spec_join(base, arg)) == components_of(base) + components_of(arg),
        spec_normalize(spec_join(base, arg)) == (match norm_comps(
            components_of(base) + components_of(arg),
        ) {
            None => None::<PathModel>,
            Some(ns) => Some(PathModel { root: RootKind::SlashRoot, names: ns }),
        }),
{
    let j = spec_join(base, arg);
    if base.len() == 1 {
        assert(base =~= seq!['/']);
        assert(j == base + arg);
        assert(j =~= Seq::<char>::empty().push('/') + arg);
        lemma_sep_concat(Seq::empty(), arg);
        assert(segs_acc(Seq::<char>::empty()) == (Seq::<Seq<char>>::empty(), Seq::<
            char,
        >::empty()));
        assert(segments_of(Seq::<char>::empty()) =~= Seq::<Seq<char>>::empty());
        assert(segs_acc(j).0 =~= segs_acc(arg).0);
        assert(segments_of(j) =~= segments_of(arg));
        assert(seq!['/'].drop_last() =~= Seq::<char>::empty());
        assert(segs_acc(seq!['/']).0 =~= Seq::<Seq<char>>::empty());
        assert(segs_acc(seq!['/']).1 =~= Seq::<char>::empty());
        assert(segments_of(base) =~= Seq::<Seq<char>>::empty());
        assert(components_of(base) =~= Seq::<Seq<char>>::empty());
        assert(components_of(base) + components_of(arg) =~= components_of(arg));
        assert(j[0] == '/');
    } else {
        assert(j == base + seq!['/'] + arg);
        assert(j =~= base.push('/') + arg);
        lemma_sep_concat(base, arg);
        if segs_acc(arg).1.len() > 0 {
            assert(segments_of(j) =~= (segments_of(base) + segs_acc(arg).0).push(segs_acc(arg).1));
            assert(segments_of(j) =~= segments_of(base) + segments_of(arg));
        } else {
            assert(segments_of(j) =~= segments_of(base) + segments_of(arg));
        }
        lemma_drop_dots_concat(segments_of(base), segments_of(arg));
        assert(j[0] == base[0]);
        assert(j[0] == '/');
    }
}

/// Whether `s` is exactly the component `.`.
fn is_dot(s: &String) -> (r: bool)
    ensures
        r == (s@ == dot_name()),
{
    let eq = s.as_str().unicode_len() == 1 && s.as_str().get_char(0) == '.';
    proof {
        if eq {
            assert(s@ =~= dot_name());
        }
    }
    eq
}

/// Whether `s` is exactly the component `..`.
fn is_parent(s: &String) -> (r: bool)
    ensures
        r == (s@ == parent_name()),
{
    let eq = s.as_str().unicode_len() == 2 && s.as_str().get_char(0) == '.' && s.as_str().get_char(
        1,
    ) == '.';
    proof {
        if eq {
            assert(s@ =~= parent_name());
        }
    }
    eq
}

} // verus!
