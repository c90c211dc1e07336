//! Progress estimation: splitting and filtering a raw command line, the
//! table from normalized arguments to their positions, and the ancestor
//! walk that matches an open descriptor path against the most specific
//! tracked argument.

use vstd::prelude::*;
use vstd::string::StrSliceExecFns;
use crate::lex::LexPath;
use crate::lex::NormalizeError;
use crate::lex::PathModel;
use crate::lex::components_of;
use crate::lex::join_paths;
use crate::lex::names_view;
use crate::lex::normalize_lexically;
use crate::lex::parse_components;
use crate::lex::spec_join;
use crate::lex::spec_normalize;
use crate::lex::spec_root_of;

verus! {

/// Scan `s` left to right, splitting on NUL: the completed fields and
/// the partial field after the last NUL.  A NUL always completes a
/// field, so interior empty fields are kept.
pub open spec fn split_nul_acc(s: Seq<char>) -> (Seq<Seq<char>>, Seq<char>)
    decreases s.len(),
{
    if s.len() == 0 {
        (Seq::empty(), Seq::empty())
    } else {
        let (done, cur) = split_nul_acc(s.drop_last());
        if s.last() == '\0' {
            (done.push(cur), Seq::empty())
        } else {
            (done, cur.push(s.last()))
        }
    }
}

/// The NUL-terminated fields of a raw command line: split on NUL, with a
/// trailing field kept only when it is non-empty.
pub open spec fn spec_split_cmdline(s: Seq<char>) -> Seq<Seq<char>> {
    let (done, cur) = split_nul_acc(s);
    if cur.len() > 0 {
        done.push(cur)
    } else {
        done
    }
}

/// An argument that looks like an option flag: it begins with `--`.
pub open spec fn is_flag(a: Seq<char>) -> bool {
    a.len() >= 2 && a[0] == '-' && a[1] == '-'
}

/// The arguments with every flag-like one removed, order preserved.
pub open spec fn spec_filter_flags(args: Seq<Seq<char>>) -> Seq<Seq<char>>
    decreases args.len(),
{
    if args.len() == 0 {
        Seq::empty()
    } else {
        let rest = spec_filter_flags(args.drop_last());
        if is_flag(args.last()) {
            rest
        } else {
            rest.push(args.last())
        }
    }
}

/// The position of `p` in `entries`: the index of the last entry equal
/// to `p`, so that a later duplicate argument wins over an earlier one.
pub open spec fn spec_lookup(entries: Seq<PathModel>, p: PathModel) -> Option<int>
    decreases entries.len(),
{
    if entries.len() == 0 {
        None
    } else if entries.last() == p {
        Some(entries.len() - 1)
    } else {
        spec_lookup(entries.drop_last(), p)
    }
}

/// What the lookup position means: it is an occurrence of `p`, and the
/// last one, so that of two equal arguments the later one wins.
pub proof fn lemma_lookup_characterizes(entries: Seq<PathModel>, p: PathModel)
    ensures
        match spec_lookup(entries, p) {
            Some(i) => 0 <= i < entries.len() && entries[i] == p && forall|j: int|
                i < j < entries.len() ==> #[trigger] entries[j] != p,
            None => forall|j: int| 0 <= j < entries.len() ==> #[trigger] entries[j] != p,
        },
    decreases entries.len(),
{
    if entries.len() > 0 {
        lemma_lookup_characterizes(entries.drop_last(), p);
        assert(forall|j: int|
            0 <= j < entries.len() - 1 ==> entries.drop_last()[j] == #[trigger] entries[j]);
    }
}

/// The ancestor of `p` that keeps its first `k` names.
pub open spec fn ancestor(p: PathModel, k: int) -> PathModel {
    PathModel { root: p.root, names: p.names.take(k) }
}

/// The ancestor walk, started at the ancestor that keeps `k` names:
/// ever shorter prefixes of the path are looked up until one is found.
pub open spec fn spec_walk_from(entries: Seq<PathModel>, p: PathModel, k: int) -> Option<int>
    decreases k,
{
    if k < 0 {
        None
    } else {
        match spec_lookup(entries, ancestor(p, k)) {
            Some(i) => Some(i),
            None => if k == 0 {
                None
            } else {
                spec_walk_from(entries, p, k - 1)
            },
        }
    }
}

/// The best match for a descriptor path: the first hit of the ancestor
/// walk from the full path down toward its root.
pub open spec fn spec_best_match(entries: Seq<PathModel>, p: PathModel) -> Option<int> {
    spec_walk_from(entries, p, p.names.len() as int)
}

/// The parsed form of a descriptor path, compared component by
/// component against the table.
pub open spec fn descriptor_model(s: Seq<char>) -> PathModel {
    PathModel { root: spec_root_of(s), names: components_of(s) }
}

/// Split a raw command line into its NUL-terminated fields.
pub fn split_cmdline(raw: &str) -> (r: Vec<String>)
    ensures
        names_view(r@) == spec_split_cmdline(raw@),
{
    let n = raw.unicode_len();
    let mut fields: Vec<String> = Vec::new();
    let mut cur = String::new();
    let ghost mut gdone: Seq<Seq<char>> = Seq::empty();
    let mut i: usize = 0;
    proof {
        assert(raw@.take(0) =~= Seq::<char>::empty());
        assert(names_view(fields@) =~= gdone);
    }
    while i < n
        invariant
            i <= n,
            n == raw@.len(),
            (gdone, cur@) == split_nul_acc(raw@.take(i as int)),
            names_view(fields@) == gdone,
        decreases n - i,
    {
        let c = raw.get_char(i);
        proof {
            assert(raw@.take(i + 1).drop_last() =~= raw@.take(i as int));
            assert(raw@.take(i + 1).last() == c);
        }
        if c == '\0' {
            let field = cur;
            cur = String::new();
            let ghost fieldv = field@;
            fields.push(field);
            proof {
                gdone = gdone.push(fieldv);
                assert(names_view(fields@) =~= gdone);
            }
        } else {
            cur.push(c);
        }
        i = i + 1;
    }
    proof {
        assert(raw@.take(n as int) =~= raw@);
    }
    if cur.as_str().unicode_len() > 0 {
        let ghost curv = cur@;
        fields.push(cur);
        proof {
            assert(names_view(fields@) =~= gdone.push(curv));
        }
    }
    fields
}

/// Drop every argument that looks like an option flag.  The filter is a
/// heuristic: it applies to all arguments alike, even ones that stand
/// behind a literal `--` separator.
pub fn filter_flags(args: &Vec<String>) -> (r: Vec<String>)
    ensures
        names_view(r@) == spec_filter_flags(names_view(args@)),
{
    let mut kept: Vec<String> = Vec::new();
    let mut i: usize = 0;
    proof {
        assert(names_view(args@).take(0) =~= Seq::<Seq<char>>::empty());
        assert(names_view(kept@) =~= spec_filter_flags(names_view(args@).take(0)));
    }
    while i < args.len()
        invariant
            i <= args@.len(),
            names_view(kept@) == spec_filter_flags(names_view(args@).take(i as int)),
        decreases args@.len() - i,
    {
        let a = &args[i];
        let flag = a.as_str().unicode_len() >= 2 && a.as_str().get_char(0) == '-'
            && a.as_str().get_char(1) == '-';
        assert(flag == is_flag(a@));
        proof {
            assert(names_view(args@).take(i + 1).drop_last() =~= names_view(args@).take(i as int));
            assert(names_view(args@).take(i + 1).last() == a@);
        }
        if !flag {
            kept.push(a.clone());
            proof {
                assert(names_view(kept@) =~= spec_filter_flags(names_view(args@).take(i as int)).push(
                    a@,
                ));
            }
        }
        i = i + 1;
    }
    proof {
        assert(names_view(args@).take(args@.len() as int) =~= names_view(args@));
    }
    kept
}

/// The table from normalized argument paths to their positions in the
/// filtered argument list.
pub struct ArgTable {
    pub entries: Vec<LexPath>,
}

impl View for ArgTable {
    type V = Seq<PathModel>;

    open spec fn view(&self) -> Seq<PathModel> {
        self.entries@.map_values(|p: LexPath| p@)
    }
}

/// Whether `e` equals the ancestor of `p` that keeps `k` names.
fn matches_ancestor(e: &LexPath, p: &LexPath, k: usize) -> (r: bool)
    requires
        k <= p.names@.len(),
    ensures
        r == (e@ == ancestor(p@, k as int)),
{
    if !(e.root == p.root) {
        assert(e@ != ancestor(p@, k as int));
        return false;
    }
    if e.names.len() != k {
        assert(e@.names.len() != ancestor(p@, k as int).names.len());
        return false;
    }
    let mut j: usize = 0;
    while j < k
        invariant
            j <= k,
            k <= p.names@.len(),
            e.names@.len() == k,
            e.root == p.root,
            forall|l: int| 0 <= l < j ==> e@.names[l] == p@.names[l],
        decreases k - j,
    {
        if !(e.names[j] == p.names[j]) {
            assert(e@.names[j as int] != ancestor(p@, k as int).names[j as int]);
            return false;
        }
        j = j + 1;
    }
    proof {
        assert(e@.names =~= ancestor(p@, k as int).names);
        assert(e@ =~= ancestor(p@, k as int));
    }
    true
}

impl ArgTable {
    /// How many arguments the table tracks.
    pub fn total(&self) -> (n: usize)
        ensures
            n == self@.len(),
    {
        self.entries.len()
    }

    /// Look up the ancestor of `p` that keeps `k` names: the position of
    /// the last equal entry, if any.
    fn lookup_ancestor(&self, p: &LexPath, k: usize) -> (r: Option<usize>)
        requires
            k <= p.names@.len(),
        ensures
            match r {
                Some(i) => spec_lookup(self@, ancestor(p@, k as int)) == Some(i as int),
                None => spec_lookup(self@, ancestor(p@, k as int)) is None,
            },
    {
        let mut i: usize = self.entries.len();
        proof {
            assert(self@.take(i as int) =~= self@);
        }
        while i > 0
            invariant
                i <= self@.len(),
                k <= p.names@.len(),
                self@.len() == self.entries@.len(),
                spec_lookup(self@, ancestor(p@, k as int)) == spec_lookup(
                    self@.take(i as int),
                    ancestor(p@, k as int),
                ),
            decreases i,
        {
            i = i - 1;
            proof {
                assert(self@.take(i + 1).drop_last() =~= self@.take(i as int));
                assert(self@.take(i + 1).last() == self@[i as int]);
            }
            if matches_ancestor(&self.entries[i], p, k) {
                return Some(i);
            }
        }
        proof {
            assert(self@.take(0) =~= Seq::<PathModel>::empty());
        }
        None
    }

    /// Walk from the full path `p` upward toward its root and report the
    /// position of the first — most specific — ancestor that is a
    /// tracked argument.
    pub fn best_match(&self, p: &LexPath) -> (r: Option<usize>)
        ensures
            match r {
                Some(i) => spec_best_match(self@, p@) == Some(i as int),
                None => spec_best_match(self@, p@) is None,
            },
    {
        let mut k: usize = p.names.len();
        while k > 0
            invariant
                k <= p.names@.len(),
                spec_best_match(self@, p@) == spec_walk_from(self@, p@, k as int),
            decreases k,
        {
            let hit = self.lookup_ancestor(p, k);
            if let Some(i) = hit {
                return Some(i);
            }
            k = k - 1;
        }
        let hit = self.lookup_ancestor(p, 0);
        if let Some(i) = hit {
            return Some(i);
        }
        None
    }

    /// Match one open-descriptor path against the table: parse it into
    /// components and walk toward the root.
    pub fn match_descriptor(&self, fd_path: &str) -> (r: Option<usize>)
        ensures
            match r {
                Some(i) => spec_best_match(self@, descriptor_model(fd_path@)) == Some(i as int),
                None => spec_best_match(self@, descriptor_model(fd_path@)) is None,
            },
    {
        let p = parse_components(fd_path);
        proof {
            assert(p@ =~= descriptor_model(fd_path@));
        }
        self.best_match(&p)
    }
}

/// Normalize each argument against the working directory and record its
/// position.  Fails — as the whole analysis of a process does — when any
/// argument cannot be normalized.
pub fn build_table(cwd: &str, args: &Vec<String>) -> (r: Result<ArgTable, NormalizeError>)
    ensures
        match r {
            Ok(t) => t@.len() == args@.len() && forall|i: int|
                0 <= i < args@.len() ==> spec_normalize(spec_join(cwd@, args@[i]@)) == Some(
                    #[trigger] t@[i],
                ),
            Err(_) => exists|i: int|
                0 <= i < args@.len() && spec_normalize(
                    spec_join(cwd@, #[trigger] args@[i]@),
                ) is None,
        },
{
    let mut entries: Vec<LexPath> = Vec::new();
    let mut i: usize = 0;
    while i < args.len()
        invariant
            i <= args@.len(),
            entries@.len() == i,
            forall|j: int|
                0 <= j < i ==> spec_normalize(spec_join(cwd@, args@[j]@)) == Some(
                    (#[trigger] entries@[j])@,
                ),
        decreases args@.len() - i,
    {
        let joined = join_paths(cwd, args[i].as_str());
        match normalize_lexically(joined.as_str()) {
            Ok(np) => {
                entries.push(np);
            },
            Err(e) => {
                return Err(e);
            },
        }
        i = i + 1;
    }
    Ok(ArgTable { entries })
}

/// The ancestor walk prefers the most specific match: when the longest
/// matching ancestor keeps `kmax` names, the walk reports that entry,
/// not a shorter one.
pub proof fn lemma_walk_most_specific(entries: Seq<PathModel>, p: PathModel, kmax: int)
    requires
        0 <= kmax <= p.names.len(),
        spec_lookup(entries, ancestor(p, kmax)) is Some,
        forall|k2: int|
            kmax < k2 <= p.names.len() ==> spec_lookup(entries, #[trigger] ancestor(p, k2)) is None,
    ensures
        spec_best_match(entries, p) == spec_lookup(entries, ancestor(p, kmax)),
{
    lemma_walk_most_specific_from(entries, p, kmax, p.names.len() as int);
}

proof fn lemma_walk_most_specific_from(entries: Seq<PathModel>, p: PathModel, kmax: int, m: int)
    requires
        0 <= kmax <= m <= p.names.len(),
        spec_lookup(entries, ancestor(p, kmax)) is Some,
        forall|k2: int| kmax < k2 <= m ==> spec_lookup(entries, #[trigger] ancestor(p, k2)) is None,
    ensures
        spec_walk_from(entries, p, m) == spec_lookup(entries, ancestor(p, kmax)),
    decreases m,
{
    if m == kmax {
    } else {
        lemma_walk_most_specific_from(entries, p, kmax, m - 1);
    }
}

/// A descriptor path no ancestor of which is a tracked argument yields
/// no match.
pub proof fn lemma_no_ancestor_no_match(entries: Seq<PathModel>, p: PathModel)
    requires
        forall|k: int|
            0 <= k <= p.names.len() ==> spec_lookup(entries, #[trigger] ancestor(p, k)) is None,
    ensures
        spec_best_match(entries, p) is None,
{
    lemma_no_ancestor_no_match_from(entries, p, p.names.len() as int);
}

proof fn lemma_no_ancestor_no_match_from(entries: Seq<PathModel>, p: PathModel, m: int)
    requires
        0 <= m <= p.names.len(),
        forall|k: int|
            0 <= k <= p.names.len() ==> spec_lookup(entries, #[trigger] ancestor(p, k)) is None,
    ensures
        spec_walk_from(entries, p, m) is None,
    decreases m,
{
    if m > 0 {
        lemma_no_ancestor_no_match_from(entries, p, m - 1);
    }
}

} // verus!
