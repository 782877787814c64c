//! Project discovery resolver: a deduplicating worklist walk that turns a
//! set of configured root directories into a flat list of project paths,
//! expanding bare repositories into their linked worktrees instead of
//! treating them as projects.
//!
//! The resolver holds the whole decision logic; the caller performs the
//! filesystem and git-metadata reads and feeds their outcomes in. One step
//! is either `next_dir`, which hands out the next directory to enumerate,
//! or `record_child`, which takes one enumerated child together with its
//! classification and updates the worklist, the visited set and the
//! project list.

use vstd::prelude::*;

verus! {

/// What the repository classifier says of one directory.
pub enum Classification {
    /// Not a git repository at all.
    NotARepo,
    /// A repository with its own working tree: an ordinary project.
    Repo,
    /// A bare repository, with the names of its linked worktrees.
    BareRepo { worktrees: Vec<String> },
}

/// The ghost form of a classification.
pub enum ClassView {
    NotARepo,
    Repo,
    BareRepo(Seq<Seq<char>>),
}

impl View for Classification {
    type V = ClassView;

    open spec fn view(&self) -> ClassView {
        match self {
            Classification::NotARepo => ClassView::NotARepo,
            Classification::Repo => ClassView::Repo,
            Classification::BareRepo { worktrees } => ClassView::BareRepo(paths_view(worktrees@)),
        }
    }
}

/// A vector of path strings as a sequence of character sequences.
pub open spec fn paths_view(v: Seq<String>) -> Seq<Seq<char>> {
    v.map_values(|p: String| p@)
}

/// No path occurs twice.
pub open spec fn paths_distinct(s: Seq<Seq<char>>) -> bool {
    forall|i: int, j: int| 0 <= i < j < s.len() ==> s[i] != s[j]
}

/// The ghost state of a discovery run.
pub struct ResolverModel {
    /// Directories still to be enumerated, popped from the back.
    pub worklist: Seq<Seq<char>>,
    /// Directories already taken up, never to be processed again.
    pub visited: Seq<Seq<char>>,
    /// The project paths found so far, each at most once.
    pub projects: Seq<Seq<char>>,
}

/// A child's path under its parent directory.
pub open spec fn spec_join(parent: Seq<char>, name: Seq<char>) -> Seq<char> {
    parent + "/"@ + name
}

/// Popping the next unvisited directory off the worklist: visited entries
/// are discarded, the first unvisited one is marked visited and handed out.
pub open spec fn pop_model(m: ResolverModel) -> (ResolverModel, Option<Seq<char>>)
    decreases m.worklist.len(),
{
    if m.worklist.len() == 0 {
        (m, None::<Seq<char>>)
    } else {
        let d = m.worklist.last();
        let m1 = ResolverModel { worklist: m.worklist.drop_last(), ..m };
        if m.visited.contains(d) {
            pop_model(m1)
        } else {
            (ResolverModel { visited: m1.visited.push(d), ..m1 }, Some(d))
        }
    }
}

/// Worktree paths `repo/w` appended to the project list in order, each
/// skipped when already present.
pub open spec fn add_worktrees(projects: Seq<Seq<char>>, repo: Seq<char>, ws: Seq<Seq<char>>) -> Seq<
    Seq<char>,
>
    decreases ws.len(),
{
    if ws.len() == 0 {
        projects
    } else {
        let w = spec_join(repo, ws[0]);
        let p1 = if projects.contains(w) {
            projects
        } else {
            projects.push(w)
        };
        add_worktrees(p1, repo, ws.drop_first())
    }
}

/// What one enumerated child does to the state. A non-directory, a child
/// named exactly the repository metadata directory `.git`, and an
/// already-visited (already-expanded) child change nothing. A bare
/// repository contributes its worktree paths and nothing else: it is
/// neither a project nor descended into. Every other child becomes a
/// project, once, and is queued for descent; it joins the visited set
/// only when `next_dir` later hands it out, so that its own children are
/// still enumerated exactly once.
pub open spec fn child_model(
    m: ResolverModel,
    parent: Seq<char>,
    name: Seq<char>,
    is_dir: bool,
    c: ClassView,
) -> ResolverModel {
    let child = spec_join(parent, name);
    if !is_dir || name == ".git"@ || m.visited.contains(child) {
        m
    } else {
        match c {
            ClassView::BareRepo(ws) => ResolverModel {
                projects: add_worktrees(m.projects, child, ws),
                ..m
            },
            _ => ResolverModel {
                worklist: m.worklist.push(child),
                visited: m.visited,
                projects: if m.projects.contains(child) {
                    m.projects
                } else {
                    m.projects.push(child)
                },
            },
        }
    }
}

/// The deduplicating worklist walk over directories.
pub struct Resolver {
    worklist: Vec<String>,
    visited: Vec<String>,
    projects: Vec<String>,
}

impl View for Resolver {
    type V = ResolverModel;

    closed spec fn view(&self) -> ResolverModel {
        ResolverModel {
            worklist: paths_view(self.worklist@),
            visited: paths_view(self.visited@),
            projects: paths_view(self.projects@),
        }
    }
}

/// Whether `v` holds a path equal to `x`.
fn vec_contains_path(v: &Vec<String>, x: &String) -> (r: bool)
    ensures
        r == paths_view(v@).contains(x@),
{
    let ghost s = paths_view(v@);
    let n = v.len();
    let mut i: usize = 0;
    while i < n
        invariant
            n == v@.len(),
            s == paths_view(v@),
            i <= n,
            forall|j: int| 0 <= j < i ==> s[j] != x@,
        decreases n - i,
    {
        if v[i] == *x {
            assert(s[i as int] == x@);
            return true;
        }
        assert(s[i as int] != x@);
        i += 1;
    }
    assert(!s.contains(x@));
    false
}

/// A child's path under its parent directory.
pub fn join_path(parent: &String, name: &String) -> (r: String)
    ensures
        r@ == spec_join(parent@, name@),
{
    let mut r = parent.clone();
    r.append("/");
    r.append(name.as_str());
    r
}

impl Resolver {
    /// Well-formedness: the visited set and the project list hold no path
    /// twice. That the project list is duplicate-free is the resolver's
    /// de-duplication guarantee.
    pub open spec fn wf(&self) -> bool {
        &&& paths_distinct(self@.visited)
        &&& paths_distinct(self@.projects)
    }

    /// A fresh run over the given root directories.
    pub fn new(roots: Vec<String>) -> (r: Resolver)
        ensures
            r.wf(),
            r@ == (ResolverModel {
                worklist: paths_view(roots@),
                visited: Seq::<Seq<char>>::empty(),
                projects: Seq::<Seq<char>>::empty(),
            }),
    {
        let r = Resolver { worklist: roots, visited: Vec::new(), projects: Vec::new() };
        proof {
            assert(paths_view(r.visited@) =~= Seq::<Seq<char>>::empty());
            assert(paths_view(r.projects@) =~= Seq::<Seq<char>>::empty());
        }
        r
    }

    /// The next directory to enumerate: already-visited worklist entries
    /// are skipped, the directory handed out is marked visited, and `None`
    /// means the walk is complete.
    pub fn next_dir(&mut self) -> (r: Option<String>)
        requires
            old(self).wf(),
        ensures
            final(self).wf(),
            final(self)@ == pop_model(old(self)@).0,
            match (r, pop_model(old(self)@).1) {
                (Some(x), Some(y)) => x@ == y,
                (None, None) => true,
                _ => false,
            },
    {
        loop
            invariant
                self.wf(),
                pop_model(self@) == pop_model(old(self)@),
            decreases self@.worklist.len(),
        {
            let ghost pre = self@;
            match self.worklist.pop() {
                None => {
                    return None;
                },
                Some(d) => {
                    proof {
                        assert(paths_view(self.worklist@) =~= pre.worklist.drop_last());
                        assert(pre.worklist.last() == d@);
                    }
                    if !vec_contains_path(&self.visited, &d) {
                        let ghost mid = self@;
                        self.visited.push(d.clone());
                        proof {
                            assert(paths_view(self.visited@) =~= mid.visited.push(d@));
                            assert forall|i: int, j: int|
                                0 <= i < j < self@.visited.len() implies self@.visited[i]
                                != self@.visited[j] by {
                                if j == self@.visited.len() - 1 {
                                    assert(mid.visited.contains(self@.visited[i]) == mid.visited.contains(
                                        mid.visited[i],
                                    ));
                                }
                            }
                        }
                        return Some(d);
                    }
                },
            }
        }
    }

    /// Whether an enumerated child is one the walk would take up: a
    /// directory, not named `.git`, and not visited yet. A caller may use
    /// this to classify only children that matter.
    pub fn wants_child(&self, parent: &String, name: &String, is_dir: bool) -> (r: bool)
        ensures
            r == (is_dir && name@ != ".git"@ && !self@.visited.contains(
                spec_join(parent@, name@),
            )),
    {
        if !is_dir {
            return false;
        }
        let dot_git = String::from_str(".git");
        if *name == dot_git {
            return false;
        }
        let child = join_path(parent, name);
        !vec_contains_path(&self.visited, &child)
    }

    /// Take up one enumerated child of `parent` with its classification.
    pub fn record_child(&mut self, parent: &String, name: &String, is_dir: bool, class:
        &Classification)
        requires
            old(self).wf(),
        ensures
            final(self).wf(),
            final(self)@ == child_model(old(self)@, parent@, name@, is_dir, class@),
    {
        let ghost m0 = self@;
        if !is_dir {
            return;
        }
        let dot_git = String::from_str(".git");
        if *name == dot_git {
            return;
        }
        let child = join_path(parent, name);
        if vec_contains_path(&self.visited, &child) {
            return;
        }
        match class {
            Classification::BareRepo { worktrees } => {
                let ghost ws = paths_view(worktrees@);
                proof {
                    assert(ws.skip(0) =~= ws);
                }
                let n = worktrees.len();
                let mut i: usize = 0;
                while i < n
                    invariant
                        n == ws.len(),
                        ws == paths_view(worktrees@),
                        i <= n,
                        paths_distinct(self@.projects),
                        self@.worklist == m0.worklist,
                        self@.visited == m0.visited,
                        child@ == spec_join(parent@, name@),
                        add_worktrees(self@.projects, child@, ws.skip(i as int)) == add_worktrees(
                            m0.projects,
                            child@,
                            ws,
                        ),
                    decreases n - i,
                {
                    let ghost pre = self@.projects;
                    let ghost rest = ws.skip(i as int);
                    proof {
                        assert(rest[0] == ws[i as int]);
                        assert(rest.drop_first() =~= ws.skip(i as int + 1));
                    }
                    let wp = join_path(&child, &worktrees[i]);
                    if !vec_contains_path(&self.projects, &wp) {
                        self.projects.push(wp);
                        proof {
                            assert(paths_view(self.projects@) =~= pre.push(
                                spec_join(child@, ws[i as int]),
                            ));
                            assert forall|a: int, b: int|
                                0 <= a < b < self@.projects.len() implies self@.projects[a]
                                != self@.projects[b] by {
                                if b == self@.projects.len() - 1 {
                                    assert(pre.contains(self@.projects[a]) == pre.contains(
                                        pre[a],
                                    ));
                                }
                            }
                        }
                    }
                    proof {
                        assert(add_worktrees(pre, child@, rest) == add_worktrees(
                            self@.projects,
                            child@,
                            rest.drop_first(),
                        ));
                    }
                    i += 1;
                }
                proof {
                    assert(ws.skip(n as int) =~= Seq::<Seq<char>>::empty());
                    assert(add_worktrees(self@.projects, child@, ws.skip(n as int))
                        == self@.projects);
                }
            },
            _ => {
                let ghost pre = self@;
                self.worklist.push(child.clone());
                let in_projects = vec_contains_path(&self.projects, &child);
                if !in_projects {
                    self.projects.push(child);
                }
                proof {
                    assert(paths_view(self.worklist@) =~= pre.worklist.push(
                        spec_join(parent@, name@),
                    ));
                    if !in_projects {
                        assert(paths_view(self.projects@) =~= pre.projects.push(
                            spec_join(parent@, name@),
                        ));
                    }
                    assert forall|a: int, b: int|
                        0 <= a < b < self@.projects.len() implies self@.projects[a]
                        != self@.projects[b] by {
                        if !in_projects && b == self@.projects.len() - 1 {
                            assert(pre.projects.contains(self@.projects[a]) == pre.projects.contains(
                                pre.projects[a],
                            ));
                        }
                    }
                }
            },
        }
    }

    /// The project paths found so far.
    pub fn projects(&self) -> (r: &Vec<String>)
        ensures
            paths_view(r@) == self@.projects,
    {
        &self.projects
    }
}

/// One step of a discovery run, as the resolver sees it: either the next
/// worklist pop, or one enumerated child with its classification.
pub enum DiscoveryEvent {
    Pop,
    Child { parent: Seq<char>, name: Seq<char>, is_dir: bool, class: ClassView },
}

/// The state after a whole run of steps, applied front first.
pub open spec fn run_model(m: ResolverModel, evs: Seq<DiscoveryEvent>) -> ResolverModel
    decreases evs.len(),
{
    if evs.len() == 0 {
        m
    } else {
        let m1 = match evs[0] {
            DiscoveryEvent::Pop => pop_model(m).0,
            DiscoveryEvent::Child { parent, name, is_dir, class } => child_model(
                m,
                parent,
                name,
                is_dir,
                class,
            ),
        };
        run_model(m1, evs.drop_first())
    }
}

/// Idempotent discovery: every step is a function of the state and the
/// event alone, so two runs that start equal and are answered alike by the
/// filesystem and the classifier end equal — in particular with identical
/// project sets.
pub proof fn lemma_discovery_deterministic(
    m1: ResolverModel,
    m2: ResolverModel,
    evs: Seq<DiscoveryEvent>,
)
    requires
        m1 == m2,
    ensures
        run_model(m1, evs) == run_model(m2, evs),
{
}

/// The worktree expansion never duplicates a project path.
pub proof fn lemma_add_worktrees_distinct(projects: Seq<Seq<char>>, repo: Seq<char>, ws: Seq<
    Seq<char>,
>)
    requires
        paths_distinct(projects),
    ensures
        paths_distinct(add_worktrees(projects, repo, ws)),
    decreases ws.len(),
{
    if ws.len() > 0 {
        let w = spec_join(repo, ws[0]);
        let p1 = if projects.contains(w) {
            projects
        } else {
            projects.push(w)
        };
        assert forall|i: int, j: int| 0 <= i < j < p1.len() implies p1[i] != p1[j] by {
            if j == projects.len() {
                assert(projects.contains(projects[i]));
            }
        }
        lemma_add_worktrees_distinct(p1, repo, ws.drop_first());
    }
}

/// Popping never touches the project list.
pub proof fn lemma_pop_keeps_projects(m: ResolverModel)
    ensures
        pop_model(m).0.projects == m.projects,
    decreases m.worklist.len(),
{
    if m.worklist.len() > 0 && m.visited.contains(m.worklist.last()) {
        lemma_pop_keeps_projects(ResolverModel { worklist: m.worklist.drop_last(), ..m });
    }
}

/// One enumerated child never duplicates a project path.
pub proof fn lemma_child_keeps_projects_distinct(
    m: ResolverModel,
    parent: Seq<char>,
    name: Seq<char>,
    is_dir: bool,
    c: ClassView,
)
    requires
        paths_distinct(m.projects),
    ensures
        paths_distinct(child_model(m, parent, name, is_dir, c).projects),
{
    let child = spec_join(parent, name);
    if is_dir && name != ".git"@ && !m.visited.contains(child) {
        match c {
            ClassView::BareRepo(ws) => {
                lemma_add_worktrees_distinct(m.projects, child, ws);
            },
            _ => {
                let p1 = child_model(m, parent, name, is_dir, c).projects;
                assert forall|i: int, j: int| 0 <= i < j < p1.len() implies p1[i] != p1[j] by {
                    if j == m.projects.len() {
                        assert(m.projects.contains(m.projects[i]));
                    }
                }
            },
        }
    }
}

/// No duplicates: a run of any steps from a state whose project list holds
/// no path twice ends with a project list that holds no path twice — the
/// result set contains each path at most once, however a path is reached.
pub proof fn lemma_run_keeps_projects_distinct(m: ResolverModel, evs: Seq<DiscoveryEvent>)
    requires
        paths_distinct(m.projects),
    ensures
        paths_distinct(run_model(m, evs).projects),
    decreases evs.len(),
{
    if evs.len() > 0 {
        let m1 = match evs[0] {
            DiscoveryEvent::Pop => pop_model(m).0,
            DiscoveryEvent::Child { parent, name, is_dir, class } => child_model(
                m,
                parent,
                name,
                is_dir,
                class,
            ),
        };
        match evs[0] {
            DiscoveryEvent::Pop => {
                lemma_pop_keeps_projects(m);
            },
            DiscoveryEvent::Child { parent, name, is_dir, class } => {
                lemma_child_keeps_projects_distinct(m, parent, name, is_dir, class);
            },
        }
        lemma_run_keeps_projects_distinct(m1, evs.drop_first());
    }
}

/// Everything the worktree expansion adds is a path strictly under the
/// repository: longer than the repository's own path.
pub proof fn lemma_add_worktrees_longer(projects: Seq<Seq<char>>, repo: Seq<char>, ws: Seq<
    Seq<char>,
>)
    ensures
        forall|x: Seq<char>| #[trigger]
            add_worktrees(projects, repo, ws).contains(x) ==> projects.contains(x) || x.len()
                > repo.len(),
    decreases ws.len(),
{
    if ws.len() > 0 {
        reveal_strlit("/");
        assert("/"@.len() == 1);
        let w = spec_join(repo, ws[0]);
        let p1 = if projects.contains(w) {
            projects
        } else {
            projects.push(w)
        };
        lemma_add_worktrees_longer(p1, repo, ws.drop_first());
        assert forall|x: Seq<char>| #[trigger]
            add_worktrees(projects, repo, ws).contains(x) implies projects.contains(x) || x.len()
            > repo.len() by {
            assert(add_worktrees(projects, repo, ws) == add_worktrees(p1, repo, ws.drop_first()));
            assert(add_worktrees(p1, repo, ws.drop_first()).contains(x));
            if p1.contains(x) && !projects.contains(x) {
                let i = choose|i: int| 0 <= i < p1.len() && p1[i] == x;
                if i < projects.len() {
                    assert(projects[i] == x);
                } else {
                    assert(x == w);
                }
            }
        }
    }
}

/// Bare-repo exclusion: a child reported as a bare repository contributes
/// only paths strictly below itself; its own path, absent before, is still
/// absent from the project list afterwards.
pub proof fn lemma_bare_repo_excluded(
    m: ResolverModel,
    parent: Seq<char>,
    name: Seq<char>,
    is_dir: bool,
    ws: Seq<Seq<char>>,
)
    requires
        !m.projects.contains(spec_join(parent, name)),
    ensures
        !child_model(m, parent, name, is_dir, ClassView::BareRepo(ws)).projects.contains(
            spec_join(parent, name),
        ),
{
    let child = spec_join(parent, name);
    if is_dir && name != ".git"@ && !m.visited.contains(child) {
        lemma_add_worktrees_longer(m.projects, child, ws);
    }
}

/// Metadata-directory exclusion: a child named exactly `.git` changes
/// nothing — it neither joins the project list nor the worklist.
pub proof fn lemma_metadata_dir_excluded(
    m: ResolverModel,
    parent: Seq<char>,
    is_dir: bool,
    c: ClassView,
)
    ensures
        child_model(m, parent, ".git"@, is_dir, c) == m,
{
}

} // verus!
