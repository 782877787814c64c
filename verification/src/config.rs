//! Configuration model: the shape of the configuration file, path
//! normalization of the user-supplied root and project strings, the sort
//! mode, and the assembly of the final configuration from the parsed file
//! and the discovered projects.

use vstd::prelude::*;

use crate::discover::paths_view;

verus! {

/// Lexicographic order on paths, by character code, shorter prefix first.
pub open spec fn lex_le(a: Seq<char>, b: Seq<char>) -> bool
    decreases a.len(),
{
    if a.len() == 0 {
        true
    } else if b.len() == 0 {
        false
    } else if (a[0] as u32) == (b[0] as u32) {
        lex_le(a.drop_first(), b.drop_first())
    } else {
        (a[0] as u32) < (b[0] as u32)
    }
}

/// Every path no later than each path after it.
pub open spec fn paths_sorted(s: Seq<Seq<char>>) -> bool {
    forall|i: int, j: int| 0 <= i < j < s.len() ==> lex_le(s[i], s[j])
}

/// The order is reflexive.
pub proof fn lemma_lex_refl(a: Seq<char>)
    ensures
        lex_le(a, a),
    decreases a.len(),
{
    if a.len() > 0 {
        lemma_lex_refl(a.drop_first());
    }
}

/// The order is total: two paths compare one way or the other.
pub proof fn lemma_lex_total(a: Seq<char>, b: Seq<char>)
    ensures
        lex_le(a, b) || lex_le(b, a),
    decreases a.len(),
{
    if a.len() > 0 && b.len() > 0 && (a[0] as u32) == (b[0] as u32) {
        lemma_lex_total(a.drop_first(), b.drop_first());
    }
}

/// The order is transitive.
pub proof fn lemma_lex_trans(a: Seq<char>, b: Seq<char>, c: Seq<char>)
    requires
        lex_le(a, b),
        lex_le(b, c),
    ensures
        lex_le(a, c),
    decreases a.len(),
{
    if a.len() > 0 {
        if (a[0] as u32) == (b[0] as u32) && (b[0] as u32) == (c[0] as u32) {
            lemma_lex_trans(a.drop_first(), b.drop_first(), c.drop_first());
        }
    }
}

/// Whether `a` sorts no later than `b`.
pub fn str_le(a: &String, b: &String) -> (r: bool)
    ensures
        r == lex_le(a@, b@),
{
    let an = a.as_str().unicode_len();
    let bn = b.as_str().unicode_len();
    let mut i: usize = 0;
    proof {
        assert(a@.skip(0) =~= a@);
        assert(b@.skip(0) =~= b@);
    }
    loop
        invariant
            an == a@.len(),
            bn == b@.len(),
            i <= an,
            i <= bn,
            lex_le(a@, b@) == lex_le(a@.skip(i as int), b@.skip(i as int)),
        decreases an - i,
    {
        let ghost sa = a@.skip(i as int);
        let ghost sb = b@.skip(i as int);
        if i >= an {
            proof {
                assert(sa.len() == 0);
            }
            return true;
        }
        if i >= bn {
            proof {
                assert(sa.len() > 0 && sb.len() == 0);
            }
            return false;
        }
        let ca = a.as_str().get_char(i);
        let cb = b.as_str().get_char(i);
        proof {
            assert(sa[0] == a@[i as int]);
            assert(sb[0] == b@[i as int]);
        }
        if (ca as u32) != (cb as u32) {
            return (ca as u32) < (cb as u32);
        }
        proof {
            assert(sa.drop_first() =~= a@.skip(i as int + 1));
            assert(sb.drop_first() =~= b@.skip(i as int + 1));
        }
        i += 1;
    }
}

/// Index of the path that sorts no later than every path in `v`.
fn min_lex_index(v: &Vec<String>) -> (m: usize)
    requires
        v@.len() >= 1,
    ensures
        m < v@.len(),
        forall|k: int| 0 <= k < v@.len() ==> lex_le(paths_view(v@)[m as int], paths_view(v@)[k]),
{
    let ghost s = paths_view(v@);
    let n = v.len();
    let mut best: usize = 0;
    let mut j: usize = 1;
    proof {
        lemma_lex_refl(s[0]);
    }
    while j < n
        invariant
            n == s.len(),
            s == paths_view(v@),
            1 <= j <= n,
            best < j,
            forall|k: int| 0 <= k < j ==> lex_le(s[best as int], s[k]),
        decreases n - j,
    {
        if !str_le(&v[best], &v[j]) {
            proof {
                lemma_lex_total(s[best as int], s[j as int]);
                assert forall|k: int| 0 <= k < j + 1 implies lex_le(s[j as int], s[k]) by {
                    if k < j {
                        lemma_lex_trans(s[j as int], s[best as int], s[k]);
                    } else {
                        lemma_lex_refl(s[j as int]);
                    }
                }
            }
            best = j;
        }
        j += 1;
    }
    best
}

/// The paths in ascending lexicographic order: the result is sorted and
/// holds exactly the input paths, multiplicity included.
pub fn sort_paths(v: Vec<String>) -> (r: Vec<String>)
    ensures
        paths_sorted(paths_view(r@)),
        paths_view(r@).to_multiset() == paths_view(v@).to_multiset(),
{
    broadcast use vstd::seq_lib::group_to_multiset_ensures;

    let ghost orig = v@;
    let mut rest = v;
    let mut out: Vec<String> = Vec::new();
    proof {
        assert(paths_view(out@).to_multiset().add(paths_view(rest@).to_multiset())
            =~= paths_view(orig).to_multiset());
    }
    while rest.len() > 0
        invariant
            paths_view(out@).to_multiset().add(paths_view(rest@).to_multiset()) == paths_view(
                orig,
            ).to_multiset(),
            paths_sorted(paths_view(out@)),
            forall|i: int, j: int|
                0 <= i < out@.len() && 0 <= j < rest@.len() ==> lex_le(
                    paths_view(out@)[i],
                    paths_view(rest@)[j],
                ),
        decreases rest.len(),
    {
        broadcast use vstd::seq_lib::group_to_multiset_ensures;

        let ghost pre_out = out@;
        let ghost pre_rest = rest@;
        let m = min_lex_index(&rest);
        let x = rest.remove(m);
        out.push(x);
        proof {
            assert(paths_view(rest@) =~= paths_view(pre_rest).remove(m as int));
            assert(paths_view(out@) =~= paths_view(pre_out).push(paths_view(pre_rest)[m as int]));
            assert(paths_view(out@).to_multiset().add(paths_view(rest@).to_multiset())
                =~= paths_view(pre_out).to_multiset().add(paths_view(pre_rest).to_multiset()));
            assert forall|i: int, j: int|
                0 <= i < j < paths_view(out@).len() implies lex_le(
                paths_view(out@)[i],
                paths_view(out@)[j],
            ) by {
                if j < paths_view(out@).len() - 1 {
                    assert(lex_le(paths_view(pre_out)[i], paths_view(pre_out)[j]));
                }
            }
            assert forall|i: int, j: int|
                0 <= i < out@.len() && 0 <= j < rest@.len() implies lex_le(
                paths_view(out@)[i],
                paths_view(rest@)[j],
            ) by {
                let rj = if j < m { j } else { j + 1 };
                assert(paths_view(rest@)[j] == paths_view(pre_rest)[rj]);
                if i < out@.len() - 1 {
                    assert(lex_le(paths_view(pre_out)[i], paths_view(pre_rest)[rj]));
                } else {
                    assert(lex_le(paths_view(pre_rest)[m as int], paths_view(pre_rest)[rj]));
                }
            }
        }
    }
    out
}

/// A user-supplied path with the home-directory shorthand expanded: `~/x`
/// becomes `home/x` and a bare `~` becomes the home directory itself;
/// anything else passes through unchanged.
pub open spec fn normalize_spec(raw: Seq<char>, home: Seq<char>) -> Seq<char> {
    if raw.len() >= 2 && raw[0] == '~' && raw[1] == '/' {
        home + raw.skip(1)
    } else if raw.len() == 1 && raw[0] == '~' {
        home
    } else {
        raw
    }
}

/// Expand the home-directory shorthand in one path string.
pub fn normalize_path(raw: &String, home: &String) -> (r: String)
    ensures
        r@ == normalize_spec(raw@, home@),
{
    let n = raw.as_str().unicode_len();
    if n >= 2 && raw.as_str().get_char(0) == '~' && raw.as_str().get_char(1) == '/' {
        let rest = raw.as_str().substring_char(1, n);
        let mut r = home.clone();
        r.append(rest);
        proof {
            assert(r@ =~= home@ + raw@.skip(1));
        }
        r
    } else if n == 1 && raw.as_str().get_char(0) == '~' {
        home.clone()
    } else {
        raw.clone()
    }
}

/// Expand the home-directory shorthand in each path of a list.
pub fn normalize_paths(raws: &Vec<String>, home: &String) -> (r: Vec<String>)
    ensures
        paths_view(r@) == paths_view(raws@).map_values(
            |p: Seq<char>| normalize_spec(p, home@),
        ),
{
    let ghost s = paths_view(raws@);
    let n = raws.len();
    let mut out: Vec<String> = Vec::new();
    let mut i: usize = 0;
    while i < n
        invariant
            n == s.len(),
            s == paths_view(raws@),
            i <= n,
            paths_view(out@).len() == i,
            forall|j: int| 0 <= j < i ==> paths_view(out@)[j] == normalize_spec(s[j], home@),
        decreases n - i,
    {
        let ghost pre = paths_view(out@);
        out.push(normalize_path(&raws[i], home));
        proof {
            assert(paths_view(out@) =~= pre.push(normalize_spec(s[i as int], home@)));
        }
        i += 1;
    }
    proof {
        assert(paths_view(out@) =~= s.map_values(|p: Seq<char>| normalize_spec(p, home@)));
    }
    out
}

/// The list without any occurrence of the current directory's path.
pub open spec fn drop_current(s: Seq<Seq<char>>, cur: Seq<char>) -> Seq<Seq<char>>
    decreases s.len(),
{
    if s.len() == 0 {
        Seq::<Seq<char>>::empty()
    } else {
        let rest = drop_current(s.drop_first(), cur);
        if s[0] == cur {
            rest
        } else {
            seq![s[0]] + rest
        }
    }
}

/// Remove every occurrence of the current directory from the list.
fn remove_current(v: &Vec<String>, current: &String) -> (r: Vec<String>)
    ensures
        paths_view(r@) == drop_current(paths_view(v@), current@),
{
    let ghost s = paths_view(v@);
    let n = v.len();
    let mut out: Vec<String> = Vec::new();
    let mut i: usize = 0;
    proof {
        assert(s.skip(0) =~= s);
        assert(paths_view(out@) =~= Seq::<Seq<char>>::empty());
        assert(paths_view(out@) + drop_current(s.skip(0), current@) =~= drop_current(
            s,
            current@,
        ));
    }
    while i < n
        invariant
            n == s.len(),
            s == paths_view(v@),
            i <= n,
            paths_view(out@) + drop_current(s.skip(i as int), current@) == drop_current(
                s,
                current@,
            ),
        decreases n - i,
    {
        let ghost pre = paths_view(out@);
        let ghost rest = s.skip(i as int);
        proof {
            assert(rest[0] == s[i as int]);
            assert(rest.drop_first() =~= s.skip(i as int + 1));
        }
        if !(v[i] == *current) {
            out.push(v[i].clone());
            proof {
                assert(paths_view(out@) =~= pre.push(s[i as int]));
                assert(drop_current(rest, current@) == seq![s[i as int]] + drop_current(
                    rest.drop_first(),
                    current@,
                ));
                assert(paths_view(out@) + drop_current(s.skip(i as int + 1), current@)
                    =~= pre + drop_current(rest, current@));
            }
        } else {
            proof {
                assert(drop_current(rest, current@) == drop_current(
                    rest.drop_first(),
                    current@,
                ));
            }
        }
        i += 1;
    }
    proof {
        assert(s.skip(n as int) =~= Seq::<Seq<char>>::empty());
        assert(paths_view(out@) + drop_current(s.skip(n as int), current@) =~= paths_view(out@));
    }
    out
}

/// How the project list is ranked for selection.
#[derive(Debug, PartialEq, Eq, Structural)]
pub enum SortMode {
    /// Ascending by path.
    Alphabetical,
    /// Most recently accessed first, by the recency cache.
    Recent,
}

impl Default for SortMode {
    /// The mode used when the configuration names none.
    fn default() -> (r: Self)
        ensures
            r == SortMode::Alphabetical,
    {
        SortMode::Alphabetical
    }
}

/// The lowercase form of a string. This names the result of
/// str::to_lowercase; no contract says what it is on given text.
pub uninterp spec fn lower_of(s: Seq<char>) -> Seq<char>;

/// Relies on str::to_lowercase: the lowercase form depends on the
/// characters alone.
#[verifier::external_body]
fn lowercase(s: &str) -> (r: String)
    ensures
        r@ == lower_of(s@),
{
    s.to_lowercase()
}

/// The sort mode a configuration string denotes: `recent`, compared
/// case-insensitively, asks for recency ranking; anything else falls back
/// to the alphabetical default.
pub open spec fn spec_sort_mode_of(s: Seq<char>) -> SortMode {
    if lower_of(s) == "recent"@ {
        SortMode::Recent
    } else {
        SortMode::Alphabetical
    }
}

impl From<&str> for SortMode {
    /// Parse a configured sort mode, falling back to the default on
    /// anything unrecognized.
    fn from(value: &str) -> (r: Self) {
        let lower = lowercase(value);
        if lower == String::from_str("recent") {
            SortMode::Recent
        } else {
            SortMode::Alphabetical
        }
    }
}

impl vstd::std_specs::convert::FromSpecImpl<&str> for SortMode {
    open spec fn obeys_from_spec() -> bool {
        true
    }

    open spec fn from_spec(v: &str) -> SortMode {
        spec_sort_mode_of(v@)
    }
}

/// The shape of the configuration file: root directories to scan, extra
/// project paths, whether to hide the current directory, the sort mode,
/// and an override for the cache store location.
#[derive(Debug)]
pub struct ConfigFileFormat {
    pub project_homes: Vec<String>,
    pub projects: Vec<String>,
    pub skip_current: bool,
    pub sort_mode: Option<String>,
    pub cache_path: Option<String>,
}

/// The assembled configuration: the final project list and the settings
/// that drive selection and the recency cache.
pub struct Config {
    pub projects: Vec<String>,
    pub skip_current: bool,
    pub sort_mode: SortMode,
    pub cache_path: String,
}

/// The project list before sorting: the explicit projects followed by the
/// discovered ones, with the current directory dropped when asked.
pub open spec fn combined_projects(
    explicit: Seq<Seq<char>>,
    discovered: Seq<Seq<char>>,
    skip_current: bool,
    current: Seq<char>,
) -> Seq<Seq<char>> {
    let all = explicit + discovered;
    if skip_current {
        drop_current(all, current)
    } else {
        all
    }
}

impl Config {
    /// The final configuration, from the normalized explicit projects, the
    /// discovered projects, and the remaining file settings. The project
    /// list is the explicit and discovered paths combined, the current
    /// directory dropped when `skip_current` asks, sorted ascending.
    /// `None` means no project remains to select from.
    pub fn assemble(
        explicit: Vec<String>,
        discovered: Vec<String>,
        skip_current: bool,
        current_dir: &String,
        sort_mode_raw: &Option<String>,
        cache_path_raw: Option<String>,
        cache_dir: &String,
    ) -> (r: Option<Config>)
        ensures
            ({
                let cp = combined_projects(
                    paths_view(explicit@),
                    paths_view(discovered@),
                    skip_current,
                    current_dir@,
                );
                match r {
                    None => cp.len() == 0,
                    Some(c) => {
                        &&& cp.len() > 0
                        &&& paths_sorted(paths_view(c.projects@))
                        &&& paths_view(c.projects@).to_multiset() == cp.to_multiset()
                        &&& c.skip_current == skip_current
                        &&& c.sort_mode == match sort_mode_raw {
                            Some(s) => spec_sort_mode_of(s@),
                            None => SortMode::Alphabetical,
                        }
                        &&& c.cache_path@ == match cache_path_raw {
                            Some(p) => p@,
                            None => cache_dir@ + "/tps/access_cache"@,
                        }
                    },
                }
            }),
    {
        let ghost ev = paths_view(explicit@);
        let ghost dv = paths_view(discovered@);
        let mut all = explicit;
        let mut tail = discovered;
        all.append(&mut tail);
        proof {
            assert(paths_view(all@) =~= ev + dv);
        }
        let kept = if skip_current {
            remove_current(&all, current_dir)
        } else {
            all
        };
        if kept.len() == 0 {
            return None;
        }
        let projects = sort_paths(kept);
        let sort_mode = match sort_mode_raw {
            Some(s) => SortMode::from(s.as_str()),
            None => SortMode::Alphabetical,
        };
        let cache_path = match cache_path_raw {
            Some(p) => p,
            None => {
                let mut p = cache_dir.clone();
                p.append("/tps/access_cache");
                p
            },
        };
        Some(Config { projects, skip_current, sort_mode, cache_path })
    }
}

} // verus!
