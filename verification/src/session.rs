//! Terminal-multiplexer session bookkeeping: the session records reported
//! by the multiplexer, the parser for its `list-sessions` line format, and
//! the projects built from a path and the known sessions.
//!
//! A session line has the shape `name: N windows (created date)`, with an
//! optional `(attached)` marker anywhere on the line. The name is the run
//! of non-space characters just before the first `: ` that such a tail
//! follows; the window count is the run of digits after it; the creation
//! date is everything between `(created ` and the next closing
//! parenthesis.

use vstd::prelude::*;

verus! {

/// One multiplexer session as reported by `list-sessions`.
#[derive(Debug)]
pub struct Session {
    pub name: String,
    pub window_count: u32,
    pub date_created: String,
    pub attached: bool,
}

/// The ghost form of a session record.
pub struct SessionView {
    pub name: Seq<char>,
    pub window_count: u32,
    pub date_created: Seq<char>,
    pub attached: bool,
}

impl View for Session {
    type V = SessionView;

    open spec fn view(&self) -> SessionView {
        SessionView {
            name: self.name@,
            window_count: self.window_count,
            date_created: self.date_created@,
            attached: self.attached,
        }
    }
}

impl Clone for Session {
    /// A copy with the same fields.
    fn clone(&self) -> (r: Self)
        ensures
            r@ == self@,
    {
        Session {
            name: self.name.clone(),
            window_count: self.window_count,
            date_created: self.date_created.clone(),
            attached: self.attached,
        }
    }
}

/// Whether `c` is an ASCII decimal digit.
pub open spec fn is_digit(c: char) -> bool {
    48 <= (c as u32) <= 57
}

/// The value of an ASCII digit.
pub open spec fn digit_val(c: char) -> int {
    (c as u32) - 48
}

/// The first index at or after `i` that does not hold a digit.
pub open spec fn digit_run_end(s: Seq<char>, i: int) -> int
    decreases s.len() - i,
{
    if i < 0 || i >= s.len() || !is_digit(s[i]) {
        i
    } else {
        digit_run_end(s, i + 1)
    }
}

/// The number the digits at `[i, j)` denote, most significant first.
pub open spec fn digits_value(s: Seq<char>, i: int, j: int) -> int
    decreases j - i,
{
    if j <= i {
        0
    } else {
        digits_value(s, i, j - 1) * 10 + digit_val(s[j - 1])
    }
}

/// The first index at or after `i` holding a closing parenthesis.
pub open spec fn find_close(s: Seq<char>, i: int) -> Option<int>
    decreases s.len() - i,
{
    if i < 0 || i >= s.len() {
        None::<int>
    } else if s[i] == ')' {
        Some(i)
    } else {
        find_close(s, i + 1)
    }
}

/// Whether the text at `i` is exactly `lit`.
pub open spec fn matches_lit(s: Seq<char>, i: int, lit: Seq<char>) -> bool {
    &&& 0 <= i
    &&& i + lit.len() <= s.len()
    &&& s.subrange(i, i + lit.len()) == lit
}

/// The start of the run of non-space characters ending just before `c`.
pub open spec fn name_start(s: Seq<char>, c: int) -> int
    decreases c,
{
    if c <= 0 || c > s.len() || s[c - 1] == ' ' {
        c
    } else {
        name_start(s, c - 1)
    }
}

/// Whether position `c` starts a valid session-line tail: `: `, at least
/// one digit, the literal ` windows (created `, and a closing parenthesis
/// somewhere after.
pub open spec fn valid_colon(s: Seq<char>, c: int) -> bool {
    &&& 0 <= c
    &&& c + 2 <= s.len()
    &&& s[c] == ':'
    &&& s[c + 1] == ' '
    &&& digit_run_end(s, c + 2) > c + 2
    &&& matches_lit(s, digit_run_end(s, c + 2), " windows (created "@)
    &&& find_close(s, digit_run_end(s, c + 2) + " windows (created "@.len()) is Some
}

/// The first position at or after `i` that starts a valid tail.
pub open spec fn first_valid_colon_from(s: Seq<char>, i: int) -> Option<int>
    decreases s.len() - i,
{
    if i < 0 || i >= s.len() {
        None::<int>
    } else if valid_colon(s, i) {
        Some(i)
    } else {
        first_valid_colon_from(s, i + 1)
    }
}

/// Whether the line carries the `(attached)` marker anywhere.
pub open spec fn has_attached(s: Seq<char>) -> bool {
    exists|i: int|
        0 <= i && i + "(attached)"@.len() <= s.len() && #[trigger] s.subrange(
            i,
            i + "(attached)"@.len(),
        ) == "(attached)"@
}

/// What a session line denotes: nothing when no valid tail exists or the
/// window count overflows, else the name, count, date and attached flag.
pub open spec fn parse_session_spec(s: Seq<char>) -> Option<SessionView> {
    match first_valid_colon_from(s, 0) {
        None => None::<SessionView>,
        Some(c) => {
            let d1 = digit_run_end(s, c + 2);
            let v = digits_value(s, c + 2, d1);
            if v > u32::MAX {
                None::<SessionView>
            } else {
                let date_from = d1 + " windows (created "@.len();
                Some(
                    SessionView {
                        name: s.subrange(name_start(s, c), c),
                        window_count: v as u32,
                        date_created: s.subrange(date_from, find_close(s, date_from).unwrap()),
                        attached: has_attached(s),
                    },
                )
            }
        },
    }
}

/// End of the digit run that starts at `i`.
fn scan_digit_run(line: &str, i: usize) -> (r: usize)
    requires
        i <= line@.len(),
    ensures
        r == digit_run_end(line@, i as int),
        i <= r <= line@.len(),
    decreases line@.len() - i,
{
    let ghost s = line@;
    let n = line.unicode_len();
    let mut j: usize = i;
    while j < n
        invariant
            n == s.len(),
            s == line@,
            i <= j <= n,
            digit_run_end(s, j as int) == digit_run_end(s, i as int),
        decreases n - j,
    {
        let c = line.get_char(j);
        if !((c as u32) >= 48 && (c as u32) <= 57) {
            assert(!is_digit(s[j as int]));
            assert(digit_run_end(s, j as int) == j);
            return j;
        }
        assert(is_digit(s[j as int]));
        assert(digit_run_end(s, j as int) == digit_run_end(s, j as int + 1));
        j += 1;
    }
    assert(digit_run_end(s, j as int) == j);
    j
}

/// First closing parenthesis at or after `i`.
fn scan_close(line: &str, i: usize) -> (r: Option<usize>)
    requires
        i <= line@.len(),
    ensures
        match r {
            Some(j) => Some(j as int) == find_close(line@, i as int) && i <= j < line@.len(),
            None => find_close(line@, i as int) is None,
        },
{
    let ghost s = line@;
    let n = line.unicode_len();
    let mut j: usize = i;
    while j < n
        invariant
            n == s.len(),
            s == line@,
            i <= j <= n,
            find_close(s, j as int) == find_close(s, i as int),
        decreases n - j,
    {
        if line.get_char(j) == ')' {
            assert(find_close(s, j as int) == Some(j as int));
            return Some(j);
        }
        assert(find_close(s, j as int) == find_close(s, j as int + 1));
        j += 1;
    }
    assert(find_close(s, j as int) is None);
    None
}

/// Whether the text at `i` is exactly ` windows (created `.
fn windows_lit_at(line: &str, i: usize) -> (r: bool)
    requires
        i <= line@.len(),
    ensures
        r == matches_lit(line@, i as int, " windows (created "@),
{
    let ghost s = line@;
    let ghost lit = " windows (created "@;
    proof {
        reveal_strlit(" windows (created ");
        assert(lit.len() == 18);
    }
    let n = line.unicode_len();
    if i > n || n - i < 18 {
        return false;
    }
    let pat = " windows (created ";
    proof {
        assert(pat@ == lit);
    }
    let mut k: usize = 0;
    while k < 18
        invariant
            n == s.len(),
            s == line@,
            lit == " windows (created "@,
            pat@ == lit,
            lit.len() == 18,
            i + 18 <= n,
            k <= 18,
            forall|t: int| 0 <= t < k ==> s[i + t] == lit[t],
        decreases 18 - k,
    {
        proof {
            reveal_strlit(" windows (created ");
        }
        let ca = line.get_char(i + k);
        let cb = pat.get_char(k);
        if ca != cb {
            proof {
                if s.subrange(i as int, i as int + 18) == lit {
                    assert(s.subrange(i as int, i as int + 18)[k as int] == s[i + k]);
                }
            }
            return false;
        }
        k += 1;
    }
    proof {
        assert(s.subrange(i as int, i as int + 18) =~= lit);
    }
    true
}

/// Whether the text at `i` is exactly `(attached)`.
fn attached_lit_at(line: &str, i: usize) -> (r: bool)
    requires
        i + "(attached)"@.len() <= line@.len(),
    ensures
        r == (line@.subrange(i as int, i as int + "(attached)"@.len()) == "(attached)"@),
{
    let ghost s = line@;
    let ghost lit = "(attached)"@;
    proof {
        reveal_strlit("(attached)");
        assert(lit.len() == 10);
    }
    let n = line.unicode_len();
    let pat = "(attached)";
    proof {
        assert(pat@ == lit);
    }
    let mut k: usize = 0;
    while k < 10
        invariant
            n == s.len(),
            s == line@,
            lit == "(attached)"@,
            pat@ == lit,
            lit.len() == 10,
            i + 10 <= n,
            k <= 10,
            forall|t: int| 0 <= t < k ==> s[i + t] == lit[t],
        decreases 10 - k,
    {
        proof {
            reveal_strlit("(attached)");
        }
        let ca = line.get_char(i + k);
        let cb = pat.get_char(k);
        if ca != cb {
            proof {
                if s.subrange(i as int, i as int + 10) == lit {
                    assert(s.subrange(i as int, i as int + 10)[k as int] == s[i + k]);
                }
            }
            return false;
        }
        k += 1;
    }
    proof {
        assert(s.subrange(i as int, i as int + 10) =~= lit);
    }
    true
}

/// Whether the line carries the `(attached)` marker anywhere.
fn scan_attached(line: &str) -> (r: bool)
    ensures
        r == has_attached(line@),
{
    let ghost s = line@;
    let ghost lit = "(attached)"@;
    proof {
        reveal_strlit("(attached)");
        assert(lit.len() == 10);
    }
    let n = line.unicode_len();
    if n < 10 {
        proof {
            assert forall|i: int|
                0 <= i && i + lit.len() <= s.len() implies #[trigger] s.subrange(i, i + lit.len())
                != lit by {
                assert(i + 10 <= s.len());
            }
        }
        return false;
    }
    let mut i: usize = 0;
    while i <= n - 10
        invariant
            n == s.len(),
            s == line@,
            lit == "(attached)"@,
            lit.len() == 10,
            n >= 10,
            i <= n - 10 + 1,
            forall|j: int| 0 <= j < i ==> #[trigger] s.subrange(j, j + lit.len()) != lit,
        decreases n - i,
    {
        if attached_lit_at(line, i) {
            assert(s.subrange(i as int, i as int + lit.len()) == lit);
            return true;
        }
        assert(s.subrange(i as int, i as int + lit.len()) != lit);
        i += 1;
    }
    proof {
        assert forall|j: int|
            0 <= j && j + lit.len() <= s.len() implies #[trigger] s.subrange(j, j + lit.len())
            != lit by {
            assert(j < i);
        }
    }
    false
}

/// Start of the run of non-space characters ending just before `c`.
fn scan_name_start(line: &str, c: usize) -> (r: usize)
    requires
        c <= line@.len(),
    ensures
        r == name_start(line@, c as int),
        r <= c,
{
    let ghost s = line@;
    let mut b: usize = c;
    while b > 0
        invariant
            s == line@,
            b <= c <= s.len(),
            name_start(s, b as int) == name_start(s, c as int),
        decreases b,
    {
        if line.get_char(b - 1) == ' ' {
            assert(name_start(s, b as int) == b);
            return b;
        }
        assert(name_start(s, b as int) == name_start(s, b as int - 1));
        b -= 1;
    }
    assert(name_start(s, 0) == 0);
    b
}

/// The number a digit run denotes, or `None` past the `u32` range.
fn digits_to_u32(line: &str, i: usize, j: usize) -> (r: Option<u32>)
    requires
        i < j <= line@.len(),
        forall|k: int| i <= k < j ==> is_digit(#[trigger] line@[k]),
    ensures
        match r {
            Some(v) => digits_value(line@, i as int, j as int) == v,
            None => digits_value(line@, i as int, j as int) > u32::MAX,
        },
{
    let ghost s = line@;
    let mut val: u64 = 0;
    let mut k: usize = i;
    while k < j
        invariant
            s == line@,
            i <= k <= j <= s.len(),
            forall|t: int| i <= t < j ==> is_digit(#[trigger] s[t]),
            val == digits_value(s, i as int, k as int),
            val <= u32::MAX,
        decreases j - k,
    {
        let c = line.get_char(k);
        assert(is_digit(s[k as int]));
        let d = (c as u32) - 48;
        let next: u64 = val * 10 + (d as u64);
        proof {
            assert(next == digits_value(s, i as int, k as int + 1));
        }
        if next > u32::MAX as u64 {
            proof {
                lemma_digits_value_mono(s, i as int, k as int + 1, j as int);
            }
            return None;
        }
        val = next;
        k += 1;
    }
    Some(val as u32)
}

/// Whether position `c` starts a valid session-line tail.
fn check_valid_colon(line: &str, c: usize) -> (r: bool)
    requires
        c < line@.len(),
    ensures
        r == valid_colon(line@, c as int),
{
    let ghost s = line@;
    let n = line.unicode_len();
    if line.get_char(c) != ':' {
        return false;
    }
    if n - c < 2 {
        return false;
    }
    if line.get_char(c + 1) != ' ' {
        return false;
    }
    let d1 = scan_digit_run(line, c + 2);
    if d1 == c + 2 {
        proof {
            assert(digit_run_end(s, c as int + 2) == c as int + 2);
        }
        return false;
    }
    if !windows_lit_at(line, d1) {
        return false;
    }
    proof {
        reveal_strlit(" windows (created ");
        assert(" windows (created "@.len() == 18);
        assert(d1 + 18 <= n);
    }
    match scan_close(line, d1 + 18) {
        Some(_) => true,
        None => false,
    }
}

/// The digit run holds digits and ends within the text.
proof fn lemma_digit_run(s: Seq<char>, i: int)
    requires
        0 <= i <= s.len(),
    ensures
        i <= digit_run_end(s, i) <= s.len(),
        forall|k: int| i <= k < digit_run_end(s, i) ==> is_digit(#[trigger] s[k]),
    decreases s.len() - i,
{
    if i < s.len() && is_digit(s[i]) {
        lemma_digit_run(s, i + 1);
    }
}

/// Parse one `list-sessions` line into a session record, or nothing when
/// the line does not have the session shape.
pub fn parse_session_line(line: &String) -> (r: Option<Session>)
    ensures
        match (r, parse_session_spec(line@)) {
            (Some(x), Some(y)) => x@ == y,
            (None, None) => true,
            _ => false,
        },
{
    let ghost s = line@;
    let ls = line.as_str();
    let n = ls.unicode_len();
    let mut c: usize = 0;
    while c < n
        invariant
            n == s.len(),
            s == line@,
            ls@ == s,
            c <= n,
            first_valid_colon_from(s, c as int) == first_valid_colon_from(s, 0),
        decreases n - c,
    {
        if check_valid_colon(ls, c) {
            proof {
                assert(first_valid_colon_from(s, c as int) == Some(c as int));
            }
            let d1 = scan_digit_run(ls, c + 2);
            proof {
                lemma_digit_run(s, c as int + 2);
            }
            match digits_to_u32(ls, c + 2, d1) {
                None => {
                    return None;
                },
                Some(wv) => {
                    proof {
                        reveal_strlit(" windows (created ");
                        assert(" windows (created "@.len() == 18);
                        assert(d1 + 18 <= n);
                    }
                    match scan_close(ls, d1 + 18) {
                        None => {
                            proof {
                                assert(false);
                            }
                            return None;
                        },
                        Some(k) => {
                            let b = scan_name_start(ls, c);
                            let name = String::from_str(ls.substring_char(b, c));
                            let date = String::from_str(ls.substring_char(d1 + 18, k));
                            let att = scan_attached(ls);
                            return Some(
                                Session {
                                    name,
                                    window_count: wv,
                                    date_created: date,
                                    attached: att,
                                },
                            );
                        },
                    }
                },
            }
        }
        proof {
            assert(first_valid_colon_from(s, c as int) == first_valid_colon_from(s, c as int + 1));
        }
        c += 1;
    }
    proof {
        assert(first_valid_colon_from(s, c as int) is None);
    }
    None
}

/// The session name a path gets: the path with each `.` replaced by `_`.
pub open spec fn sanitize_spec(s: Seq<char>) -> Seq<char> {
    s.map_values(|c: char| if c == '.' { '_' } else { c })
}

/// The path with each `.` replaced by `_`, usable as a session name.
pub fn sanitize_session_name(path: &String) -> (r: String)
    ensures
        r@ == sanitize_spec(path@),
{
    let ghost s = path@;
    let ps = path.as_str();
    let n = ps.unicode_len();
    let mut out = String::new();
    let mut i: usize = 0;
    while i < n
        invariant
            n == s.len(),
            s == path@,
            ps@ == s,
            i <= n,
            out@.len() == i,
            forall|j: int| 0 <= j < i ==> out@[j] == (if s[j] == '.' { '_' } else { s[j] }),
        decreases n - i,
    {
        let ghost pre = out@;
        let ch = ps.get_char(i);
        if ch == '.' {
            out.append("_");
            proof {
                reveal_strlit("_");
                assert(out@ =~= pre.push('_'));
            }
        } else {
            let one = ps.substring_char(i, i + 1);
            out.append(one);
            proof {
                assert(one@ =~= seq![s[i as int]]);
                assert(out@ =~= pre.push(s[i as int]));
            }
        }
        i += 1;
    }
    proof {
        assert(out@ =~= sanitize_spec(s));
    }
    out
}

/// A selectable project: its path, the name shown for it, the session
/// name it would use, and the multiplexer session already open for it.
#[derive(Debug)]
pub struct Project {
    pub path: String,
    pub path_name: String,
    pub session_name: String,
    pub session: Option<Session>,
}

/// The sessions' ghost records.
pub open spec fn sessions_view(v: Seq<Session>) -> Seq<SessionView> {
    v.map_values(|x: Session| x@)
}

/// Index of the first session named exactly `target`, if any.
pub open spec fn first_session_match(v: Seq<SessionView>, target: Seq<char>) -> Option<int>
    decreases v.len(),
{
    if v.len() == 0 {
        None::<int>
    } else if v[0].name == target {
        Some(0)
    } else {
        match first_session_match(v.drop_first(), target) {
            None => None::<int>,
            Some(i) => Some(i + 1),
        }
    }
}

/// `first_session_match` is the first matching index, and `None` exactly
/// when no session matches.
pub proof fn lemma_first_session_match(v: Seq<SessionView>, target: Seq<char>)
    ensures
        match first_session_match(v, target) {
            Some(i) => {
                &&& 0 <= i < v.len()
                &&& v[i].name == target
                &&& forall|j: int| 0 <= j < i ==> v[j].name != target
            },
            None => forall|j: int| 0 <= j < v.len() ==> v[j].name != target,
        },
    decreases v.len(),
{
    if v.len() > 0 && v[0].name != target {
        let sub = v.drop_first();
        lemma_first_session_match(sub, target);
        assert(forall|j: int| 0 <= j < sub.len() ==> sub[j] == v[j + 1]);
        match first_session_match(sub, target) {
            Some(i) => {
                assert(v[i + 1] == sub[i]);
                assert forall|j: int| 0 <= j < i + 1 implies v[j].name != target by {
                    if j > 0 {
                        assert(sub[j - 1] == v[j]);
                    }
                }
            },
            None => {
                assert forall|j: int| 0 <= j < v.len() implies v[j].name != target by {
                    if j > 0 {
                        assert(sub[j - 1] == v[j]);
                    }
                }
            },
        }
    }
}

impl Project {
    /// A project at `path`: its display name is the path itself, its
    /// session name the sanitized path, and its session a copy of the
    /// first reported one whose name equals the path, if any.
    pub fn new(path: String, sessions: &Vec<Session>) -> (r: Project)
        ensures
            r.path@ == path@,
            r.path_name@ == path@,
            r.session_name@ == sanitize_spec(path@),
            match (r.session, first_session_match(sessions_view(sessions@), path@)) {
                (Some(sess), Some(i)) => sess@ == sessions_view(sessions@)[i],
                (None, None) => true,
                _ => false,
            },
    {
        let ghost sv = sessions_view(sessions@);
        proof {
            lemma_first_session_match(sv, path@);
        }
        let path_name = path.clone();
        let session_name = sanitize_session_name(&path);
        let n = sessions.len();
        let mut i: usize = 0;
        while i < n
            invariant
                n == sv.len(),
                sv == sessions_view(sessions@),
                i <= n,
                path_name@ == path@,
                session_name@ == sanitize_spec(path@),
                forall|j: int| 0 <= j < i ==> sv[j].name != path@,
            decreases n - i,
        {
            if sessions[i].name == path {
                proof {
                    assert(sv[i as int].name == path@);
                    lemma_first_session_match(sv, path@);
                    let fm = first_session_match(sv, path@);
                    if fm is None {
                        assert(sv[i as int].name != path@);
                    }
                    let fi = fm.unwrap();
                    if fi < i {
                        assert(sv[fi].name != path@);
                    }
                    if fi > i {
                        assert(sv[i as int].name != path@);
                    }
                }
                let sess = sessions[i].clone();
                return Project { path, path_name, session_name, session: Some(sess) };
            }
            i += 1;
        }
        proof {
            lemma_first_session_match(sv, path@);
            if first_session_match(sv, path@) is Some {
                let fi = first_session_match(sv, path@).unwrap();
                assert(sv[fi].name != path@);
            }
        }
        Project { path, path_name, session_name, session: None }
    }
}

/// A digit run denotes a value that only grows as the run extends.
proof fn lemma_digits_value_mono(s: Seq<char>, i: int, j1: int, j2: int)
    requires
        0 <= i,
        j2 <= s.len(),
        i <= j1 <= j2,
        forall|k: int| i <= k < j2 ==> is_digit(#[trigger] s[k]),
    ensures
        0 <= digits_value(s, i, j1) <= digits_value(s, i, j2),
    decreases j2 - i,
{
    if j2 > i {
        if j1 == j2 {
            assert(is_digit(s[j2 - 1]));
            lemma_digits_value_mono(s, i, j2 - 1, j2 - 1);
        } else {
            assert(is_digit(s[j2 - 1]));
            lemma_digits_value_mono(s, i, j1, j2 - 1);
        }
    }
}

} // verus!
