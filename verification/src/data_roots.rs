//! Which folders make up an application's real size: its install folder (or the
//! folder of its icon) plus the data folders whose names match the application's.
use vstd::prelude::*;
use vstd::utf8::encode_utf8;
use crate::entry::{AppSizeUpdate, InstalledApp};
use crate::text::{
    char_lowercase, chars_equal, chars_of, is_alphanumeric, is_prefix, lowercase, lowercase_char,
    starts_with, str_lowercase, unicode_alphanumeric,
};

verus! {

broadcast use vstd::seq_lib::group_to_multiset_ensures;

/// The length of `s` in UTF-8 bytes, as `str::len` reports it.
pub open spec fn byte_len(s: Seq<char>) -> usize {
    encode_utf8(s).len() as usize
}

/// `s` reduced to its alphanumeric characters, each lower-cased
/// ("Visual Studio Code" becomes "visualstudiocode").
pub open spec fn normalized(s: Seq<char>) -> Seq<char>
    decreases s.len(),
{
    if s.len() == 0 {
        Seq::empty()
    } else {
        normalized(s.drop_last()) + if unicode_alphanumeric(s.last()) {
            char_lowercase(s.last())
        } else {
            Seq::empty()
        }
    }
}

/// The normalized form of a name whose characters are alphanumeric where `alnum` says
/// so and lower-case to `lowers`: the lower-case forms of the alphanumeric ones, in order.
pub open spec fn normalized_parts(alnum: Seq<bool>, lowers: Seq<Vec<char>>) -> Seq<char>
    decreases alnum.len(),
{
    if alnum.len() == 0 {
        Seq::empty()
    } else {
        normalized_parts(alnum.drop_last(), lowers.drop_last()) + if alnum.last() {
            lowers[alnum.len() - 1]@
        } else {
            Seq::empty()
        }
    }
}

/// Joins the lower-case forms of the characters flagged alphanumeric; `alnum[i]` and
/// `lowers[i]` describe the same character.
pub fn normalize_parts(alnum: &[bool], lowers: &[Vec<char>]) -> (r: String)
    requires
        alnum@.len() == lowers@.len(),
    ensures
        r@ == normalized_parts(alnum@, lowers@),
{
    let mut r = String::new();
    let mut i: usize = 0;
    assert(alnum@.take(0) =~= Seq::<bool>::empty());
    while i < alnum.len()
        invariant
            alnum@.len() == lowers@.len(),
            i <= alnum@.len(),
            r@ == normalized_parts(alnum@.take(i as int), lowers@.take(i as int)),
        decreases alnum@.len() - i,
    {
        assert(alnum@.take(i + 1).drop_last() =~= alnum@.take(i as int));
        assert(lowers@.take(i + 1).drop_last() =~= lowers@.take(i as int));
        assert(lowers@.take(i + 1)[i as int] == lowers@[i as int]);
        if alnum[i] {
            let lower = &lowers[i];
            let mut k: usize = 0;
            let ghost base = r@;
            while k < lower.len()
                invariant
                    k <= lower@.len(),
                    r@ == base + lower@.take(k as int),
                decreases lower@.len() - k,
            {
                crate::text::push_char(&mut r, lower[k]);
                k = k + 1;
                assert(r@ =~= base + lower@.take(k as int));
            }
            assert(lower@.take(k as int) =~= lower@);
        } else {
            assert(r@ =~= r@ + Seq::<char>::empty());
        }
        i = i + 1;
    }
    assert(alnum@.take(i as int) =~= alnum@);
    assert(lowers@.take(i as int) =~= lowers@);
    r
}

proof fn lemma_normalized_parts(s: Seq<char>, alnum: Seq<bool>, lowers: Seq<Vec<char>>)
    requires
        alnum.len() == s.len(),
        lowers.len() == s.len(),
        forall|k: int| 0 <= k < s.len() ==> #[trigger] alnum[k] == unicode_alphanumeric(s[k]),
        forall|k: int| 0 <= k < s.len() ==> #[trigger] lowers[k]@ == char_lowercase(s[k]),
    ensures
        normalized_parts(alnum, lowers) == normalized(s),
    decreases s.len(),
{
    if s.len() > 0 {
        let n = s.len() - 1;
        assert(alnum[n] == unicode_alphanumeric(s[n]));
        assert(lowers[n]@ == char_lowercase(s[n]));
        lemma_normalized_parts(s.drop_last(), alnum.drop_last(), lowers.drop_last());
    }
}

/// Keeps the alphanumeric characters of `s`, lower-cased.
pub fn normalize(s: &str) -> (r: String)
    ensures
        r@ == normalized(s@),
{
    let chars = chars_of(s);
    let mut alnum: Vec<bool> = Vec::new();
    let mut lowers: Vec<Vec<char>> = Vec::new();
    let mut i: usize = 0;
    while i < chars.len()
        invariant
            chars@ == s@,
            i <= chars@.len(),
            alnum@.len() == i,
            lowers@.len() == i,
            forall|k: int| 0 <= k < i ==> #[trigger] alnum@[k] == unicode_alphanumeric(s@[k]),
            forall|k: int| 0 <= k < i ==> #[trigger] lowers@[k]@ == char_lowercase(s@[k]),
        decreases chars@.len() - i,
    {
        let c = chars[i];
        alnum.push(is_alphanumeric(c));
        lowers.push(lowercase_char(c));
        i = i + 1;
    }
    proof {
        lemma_normalized_parts(s@, alnum@, lowers@);
    }
    normalize_parts(&alnum, &lowers)
}

/// The strong match between a data folder name and an application name (both
/// normalized): equal, or the shorter (in characters) has at least 4 characters, is a
/// prefix of the longer, and the longer is at most twice as long.
pub open spec fn strong_match_spec(folder: Seq<char>, app: Seq<char>) -> bool {
    if folder.len() == 0 || app.len() == 0 {
        false
    } else if folder == app {
        true
    } else {
        let short = if folder.len() <= app.len() {
            folder
        } else {
            app
        };
        let long = if folder.len() <= app.len() {
            app
        } else {
            folder
        };
        short.len() >= 4 && is_prefix(short, long) && long.len() <= short.len() * 2
    }
}

/// Decides whether a data folder belongs to an application, by their normalized
/// names, keeping false positives rare.
pub fn strong_match(folder: &str, app: &str) -> (r: bool)
    ensures
        r == strong_match_spec(folder@, app@),
{
    let f = chars_of(folder);
    let a = chars_of(app);
    if f.len() == 0 || a.len() == 0 {
        return false;
    }
    if chars_equal(&f, &a) {
        return true;
    }
    let flen: usize = f.len();
    let alen: usize = a.len();
    if flen <= alen {
        flen >= 4 && starts_with(&a, &f) && alen - flen <= flen
    } else {
        alen >= 4 && starts_with(&f, &a) && flen - alen <= alen
    }
}

/// Data folders found under the per-user and machine-wide application data roots:
/// pairs of (normalized folder name, full path).
#[derive(Debug, Clone, PartialEq, Eq)]
pub struct AppDataIndex {
    pub entries: Vec<(String, String)>,
}

/// The paths of the entries whose folder name strongly matches `app`, in order.
pub open spec fn matching_paths(entries: Seq<(String, String)>, app: Seq<char>) -> Seq<String>
    decreases entries.len(),
{
    if entries.len() == 0 {
        Seq::empty()
    } else {
        matching_paths(entries.drop_last(), app) + if strong_match_spec(entries.last().0@, app) {
            seq![entries.last().1]
        } else {
            Seq::empty()
        }
    }
}

/// The data folders matched to an application name: none for names under 4 bytes
/// (too likely to match by accident).
pub open spec fn matches_spec(entries: Seq<(String, String)>, app: Seq<char>) -> Seq<String> {
    if byte_len(app) < 4 {
        Seq::empty()
    } else {
        matching_paths(entries, app)
    }
}

impl AppDataIndex {
    /// An empty index.
    pub fn new() -> (r: Self)
        ensures
            r.entries@ == Seq::<(String, String)>::empty(),
    {
        AppDataIndex { entries: Vec::new() }
    }

    /// Records a data folder: its name is normalized, its path kept as given.
    pub fn add(&mut self, folder_name: &str, path: String)
        ensures
            final(self).entries@.len() == old(self).entries@.len() + 1,
            final(self).entries@.drop_last() == old(self).entries@,
            final(self).entries@.last().0@ == normalized(folder_name@),
            final(self).entries@.last().1 == path,
    {
        let name = normalize(folder_name);
        self.entries.push((name, path));
        assert(self.entries@.drop_last() =~= old(self).entries@);
    }

    /// The paths of the data folders that strongly match the normalized application name.
    pub fn matches(&self, app_norm: &str) -> (r: Vec<String>)
        ensures
            r@ == matches_spec(self.entries@, app_norm@),
    {
        let mut r: Vec<String> = Vec::new();
        if app_norm.len() < 4 {
            return r;
        }
        let mut i: usize = 0;
        assert(self.entries@.take(0) =~= Seq::<(String, String)>::empty());
        while i < self.entries.len()
            invariant
                i <= self.entries@.len(),
                r@ == matching_paths(self.entries@.take(i as int), app_norm@),
            decreases self.entries@.len() - i,
        {
            let e = &self.entries[i];
            assert(self.entries@.take(i + 1).drop_last() =~= self.entries@.take(i as int));
            assert(self.entries@.take(i + 1).last() == self.entries@[i as int]);
            if strong_match(e.0.as_str(), app_norm) {
                r.push(e.1.clone());
            } else {
                assert(r@ =~= r@ + Seq::<String>::empty());
            }
            i = i + 1;
        }
        assert(self.entries@.take(i as int) =~= self.entries@);
        r
    }
}


/// The folders searched for application data, in order: the roaming folder, the
/// `LocalLow` folder beside the local one, the local folder, then the machine-wide
/// one; each only where known.
pub open spec fn appdata_roots_spec(
    roaming: Option<String>,
    local_low: Option<String>,
    local: Option<String>,
    program_data: Option<String>,
) -> Seq<String> {
    let a = if roaming is Some { seq![roaming->0] } else { Seq::empty() };
    let b = if local is Some && local_low is Some { seq![local_low->0] } else { Seq::empty() };
    let c = if local is Some { seq![local->0] } else { Seq::empty() };
    let d = if program_data is Some { seq![program_data->0] } else { Seq::empty() };
    a + b + c + d
}

/// Lists the application data folders to index. `local_low` is the `LocalLow` folder
/// next to `local`; it is used only when `local` is known.
pub fn appdata_roots(
    roaming: Option<String>,
    local_low: Option<String>,
    local: Option<String>,
    program_data: Option<String>,
) -> (r: Vec<String>)
    ensures
        r@ == appdata_roots_spec(roaming, local_low, local, program_data),
{
    let ghost spec_value = appdata_roots_spec(roaming, local_low, local, program_data);
    let mut v: Vec<String> = Vec::new();
    if let Some(p) = roaming {
        v.push(p);
    }
    if let Some(l) = local {
        if let Some(ll) = local_low {
            v.push(ll);
        }
        v.push(l);
    }
    if let Some(p) = program_data {
        v.push(p);
    }
    assert(v@ =~= spec_value);
    v
}

/// Inserting `x` into a list ordered by byte length, after every path that is not longer.
pub open spec fn insert_by_len(t: Seq<String>, x: String) -> Seq<String>
    decreases t.len(),
{
    if t.len() == 0 {
        seq![x]
    } else if byte_len(t.last()@) <= byte_len(x@) {
        t.push(x)
    } else {
        insert_by_len(t.drop_last(), x).push(t.last())
    }
}

/// `s` stably sorted by byte length, shortest first.
pub open spec fn sort_by_len(s: Seq<String>) -> Seq<String>
    decreases s.len(),
{
    if s.len() == 0 {
        Seq::empty()
    } else {
        insert_by_len(sort_by_len(s.drop_last()), s.last())
    }
}

/// Folder `k` covers folder `r` (ignoring case): it is the same folder or an ancestor.
pub open spec fn covers(k: Seq<char>, r: Seq<char>) -> bool {
    let kl = str_lowercase(k);
    let rl = str_lowercase(r);
    rl == kl || is_prefix(kl.push('\\'), rl)
}

/// Some folder before position `i` of `s` covers `s[i]`.
pub open spec fn covered_before(s: Seq<String>, i: int) -> bool {
    exists|j: int| 0 <= j < i && #[trigger] covers(s[j]@, s[i]@)
}

/// The folders of `s` that no earlier folder covers, in order.
pub open spec fn uncovered(s: Seq<String>) -> Seq<String>
    decreases s.len(),
{
    if s.len() == 0 {
        Seq::empty()
    } else if covered_before(s, s.len() - 1) {
        uncovered(s.drop_last())
    } else {
        uncovered(s.drop_last()).push(s.last())
    }
}

/// The folders to measure: sorted by length, without any folder that a shorter (or
/// earlier) one already covers, so that nothing is counted twice.
pub open spec fn deduped(roots: Seq<String>) -> Seq<String> {
    uncovered(sort_by_len(roots))
}

/// Sorts folders by byte length, shortest first; equal lengths keep their order.
pub fn sort_roots_by_len(roots: Vec<String>) -> (r: Vec<String>)
    ensures
        r@ == sort_by_len(roots@),
{
    let ghost orig = roots@;
    let mut rest = roots;
    let mut out: Vec<String> = Vec::new();
    let mut lens: Vec<usize> = Vec::new();
    let ghost mut done: int = 0;
    assert(orig.take(0) =~= Seq::<String>::empty());
    assert(orig.skip(0) =~= orig);
    while rest.len() > 0
        invariant
            0 <= done <= orig.len(),
            rest@ == orig.skip(done),
            out@ == sort_by_len(orig.take(done)),
            lens@.len() == out@.len(),
            forall|i: int| 0 <= i < lens@.len() ==> #[trigger] lens@[i] == byte_len(out@[i]@),
        decreases rest@.len(),
    {
        let x = rest.remove(0);
        let xlen: usize = x.as_str().len();
        assert(x == orig[done]);
        assert(orig.take(done + 1).drop_last() =~= orig.take(done));
        let ghost t = out@;
        let mut pos: usize = out.len();
        assert(t.take(pos as int) =~= t);
        assert(t.skip(pos as int) =~= Seq::<String>::empty());
        while pos > 0 && lens[pos - 1] > xlen
            invariant
                pos <= t.len(),
                out@ == t,
                lens@.len() == t.len(),
                forall|i: int| 0 <= i < lens@.len() ==> #[trigger] lens@[i] == byte_len(t[i]@),
                xlen == byte_len(x@),
                insert_by_len(t, x) == insert_by_len(t.take(pos as int), x) + t.skip(pos as int),
            decreases pos,
        {
            let ghost tp = t.take(pos as int);
            assert(tp.last() == t[pos - 1]);
            assert(tp.drop_last() =~= t.take(pos - 1));
            assert(insert_by_len(tp, x) == insert_by_len(t.take(pos - 1), x).push(t[pos - 1]));
            assert(insert_by_len(t.take(pos - 1), x).push(t[pos - 1]) + t.skip(pos as int)
                =~= insert_by_len(t.take(pos - 1), x) + t.skip(pos - 1));
            pos = pos - 1;
        }
        proof {
            if pos > 0 {
                assert(t.take(pos as int).last() == t[pos - 1]);
                assert(insert_by_len(t.take(pos as int), x) == t.take(pos as int).push(x));
            } else {
                assert(insert_by_len(t.take(0), x) == seq![x]);
            }
            assert(t.take(pos as int).push(x) + t.skip(pos as int) =~= t.insert(pos as int, x));
            assert(seq![x] + t.skip(0) =~= t.insert(0, x));
        }
        out.insert(pos, x);
        lens.insert(pos, xlen);
        proof {
            assert forall|i: int| 0 <= i < lens@.len() implies #[trigger] lens@[i] == byte_len(
                out@[i]@,
            ) by {}
            done = done + 1;
            assert(orig.skip(done - 1).drop_first() =~= orig.skip(done));
        }
    }
    assert(orig.take(done) =~= orig);
    out
}

/// Covering is transitive.
pub proof fn lemma_covers_transitive(a: Seq<char>, b: Seq<char>, c: Seq<char>)
    requires
        covers(a, b),
        covers(b, c),
    ensures
        covers(a, c),
{
    let al = str_lowercase(a).push('\\');
    let bl = str_lowercase(b);
    let cl = str_lowercase(c);
    if bl != str_lowercase(a) && cl != bl {
        let bp = bl.push('\\');
        assert(cl.take(al.len() as int) =~= bp.take(al.len() as int));
        assert(bp.take(al.len() as int) =~= bl.take(al.len() as int));
    }
}

/// Every folder of `uncovered(s)` is a folder of `s`.
proof fn lemma_uncovered_from(s: Seq<String>)
    ensures
        forall|m: int|
            0 <= m < uncovered(s).len() ==> exists|j: int|
                0 <= j < s.len() && #[trigger] uncovered(s)[m] == s[j],
        uncovered(s).len() <= s.len(),
    decreases s.len(),
{
    if s.len() > 0 {
        let s0 = s.drop_last();
        lemma_uncovered_from(s0);
        assert forall|m: int| 0 <= m < uncovered(s).len() implies exists|j: int|
            0 <= j < s.len() && #[trigger] uncovered(s)[m] == s[j] by {
            if m < uncovered(s0).len() {
                assert(uncovered(s)[m] == uncovered(s0)[m]);
                let j: int = choose|j: int| 0 <= j < s0.len() && #[trigger] uncovered(s0)[m] == s0[j];
                assert(s[j] == s0[j]);
            } else {
                assert(uncovered(s)[m] == s[s.len() - 1]);
            }
        }
    }
}

/// Some kept folder covers `x` exactly when some folder of `s` does: checking only
/// the folders kept so far decides as checking all earlier ones.
pub proof fn lemma_uncovered_covers(s: Seq<String>, x: Seq<char>)
    ensures
        (exists|m: int| 0 <= m < uncovered(s).len() && #[trigger] covers(uncovered(s)[m]@, x))
            <==> (exists|j: int| 0 <= j < s.len() && #[trigger] covers(s[j]@, x)),
    decreases s.len(),
{
    lemma_uncovered_from(s);
    if s.len() > 0 {
        let s0 = s.drop_last();
        let y = s.last();
        lemma_uncovered_covers(s0, x);
        lemma_uncovered_covers(s0, y@);
        let u0 = uncovered(s0);
        let u = uncovered(s);
        if exists|m: int| 0 <= m < u.len() && #[trigger] covers(u[m]@, x) {
            let m: int = choose|m: int| 0 <= m < u.len() && #[trigger] covers(u[m]@, x);
            let j: int = choose|j: int| 0 <= j < s.len() && #[trigger] u[m] == s[j];
            assert(covers(s[j]@, x));
        }
        if exists|j: int| 0 <= j < s.len() && #[trigger] covers(s[j]@, x) {
            let j: int = choose|j: int| 0 <= j < s.len() && #[trigger] covers(s[j]@, x);
            if j < s0.len() {
                assert(covers(s0[j]@, x));
                let m: int = choose|m: int| 0 <= m < u0.len() && #[trigger] covers(u0[m]@, x);
                assert(u[m] == u0[m]);
                assert(covers(u[m]@, x));
            } else if covered_before(s, s.len() - 1) {
                let j2: int = choose|j2: int| 0 <= j2 < s.len() - 1 && #[trigger] covers(s[j2]@, s[s.len() - 1]@);
                assert(covers(s0[j2]@, y@));
                lemma_covers_transitive(s0[j2]@, y@, x);
                assert(covers(s0[j2]@, x));
                let m: int = choose|m: int| 0 <= m < u0.len() && #[trigger] covers(u0[m]@, x);
                assert(u[m] == u0[m]);
                assert(covers(u[m]@, x));
            } else {
                assert(u[u.len() - 1] == y);
                assert(covers(u[u.len() - 1]@, x));
            }
        }
    }
}

/// Drops every folder that another folder of the list covers (ignoring case): the
/// folders are taken shortest first, and each is kept unless a kept one covers it.
pub fn dedupe_roots(roots: Vec<String>) -> (r: Vec<String>)
    ensures
        r@ == deduped(roots@),
{
    let sorted = sort_roots_by_len(roots);
    let ghost s = sorted@;
    let mut rest = sorted;
    let mut kept: Vec<String> = Vec::new();
    let mut kept_lower: Vec<Vec<char>> = Vec::new();
    let ghost mut done: int = 0;
    assert(s.take(0) =~= Seq::<String>::empty());
    assert(s.skip(0) =~= s);
    while rest.len() > 0
        invariant
            0 <= done <= s.len(),
            rest@ == s.skip(done),
            kept@ == uncovered(s.take(done)),
            kept_lower@.len() == kept@.len(),
            forall|i: int|
                0 <= i < kept_lower@.len() ==> #[trigger] kept_lower@[i]@ == str_lowercase(
                    kept@[i]@,
                ),
        decreases rest@.len(),
    {
        let x = rest.remove(0);
        assert(x == s[done]);
        let ghost p = s.take(done + 1);
        assert(p.drop_last() =~= s.take(done));
        assert(p.last() == x);
        let xl_string = lowercase(x.as_str());
        let xl = chars_of(xl_string.as_str());
        let mut is_sub = false;
        let mut i: usize = 0;
        while i < kept_lower.len()
            invariant
                i <= kept_lower@.len(),
                kept_lower@.len() == kept@.len(),
                forall|m: int|
                    0 <= m < kept_lower@.len() ==> #[trigger] kept_lower@[m]@ == str_lowercase(
                        kept@[m]@,
                    ),
                xl@ == str_lowercase(x@),
                is_sub == exists|m: int| 0 <= m < i && #[trigger] covers(kept@[m]@, x@),
            decreases kept_lower@.len() - i,
        {
            let kl = &kept_lower[i];
            let mut prefix = kl.clone();
            prefix.push('\\');
            assert(prefix@ == kl@.push('\\'));
            let c = chars_equal(&xl, kl) || starts_with(&xl, &prefix);
            assert(c == covers(kept@[i as int]@, x@));
            if c {
                is_sub = true;
            }
            i = i + 1;
        }
        proof {
            lemma_uncovered_covers(s.take(done), x@);
            let q = s.take(done);
            assert((exists|j: int| 0 <= j < q.len() && #[trigger] covers(q[j]@, x@))
                == covered_before(p, p.len() - 1)) by {
                if exists|j: int| 0 <= j < q.len() && #[trigger] covers(q[j]@, x@) {
                    let j: int = choose|j: int| 0 <= j < q.len() && #[trigger] covers(q[j]@, x@);
                    assert(covers(p[j]@, p[p.len() - 1]@));
                }
                if covered_before(p, p.len() - 1) {
                    let j: int = choose|j: int| 0 <= j < p.len() - 1 && #[trigger] covers(p[j]@, p[p.len() - 1]@);
                    assert(covers(q[j]@, x@));
                }
            }
        }
        if !is_sub {
            kept.push(x);
            kept_lower.push(xl);
        }
        proof {
            done = done + 1;
            assert(s.skip(done - 1).drop_first() =~= s.skip(done));
        }
    }
    assert(s.take(done) =~= s);
    kept
}


/// What is needed to measure one application.
#[derive(Debug, Clone, PartialEq, Eq)]
pub struct Job {
    pub id: String,
    /// The display name, normalized (see `normalize`).
    pub name_norm: String,
    pub install_location: Option<String>,
    /// The folder holding the application's icon file, if it has one.
    pub icon_dir: Option<String>,
    /// The registry's estimate, used when no folder can be measured.
    pub fallback_bytes: u64,
}

fn clone_opt(o: &Option<String>) -> (r: Option<String>)
    ensures
        r == *o,
{
    match o {
        Some(s) => Some(s.clone()),
        None => None,
    }
}

impl Job {
    /// The sizing job for a listed application; `icon_dir` is the folder of its icon file.
    pub fn new(app: &InstalledApp, icon_dir: Option<String>) -> (j: Job)
        ensures
            j.id == app.id,
            j.name_norm@ == normalized(app.name@),
            j.install_location == app.install_location,
            j.icon_dir == icon_dir,
            j.fallback_bytes == app.size_bytes,
    {
        Job {
            id: app.id.clone(),
            name_norm: normalize(app.name.as_str()),
            install_location: clone_opt(&app.install_location),
            icon_dir,
            fallback_bytes: app.size_bytes,
        }
    }
}

/// The folder standing for the installation: the install location when it is a
/// directory, else the icon's folder when that is a directory, else none.
pub open spec fn install_root(job: &Job, install_is_dir: bool, icon_dir_is_dir: bool) -> Seq<String> {
    if job.install_location is Some && install_is_dir {
        seq![job.install_location->0]
    } else if job.icon_dir is Some && icon_dir_is_dir {
        seq![job.icon_dir->0]
    } else {
        Seq::empty()
    }
}

/// The folders to measure for a job: its install folder (see `install_root`) and its
/// matched data folders, with covered folders dropped (see `deduped`).
pub open spec fn job_roots(
    job: &Job,
    install_is_dir: bool,
    icon_dir_is_dir: bool,
    entries: Seq<(String, String)>,
) -> Seq<String> {
    deduped(install_root(job, install_is_dir, icon_dir_is_dir) + matches_spec(entries, job.name_norm@))
}

/// Lists the folders whose sizes add up to the application's real size.
/// `install_is_dir` and `icon_dir_is_dir` tell whether the job's install location and
/// icon folder exist as directories.
pub fn collect_roots(
    job: &Job,
    install_is_dir: bool,
    icon_dir_is_dir: bool,
    index: &AppDataIndex,
) -> (r: Vec<String>)
    ensures
        r@ == job_roots(job, install_is_dir, icon_dir_is_dir, index.entries@),
{
    let mut roots: Vec<String> = Vec::new();
    match &job.install_location {
        Some(p) if install_is_dir => {
            roots.push(p.clone());
        },
        _ => {
            match &job.icon_dir {
                Some(p) if icon_dir_is_dir => {
                    roots.push(p.clone());
                },
                _ => {},
            }
        },
    }
    assert(roots@ =~= install_root(job, install_is_dir, icon_dir_is_dir));
    let mut found = index.matches(job.name_norm.as_str());
    roots.append(&mut found);
    dedupe_roots(roots)
}

/// The sum of `s`.
pub open spec fn total(s: Seq<u64>) -> int
    decreases s.len(),
{
    if s.len() == 0 {
        0
    } else {
        total(s.drop_last()) + s.last()
    }
}

/// The sum of `s`, which must not overflow.
pub fn sum_sizes(s: &[u64]) -> (r: u64)
    requires
        total(s@) <= u64::MAX,
    ensures
        r == total(s@),
{
    let mut acc: u64 = 0;
    let mut i: usize = 0;
    assert(s@.take(0) =~= Seq::<u64>::empty());
    while i < s.len()
        invariant
            i <= s@.len(),
            total(s@) <= u64::MAX,
            acc == total(s@.take(i as int)),
        decreases s@.len() - i,
    {
        assert(s@.take(i + 1).drop_last() =~= s@.take(i as int));
        proof {
            lemma_total_prefix(s@, i + 1);
        }
        acc = acc + s[i];
        i = i + 1;
    }
    assert(s@.take(i as int) =~= s@);
    acc
}

/// A prefix never sums to more than the whole.
pub proof fn lemma_total_prefix(s: Seq<u64>, n: int)
    requires
        0 <= n <= s.len(),
    ensures
        total(s.take(n)) <= total(s),
    decreases s.len() - n,
{
    if n < s.len() {
        lemma_total_prefix(s, n + 1);
        assert(s.take(n + 1).drop_last() =~= s.take(n));
    } else {
        assert(s.take(n) =~= s);
    }
}

/// The size reported for a job, given the measured size of each of its folders: their
/// sum, or the registry's estimate (flagged as such) when there was no folder to measure.
pub fn size_update(job: &Job, root_sizes: &[u64]) -> (r: AppSizeUpdate)
    requires
        total(root_sizes@) <= u64::MAX,
    ensures
        r.id == job.id,
        root_sizes@.len() == 0 ==> r.size_bytes == job.fallback_bytes && r.size_estimated,
        root_sizes@.len() > 0 ==> r.size_bytes == total(root_sizes@) && !r.size_estimated,
{
    if root_sizes.len() == 0 {
        AppSizeUpdate { id: job.id.clone(), size_bytes: job.fallback_bytes, size_estimated: true }
    } else {
        AppSizeUpdate { id: job.id.clone(), size_bytes: sum_sizes(root_sizes), size_estimated: false }
    }
}

// ---------------------------------------------------------------------------
// Laws of matching and of the folder list.

/// Strong matching does not depend on which name is the folder's and which the
/// application's.
pub proof fn lemma_strong_match_symmetric(a: Seq<char>, b: Seq<char>)
    ensures
        strong_match_spec(a, b) == strong_match_spec(b, a),
{
    if a.len() > 0 && b.len() > 0 && a != b && a.len() == b.len() {
        if is_prefix(a, b) {
            assert(b.take(a.len() as int) =~= b);
        }
        if is_prefix(b, a) {
            assert(a.take(b.len() as int) =~= a);
        }
    }
}

/// `p` is the path of an entry whose folder name strongly matches `app`.
pub open spec fn matched_path(entries: Seq<(String, String)>, app: Seq<char>, p: String) -> bool {
    exists|i: int|
        0 <= i < entries.len() && #[trigger] entries[i].1 == p && strong_match_spec(entries[i].0@, app)
}

/// Every folder returned for an application strongly matches its name.
pub proof fn lemma_matching_paths_match(entries: Seq<(String, String)>, app: Seq<char>)
    ensures
        forall|m: int|
            0 <= m < matching_paths(entries, app).len() ==> matched_path(
                entries,
                app,
                #[trigger] matching_paths(entries, app)[m],
            ),
    decreases entries.len(),
{
    if entries.len() > 0 {
        let e0 = entries.drop_last();
        lemma_matching_paths_match(e0, app);
        let r = matching_paths(entries, app);
        let r0 = matching_paths(e0, app);
        let last = entries[entries.len() - 1];
        assert(last == entries.last());
        if strong_match_spec(last.0@, app) {
            assert(r == r0 + seq![last.1]);
        } else {
            assert(r =~= r0);
        }
        assert forall|m: int| 0 <= m < r.len() implies matched_path(entries, app, #[trigger] r[m]) by {
            if m < r0.len() {
                assert(r[m] == r0[m]);
                assert(matched_path(e0, app, r0[m]));
                let i: int = choose|i: int|
                    0 <= i < e0.len() && #[trigger] e0[i].1 == r0[m] && strong_match_spec(e0[i].0@, app);
                assert(entries[i] == e0[i]);
                assert(entries[i].1 == r[m]);
            } else {
                assert(r[m] == last.1);
                assert(entries[entries.len() - 1].1 == r[m]);
            }
        }
    }
}

proof fn lemma_insert_by_len_multiset(t: Seq<String>, x: String)
    ensures
        insert_by_len(t, x).to_multiset() == t.to_multiset().insert(x),
    decreases t.len(),
{
    if t.len() > 0 && byte_len(t.last()@) > byte_len(x@) {
        lemma_insert_by_len_multiset(t.drop_last(), x);
        assert(t.drop_last().push(t.last()) =~= t);
    }
}

/// Sorting by length keeps exactly the given folders.
pub proof fn lemma_sort_by_len_permutation(s: Seq<String>)
    ensures
        sort_by_len(s).to_multiset() == s.to_multiset(),
    decreases s.len(),
{
    if s.len() == 0 {
        broadcast use vstd::multiset::group_multiset_axioms;

        assert(s.to_multiset() =~= vstd::multiset::Multiset::empty());
        assert(sort_by_len(s).to_multiset() =~= vstd::multiset::Multiset::empty());
    } else {
        lemma_sort_by_len_permutation(s.drop_last());
        lemma_insert_by_len_multiset(sort_by_len(s.drop_last()), s.last());
        assert(s.drop_last().push(s.last()) =~= s);
    }
}

proof fn lemma_uncovered_no_later_covered(s: Seq<String>)
    ensures
        forall|i: int, j: int|
            0 <= i < j < uncovered(s).len() ==> !covers(
                #[trigger] uncovered(s)[i]@,
                #[trigger] uncovered(s)[j]@,
            ),
    decreases s.len(),
{
    lemma_uncovered_from(s);
    if s.len() > 0 {
        let s0 = s.drop_last();
        lemma_uncovered_no_later_covered(s0);
        lemma_uncovered_from(s0);
        let u0 = uncovered(s0);
        let u = uncovered(s);
        assert forall|i: int, j: int| 0 <= i < j < u.len() implies !covers(
            #[trigger] u[i]@,
            #[trigger] u[j]@,
        ) by {
            if j < u0.len() {
                assert(u[i] == u0[i] && u[j] == u0[j]);
            } else {
                assert(!covered_before(s, s.len() - 1));
                assert(u[i] == u0[i]);
                let k: int = choose|k: int| 0 <= k < s0.len() && #[trigger] u0[i] == s0[k];
                assert(s[k] == s0[k]);
                assert(u[j] == s[s.len() - 1]);
                if covers(u[i]@, u[j]@) {
                    assert(covers(s[k]@, s[s.len() - 1]@));
                }
            }
        }
    }
}

/// The folders measured for an application: each was given, no kept folder is
/// covered by one kept before it, and every given folder is covered by a kept one
/// (so no data is left out and no folder is counted inside an earlier one).
pub proof fn lemma_deduped_laws(roots: Seq<String>)
    ensures
        forall|m: int| 0 <= m < deduped(roots).len() ==> roots.contains(#[trigger] deduped(roots)[m]),
        forall|i: int, j: int|
            0 <= i < j < deduped(roots).len() ==> !covers(
                #[trigger] deduped(roots)[i]@,
                #[trigger] deduped(roots)[j]@,
            ),
        forall|k: int|
            0 <= k < roots.len() ==> exists|m: int|
                0 <= m < deduped(roots).len() && covers(
                    #[trigger] deduped(roots)[m]@,
                    #[trigger] roots[k]@,
                ),
{
    let s = sort_by_len(roots);
    let d = deduped(roots);
    lemma_sort_by_len_permutation(roots);
    lemma_uncovered_from(s);
    lemma_uncovered_no_later_covered(s);
    assert forall|m: int| 0 <= m < d.len() implies roots.contains(#[trigger] d[m]) by {
        let j: int = choose|j: int| 0 <= j < s.len() && #[trigger] d[m] == s[j];
        assert(s.contains(d[m]));
        assert(s.to_multiset().count(d[m]) > 0);
        assert(roots.to_multiset().count(d[m]) > 0);
    }
    assert forall|k: int| 0 <= k < roots.len() implies exists|m: int|
        0 <= m < d.len() && covers(#[trigger] d[m]@, #[trigger] roots[k]@) by {
        let x = roots[k];
        assert(roots.contains(x));
        assert(roots.to_multiset().count(x) > 0);
        assert(s.to_multiset().count(x) > 0);
        assert(s.contains(x));
        let j: int = choose|j: int| 0 <= j < s.len() && s[j] == x;
        assert(covers(s[j]@, x@));
        lemma_uncovered_covers(s, x@);
        let m: int = choose|m: int| 0 <= m < d.len() && #[trigger] covers(d[m]@, x@);
        assert(covers(d[m]@, roots[k]@));
    }
}

proof fn lemma_insert_by_len_sorted(t: Seq<String>, x: String)
    requires
        forall|i: int, j: int| 0 <= i < j < t.len() ==> byte_len(t[i]@) <= byte_len(t[j]@),
    ensures
        forall|i: int, j: int|
            0 <= i < j < insert_by_len(t, x).len() ==> byte_len(insert_by_len(t, x)[i]@) <= byte_len(
                insert_by_len(t, x)[j]@,
            ),
        insert_by_len(t, x).len() == t.len() + 1,
        byte_len(insert_by_len(t, x).last()@) == if t.len() > 0 && byte_len(t.last()@) > byte_len(
            x@,
        ) {
            byte_len(t.last()@)
        } else {
            byte_len(x@)
        },
    decreases t.len(),
{
    if t.len() > 0 && byte_len(t.last()@) > byte_len(x@) {
        lemma_insert_by_len_sorted(t.drop_last(), x);
    }
}

/// Sorting puts the folders in order of byte length.
pub proof fn lemma_sort_by_len_sorted(s: Seq<String>)
    ensures
        forall|i: int, j: int|
            0 <= i < j < sort_by_len(s).len() ==> byte_len(sort_by_len(s)[i]@) <= byte_len(
                sort_by_len(s)[j]@,
            ),
    decreases s.len(),
{
    if s.len() > 0 {
        lemma_sort_by_len_sorted(s.drop_last());
        lemma_insert_by_len_sorted(sort_by_len(s.drop_last()), s.last());
    }
}

/// Lower-casing keeps the byte-length order of nested folders in `s`: a folder whose
/// lower-case name is a proper prefix of another's is shorter in bytes.
pub open spec fn lowercase_keeps_nesting_order(s: Seq<String>) -> bool {
    forall|a: String, b: String|
        #![trigger s.contains(a), s.contains(b)]
        s.contains(a) && s.contains(b) && is_prefix(str_lowercase(a@), str_lowercase(b@))
            && str_lowercase(a@) != str_lowercase(b@) ==> byte_len(a@) < byte_len(b@)
}

proof fn lemma_uncovered_no_earlier_covered(s: Seq<String>)
    requires
        forall|i: int, j: int| 0 <= i < j < s.len() ==> byte_len(s[i]@) <= byte_len(s[j]@),
        lowercase_keeps_nesting_order(s),
    ensures
        forall|i: int, j: int|
            0 <= i < j < uncovered(s).len() ==> !covers(
                #[trigger] uncovered(s)[j]@,
                #[trigger] uncovered(s)[i]@,
            ),
    decreases s.len(),
{
    if s.len() > 0 {
        let s0 = s.drop_last();
        let y = s.last();
        assert(lowercase_keeps_nesting_order(s0)) by {
            assert forall|a: String| s0.contains(a) implies s.contains(a) by {
                let k: int = choose|k: int| 0 <= k < s0.len() && s0[k] == a;
                assert(s[k] == a);
            }
        }
        lemma_uncovered_no_earlier_covered(s0);
        lemma_uncovered_from(s0);
        let u0 = uncovered(s0);
        let u = uncovered(s);
        assert forall|i: int, j: int| 0 <= i < j < u.len() implies !covers(
            #[trigger] u[j]@,
            #[trigger] u[i]@,
        ) by {
            if j < u0.len() {
                assert(u[i] == u0[i] && u[j] == u0[j]);
            } else {
                assert(!covered_before(s, s.len() - 1));
                assert(u[i] == u0[i]);
                let k: int = choose|k: int| 0 <= k < s0.len() && #[trigger] u0[i] == s0[k];
                assert(s[k] == s0[k]);
                assert(u[j] == s[s.len() - 1]);
                assert(byte_len(s[k]@) <= byte_len(y@));
                if covers(y@, s[k]@) {
                    let yl = str_lowercase(y@);
                    let kl = str_lowercase(s[k]@);
                    if kl == yl {
                        assert(covers(s[k]@, y@));
                    } else {
                        assert(is_prefix(yl, kl)) by {
                            assert(kl.take(yl.len() as int) =~= yl.push('\\').take(yl.len() as int));
                            assert(yl.push('\\').take(yl.len() as int) =~= yl);
                        }
                        assert(s.contains(y)) by {
                            assert(s[s.len() - 1] == y);
                        }
                        assert(s.contains(s[k]));
                        assert(byte_len(y@) < byte_len(s[k]@));
                    }
                }
            }
        }
    }
}

/// When lower-casing keeps nested folders shorter than what they contain (as it does
/// for ASCII names), no measured folder lies inside another measured folder.
pub proof fn lemma_deduped_disjoint(roots: Seq<String>)
    requires
        lowercase_keeps_nesting_order(roots),
    ensures
        forall|i: int, j: int|
            0 <= i < deduped(roots).len() && 0 <= j < deduped(roots).len() && i != j ==> !covers(
                #[trigger] deduped(roots)[i]@,
                #[trigger] deduped(roots)[j]@,
            ),
{
    let s = sort_by_len(roots);
    lemma_sort_by_len_permutation(roots);
    lemma_sort_by_len_sorted(roots);
    assert(lowercase_keeps_nesting_order(s)) by {
        assert forall|a: String| s.contains(a) implies roots.contains(a) by {
            assert(s.to_multiset().count(a) > 0);
            assert(roots.to_multiset().count(a) > 0);
        }
    }
    lemma_uncovered_no_later_covered(s);
    lemma_uncovered_no_earlier_covered(s);
}

/// `pos` places the folders of `u` in `s` at strictly increasing positions.
pub open spec fn positions_fit(pos: Seq<int>, u: Seq<String>, s: Seq<String>) -> bool {
    &&& pos.len() == u.len()
    &&& forall|k: int| 0 <= k < pos.len() ==> 0 <= #[trigger] pos[k] < s.len() && u[k] == s[pos[k]]
    &&& forall|i: int, j: int| 0 <= i < j < pos.len() ==> #[trigger] pos[i] < #[trigger] pos[j]
}

/// `u` is a subsequence of `s`.
pub open spec fn is_subsequence(u: Seq<String>, s: Seq<String>) -> bool {
    exists|pos: Seq<int>| #[trigger] positions_fit(pos, u, s)
}

/// The positions in `s` of the folders that `uncovered` keeps.
pub open spec fn uncovered_positions(s: Seq<String>) -> Seq<int>
    decreases s.len(),
{
    if s.len() == 0 {
        Seq::empty()
    } else if covered_before(s, s.len() - 1) {
        uncovered_positions(s.drop_last())
    } else {
        uncovered_positions(s.drop_last()).push(s.len() - 1)
    }
}

proof fn lemma_uncovered_positions(s: Seq<String>)
    ensures
        positions_fit(uncovered_positions(s), uncovered(s), s),
    decreases s.len(),
{
    if s.len() > 0 {
        let s0 = s.drop_last();
        lemma_uncovered_positions(s0);
        let p0 = uncovered_positions(s0);
        let p = uncovered_positions(s);
        let u = uncovered(s);
        assert forall|k: int| 0 <= k < p.len() implies 0 <= #[trigger] p[k] < s.len() && u[k] == s[p[k]] by {
            if k < p0.len() {
                assert(p[k] == p0[k]);
                assert(s[p0[k]] == s0[p0[k]]);
            }
        }
        assert forall|i: int, j: int| 0 <= i < j < p.len() implies #[trigger] p[i] < #[trigger] p[j] by {
            if j < p0.len() {
                assert(p[i] == p0[i] && p[j] == p0[j]);
            } else {
                assert(p[i] == p0[i]);
                assert(p0[i] < s0.len());
            }
        }
    }
}

/// The measured folders are a subsequence of the folders sorted (stably) by length.
pub proof fn lemma_deduped_subsequence(roots: Seq<String>)
    ensures
        is_subsequence(deduped(roots), sort_by_len(roots)),
{
    let s = sort_by_len(roots);
    lemma_uncovered_positions(s);
    assert(positions_fit(uncovered_positions(s), deduped(roots), s));
}

proof fn lemma_sort_by_len_of_sorted(t: Seq<String>)
    requires
        forall|i: int, j: int| 0 <= i < j < t.len() ==> byte_len(t[i]@) <= byte_len(t[j]@),
    ensures
        sort_by_len(t) == t,
    decreases t.len(),
{
    if t.len() > 0 {
        let t0 = t.drop_last();
        lemma_sort_by_len_of_sorted(t0);
        if t0.len() > 0 {
            assert(t0.last() == t[t0.len() - 1]);
        } else {
            assert(seq![t.last()] =~= t);
        }
        assert(t0.push(t.last()) =~= t);
    }
}

proof fn lemma_uncovered_of_uncovered(t: Seq<String>)
    requires
        forall|i: int, j: int| 0 <= i < j < t.len() ==> !covers(#[trigger] t[i]@, #[trigger] t[j]@),
    ensures
        uncovered(t) == t,
    decreases t.len(),
{
    if t.len() > 0 {
        let t0 = t.drop_last();
        assert forall|i: int, j: int| 0 <= i < j < t0.len() implies !covers(
            #[trigger] t0[i]@,
            #[trigger] t0[j]@,
        ) by {
            assert(t0[i] == t[i] && t0[j] == t[j]);
        }
        lemma_uncovered_of_uncovered(t0);
        assert(!covered_before(t, t.len() - 1));
        assert(t0.push(t.last()) =~= t);
    }
}

/// Removing covered folders a second time changes nothing.
pub proof fn lemma_deduped_idempotent(roots: Seq<String>)
    ensures
        deduped(deduped(roots)) == deduped(roots),
{
    let s = sort_by_len(roots);
    let d = deduped(roots);
    lemma_sort_by_len_sorted(roots);
    lemma_uncovered_positions(s);
    let pos = uncovered_positions(s);
    assert forall|i: int, j: int| 0 <= i < j < d.len() implies byte_len(d[i]@) <= byte_len(d[j]@) by {
        assert(pos[i] < pos[j]);
        assert(d[i] == s[pos[i]] && d[j] == s[pos[j]]);
    }
    lemma_sort_by_len_of_sorted(d);
    lemma_uncovered_no_later_covered(s);
    lemma_uncovered_of_uncovered(d);
}

/// Which names strongly match, said without choosing a shorter name: equal non-empty
/// names, or one name of at least 4 characters that is a prefix of the other and at
/// least half its length.
pub proof fn lemma_strong_match_meaning(f: Seq<char>, a: Seq<char>)
    ensures
        strong_match_spec(f, a) <==> (f.len() > 0 && (f == a || (is_prefix(f, a) && f.len() >= 4
            && a.len() <= 2 * f.len()) || (is_prefix(a, f) && a.len() >= 4 && f.len() <= 2
            * a.len()))),
{
    if f.len() > 0 && a.len() > 0 && f != a {
        if f.len() <= a.len() && is_prefix(a, f) {
            assert(f.take(a.len() as int) =~= f);
        }
        if a.len() < f.len() && is_prefix(f, a) {
            assert(false);
        }
    }
}

/// The data folders matched to an application are exactly the indexed folders whose
/// name strongly matches the application's name (for names of at least 4 bytes): each
/// returned path belongs to such an entry, and every such entry's path is returned.
pub proof fn lemma_matches_exact(entries: Seq<(String, String)>, app: Seq<char>)
    ensures
        byte_len(app) < 4 ==> matches_spec(entries, app).len() == 0,
        forall|m: int|
            0 <= m < matches_spec(entries, app).len() ==> matched_path(
                entries,
                app,
                #[trigger] matches_spec(entries, app)[m],
            ),
        byte_len(app) >= 4 ==> forall|i: int|
            0 <= i < entries.len() && strong_match_spec(#[trigger] entries[i].0@, app)
                ==> matches_spec(entries, app).contains(entries[i].1),
{
    lemma_matching_paths_match(entries, app);
    if byte_len(app) >= 4 {
        lemma_matching_paths_complete(entries, app);
    }
}

proof fn lemma_matching_paths_complete(entries: Seq<(String, String)>, app: Seq<char>)
    ensures
        forall|i: int|
            0 <= i < entries.len() && strong_match_spec(#[trigger] entries[i].0@, app)
                ==> matching_paths(entries, app).contains(entries[i].1),
    decreases entries.len(),
{
    if entries.len() > 0 {
        let e0 = entries.drop_last();
        lemma_matching_paths_complete(e0, app);
        let r0 = matching_paths(e0, app);
        let r = matching_paths(entries, app);
        let last = entries[entries.len() - 1];
        assert(last == entries.last());
        if strong_match_spec(last.0@, app) {
            assert(r == r0 + seq![last.1]);
        } else {
            assert(r =~= r0);
        }
        assert forall|i: int| 0 <= i < entries.len() && strong_match_spec(#[trigger] entries[i].0@, app)
            implies r.contains(entries[i].1) by {
            if i < e0.len() {
                assert(entries[i] == e0[i]);
                assert(r0.contains(e0[i].1));
                let k: int = choose|k: int| 0 <= k < r0.len() && r0[k] == e0[i].1;
                assert(r[k] == r0[k]);
            } else {
                assert(r[r.len() - 1] == last.1);
            }
        }
    }
}

/// Some folder of `r` covers `p`.
pub open spec fn covered_by(r: Seq<String>, p: Seq<char>) -> bool {
    exists|m: int| 0 <= m < r.len() && #[trigger] covers(r[m]@, p)
}

proof fn lemma_deduped_covers_each(input: Seq<String>, k: int)
    requires
        0 <= k < input.len(),
    ensures
        covered_by(deduped(input), input[k]@),
{
    lemma_deduped_laws(input);
    let d = deduped(input);
    assert(exists|m: int| 0 <= m < d.len() && covers(#[trigger] d[m]@, #[trigger] input[k]@));
}

proof fn lemma_deduped_member(input: Seq<String>, m: int)
    requires
        0 <= m < deduped(input).len(),
    ensures
        input.contains(deduped(input)[m]),
{
    lemma_deduped_laws(input);
}

/// The folders measured for a job: a usable install folder (one that exists as a
/// directory) is covered; without one, a usable icon folder is covered; every matched
/// data folder is covered; and nothing else is measured.
pub proof fn lemma_job_roots_meaning(
    job: &Job,
    install_is_dir: bool,
    icon_dir_is_dir: bool,
    entries: Seq<(String, String)>,
)
    ensures
        (job.install_location is Some && install_is_dir) ==> covered_by(
            job_roots(job, install_is_dir, icon_dir_is_dir, entries),
            job.install_location->0@,
        ),
        (!(job.install_location is Some && install_is_dir) && job.icon_dir is Some
            && icon_dir_is_dir) ==> covered_by(
            job_roots(job, install_is_dir, icon_dir_is_dir, entries),
            job.icon_dir->0@,
        ),
        forall|k: int|
            0 <= k < matches_spec(entries, job.name_norm@).len() ==> covered_by(
                job_roots(job, install_is_dir, icon_dir_is_dir, entries),
                #[trigger] matches_spec(entries, job.name_norm@)[k]@,
            ),
        forall|m: int|
            0 <= m < job_roots(job, install_is_dir, icon_dir_is_dir, entries).len() ==> {
                let x = #[trigger] job_roots(job, install_is_dir, icon_dir_is_dir, entries)[m];
                ||| job.install_location is Some && install_is_dir && x == job.install_location->0
                ||| !(job.install_location is Some && install_is_dir) && job.icon_dir is Some
                    && icon_dir_is_dir && x == job.icon_dir->0
                ||| matches_spec(entries, job.name_norm@).contains(x)
            },
{
    let first = install_root(job, install_is_dir, icon_dir_is_dir);
    let ms = matches_spec(entries, job.name_norm@);
    let input = first + ms;
    let r = job_roots(job, install_is_dir, icon_dir_is_dir, entries);
    assert(r == deduped(input));
    if first.len() > 0 {
        lemma_deduped_covers_each(input, 0);
        assert(input[0] == first[0]);
    }
    assert forall|k: int| 0 <= k < ms.len() implies covered_by(r, #[trigger] ms[k]@) by {
        lemma_deduped_covers_each(input, first.len() + k);
        assert(input[first.len() + k] == ms[k]);
    }
    assert forall|m: int| 0 <= m < r.len() implies {
        let x = #[trigger] r[m];
        ||| job.install_location is Some && install_is_dir && x == job.install_location->0
        ||| !(job.install_location is Some && install_is_dir) && job.icon_dir is Some
            && icon_dir_is_dir && x == job.icon_dir->0
        ||| ms.contains(x)
    } by {
        lemma_deduped_member(input, m);
        let k: int = choose|k: int| 0 <= k < input.len() && input[k] == r[m];
        if k >= first.len() {
            assert(ms[k - first.len()] == r[m]);
        } else {
            assert(first[k] == r[m]);
        }
    }
}

} // verus!
