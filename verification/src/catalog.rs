//! Building the application list: one record per display name, largest first.
use vstd::prelude::*;
use crate::entry::InstalledApp;
use crate::text::{chars_equal, chars_of, lowercase, str_lowercase};

verus! {

broadcast use vstd::seq_lib::group_to_multiset_ensures;

/// The key under which records are merged: the display name in lower case.
pub open spec fn name_key(a: InstalledApp) -> Seq<char> {
    str_lowercase(a.name@)
}

/// Some record of `acc` has key `k`.
pub open spec fn has_key(acc: Seq<InstalledApp>, k: Seq<char>) -> bool {
    exists|i: int| 0 <= i < acc.len() && #[trigger] name_key(acc[i]) == k
}

/// No two records of `acc` share a key.
pub open spec fn keys_unique(acc: Seq<InstalledApp>) -> bool {
    forall|i: int, j: int|
        0 <= i < acc.len() && 0 <= j < acc.len() && i != j ==> #[trigger] name_key(acc[i])
            != #[trigger] name_key(acc[j])
}

/// Adding a record to the merged list: a new key is appended; for a known key the
/// record replaces the kept one only when it has an uninstall command and the kept
/// one has none.
pub open spec fn merge_step(acc: Seq<InstalledApp>, a: InstalledApp) -> Seq<InstalledApp> {
    if has_key(acc, name_key(a)) {
        let i: int = choose|i: int| 0 <= i < acc.len() && #[trigger] name_key(acc[i]) == name_key(a);
        if acc[i].uninstall_string is None && a.uninstall_string is Some {
            acc.update(i, a)
        } else {
            acc
        }
    } else {
        acc.push(a)
    }
}

/// Merging records in order.
pub open spec fn merge_by_name(s: Seq<InstalledApp>) -> Seq<InstalledApp>
    decreases s.len(),
{
    if s.len() == 0 {
        Seq::empty()
    } else {
        merge_step(merge_by_name(s.drop_last()), s.last())
    }
}

/// Inserting `x` into a list ordered by decreasing size, after every record at least
/// as large (so records of equal size keep their order).
pub open spec fn insert_by_size(t: Seq<InstalledApp>, x: InstalledApp) -> Seq<InstalledApp>
    decreases t.len(),
{
    if t.len() == 0 {
        seq![x]
    } else if t.last().size_bytes >= x.size_bytes {
        t.push(x)
    } else {
        insert_by_size(t.drop_last(), x).push(t.last())
    }
}

/// `s` stably sorted by decreasing `size_bytes`.
pub open spec fn sort_by_size(s: Seq<InstalledApp>) -> Seq<InstalledApp>
    decreases s.len(),
{
    if s.len() == 0 {
        Seq::empty()
    } else {
        insert_by_size(sort_by_size(s.drop_last()), s.last())
    }
}

/// The list shown to the user: records merged by display name, then sorted by
/// decreasing size.
pub open spec fn arranged(s: Seq<InstalledApp>) -> Seq<InstalledApp> {
    sort_by_size(merge_by_name(s))
}

fn name_key_of(a: &InstalledApp) -> (k: Vec<char>)
    ensures
        k@ == name_key(*a),
{
    let lower = lowercase(a.name.as_str());
    chars_of(lower.as_str())
}

fn find_key(keys: &Vec<Vec<char>>, k: &Vec<char>) -> (r: Option<usize>)
    ensures
        r matches Some(i) ==> i < keys@.len() && keys@[i as int]@ == k@,
        r is None ==> forall|i: int| 0 <= i < keys@.len() ==> #[trigger] keys@[i]@ != k@,
{
    let mut i: usize = 0;
    while i < keys.len()
        invariant
            i <= keys@.len(),
            forall|j: int| 0 <= j < i ==> #[trigger] keys@[j]@ != k@,
        decreases keys@.len() - i,
    {
        if chars_equal(&keys[i], k) {
            return Some(i);
        }
        i = i + 1;
    }
    None
}

/// Merges records that share a display name (compared in lower case), keeping one
/// per name: the first one that has an uninstall command, else the first one.
pub fn merge_apps(apps: Vec<InstalledApp>) -> (r: Vec<InstalledApp>)
    ensures
        r@ == merge_by_name(apps@),
        keys_unique(r@),
{
    let ghost orig = apps@;
    let mut rest = apps;
    let mut acc: Vec<InstalledApp> = Vec::new();
    let mut keys: Vec<Vec<char>> = Vec::new();
    let ghost mut done: int = 0;
    assert(orig.take(0) =~= Seq::<InstalledApp>::empty());
    assert(orig.skip(0) =~= orig);
    while rest.len() > 0
        invariant
            0 <= done <= orig.len(),
            rest@ == orig.skip(done),
            acc@ == merge_by_name(orig.take(done)),
            keys_unique(acc@),
            keys@.len() == acc@.len(),
            forall|i: int| 0 <= i < keys@.len() ==> #[trigger] keys@[i]@ == name_key(acc@[i]),
        decreases rest@.len(),
    {
        let ghost before = acc@;
        let a = rest.remove(0);
        assert(a == orig[done]);
        assert(orig.take(done + 1).drop_last() =~= orig.take(done));
        assert(orig.take(done + 1).last() == a);
        let k = name_key_of(&a);
        match find_key(&keys, &k) {
            Some(i) => {
                assert(has_key(before, name_key(a))) by {
                    assert(name_key(before[i as int]) == name_key(a));
                }
                let ghost c = choose|c: int|
                    0 <= c < before.len() && #[trigger] name_key(before[c]) == name_key(a);
                assert(c == i);
                if acc[i].uninstall_string.is_none() && a.uninstall_string.is_some() {
                    acc.set(i, a);
                    assert forall|x: int, y: int|
                        0 <= x < acc@.len() && 0 <= y < acc@.len() && x != y implies #[trigger] name_key(
                        acc@[x],
                    ) != #[trigger] name_key(acc@[y]) by {
                        assert(name_key(acc@[i as int]) == name_key(before[i as int]));
                    }
                }
            },
            None => {
                assert forall|j: int| 0 <= j < before.len() implies #[trigger] name_key(before[j])
                    != name_key(a) by {
                    assert(keys@[j]@ != k@);
                }
                assert(!has_key(before, name_key(a)));
                acc.push(a);
                keys.push(k);
            },
        }
        proof {
            done = done + 1;
            assert(orig.skip(done - 1).drop_first() =~= orig.skip(done));
        }
    }
    assert(orig.take(done) =~= orig);
    acc
}

/// Sorts records by decreasing size; records of equal size keep their order.
pub fn sort_apps_by_size(apps: Vec<InstalledApp>) -> (r: Vec<InstalledApp>)
    ensures
        r@ == sort_by_size(apps@),
{
    let ghost orig = apps@;
    let mut rest = apps;
    let mut out: Vec<InstalledApp> = Vec::new();
    let ghost mut done: int = 0;
    assert(orig.take(0) =~= Seq::<InstalledApp>::empty());
    assert(orig.skip(0) =~= orig);
    while rest.len() > 0
        invariant
            0 <= done <= orig.len(),
            rest@ == orig.skip(done),
            out@ == sort_by_size(orig.take(done)),
        decreases rest@.len(),
    {
        let x = rest.remove(0);
        assert(x == orig[done]);
        assert(orig.take(done + 1).drop_last() =~= orig.take(done));
        let ghost t = out@;
        let mut pos: usize = out.len();
        assert(t.take(pos as int) =~= t);
        assert(t.skip(pos as int) =~= Seq::<InstalledApp>::empty());
        while pos > 0 && out[pos - 1].size_bytes < x.size_bytes
            invariant
                pos <= t.len(),
                out@ == t,
                insert_by_size(t, x) == insert_by_size(t.take(pos as int), x) + t.skip(pos as int),
            decreases pos,
        {
            let ghost tp = t.take(pos as int);
            assert(tp.last() == t[pos - 1]);
            assert(tp.drop_last() =~= t.take(pos - 1));
            assert(insert_by_size(tp, x) == insert_by_size(t.take(pos - 1), x).push(t[pos - 1]));
            assert(insert_by_size(t.take(pos - 1), x).push(t[pos - 1]) + t.skip(pos as int)
                =~= insert_by_size(t.take(pos - 1), x) + t.skip(pos - 1));
            pos = pos - 1;
        }
        proof {
            if pos > 0 {
                assert(t.take(pos as int).last() == t[pos - 1]);
                assert(insert_by_size(t.take(pos as int), x) == t.take(pos as int).push(x));
            } else {
                assert(insert_by_size(t.take(0), x) == seq![x]);
            }
            assert(t.take(pos as int).push(x) + t.skip(pos as int) =~= t.insert(pos as int, x));
            assert(seq![x] + t.skip(0) =~= t.insert(0, x));
        }
        out.insert(pos, x);
        proof {
            done = done + 1;
            assert(orig.skip(done - 1).drop_first() =~= orig.skip(done));
        }
    }
    assert(orig.take(done) =~= orig);
    out
}

/// The list shown to the user: one record per display name (see `merge_apps`),
/// largest first (see `sort_apps_by_size`).
pub fn arrange_apps(apps: Vec<InstalledApp>) -> (r: Vec<InstalledApp>)
    ensures
        r@ == arranged(apps@),
{
    let merged = merge_apps(apps);
    sort_apps_by_size(merged)
}

// ---------------------------------------------------------------------------
// Laws of the application list.

/// Inserting into a list sorted by decreasing size keeps it sorted.
proof fn lemma_insert_by_size_sorted(t: Seq<InstalledApp>, x: InstalledApp)
    requires
        forall|i: int, j: int| 0 <= i < j < t.len() ==> t[i].size_bytes >= t[j].size_bytes,
    ensures
        forall|i: int, j: int|
            0 <= i < j < insert_by_size(t, x).len() ==> insert_by_size(t, x)[i].size_bytes
                >= insert_by_size(t, x)[j].size_bytes,
        insert_by_size(t, x).len() == t.len() + 1,
        insert_by_size(t, x).to_multiset() == t.to_multiset().insert(x),
        insert_by_size(t, x).last().size_bytes == if t.len() > 0 && t.last().size_bytes
            < x.size_bytes {
            t.last().size_bytes
        } else {
            x.size_bytes
        },
    decreases t.len(),
{
    if t.len() > 0 && t.last().size_bytes < x.size_bytes {
        let t0 = t.drop_last();
        lemma_insert_by_size_sorted(t0, x);
        assert(t0.push(t.last()) =~= t);
    }
}

/// The sorted list is ordered by decreasing size and holds exactly the given records.
pub proof fn lemma_sort_by_size_sorted_permutation(s: Seq<InstalledApp>)
    ensures
        forall|i: int, j: int|
            0 <= i < j < sort_by_size(s).len() ==> sort_by_size(s)[i].size_bytes >= sort_by_size(
                s,
            )[j].size_bytes,
        sort_by_size(s).to_multiset() == s.to_multiset(),
    decreases s.len(),
{
    if s.len() == 0 {
        assert(s.to_multiset() =~= vstd::multiset::Multiset::empty()) by {
            broadcast use vstd::multiset::group_multiset_axioms;
        }
        assert(sort_by_size(s).to_multiset() =~= vstd::multiset::Multiset::empty()) by {
            broadcast use vstd::multiset::group_multiset_axioms;
        }
    } else {
        lemma_sort_by_size_sorted_permutation(s.drop_last());
        lemma_insert_by_size_sorted(sort_by_size(s.drop_last()), s.last());
        assert(s.drop_last().push(s.last()) =~= s);
    }
}

/// The first position in `s` of a record with key `k` (and, when `need_uninstall`,
/// an uninstall command), or -1.
pub open spec fn first_index(s: Seq<InstalledApp>, k: Seq<char>, need_uninstall: bool) -> int
    decreases s.len(),
{
    if s.len() == 0 {
        -1
    } else {
        let p: int = first_index(s.drop_last(), k, need_uninstall);
        if p >= 0 {
            p
        } else if name_key(s.last()) == k && (!need_uninstall || s.last().uninstall_string is Some) {
            s.len() - 1
        } else {
            -1
        }
    }
}

/// The record kept for key `k`: the first with that key and an uninstall command,
/// else the first with that key.
pub open spec fn preferred(s: Seq<InstalledApp>, k: Seq<char>) -> InstalledApp {
    let u: int = first_index(s, k, true);
    if u >= 0 {
        s[u]
    } else {
        s[first_index(s, k, false)]
    }
}

proof fn lemma_first_index(s: Seq<InstalledApp>, k: Seq<char>, need_uninstall: bool)
    ensures
        -1 <= first_index(s, k, need_uninstall) < s.len(),
        first_index(s, k, need_uninstall) >= 0 ==> name_key(s[first_index(s, k, need_uninstall)])
            == k && (need_uninstall ==> s[first_index(
            s,
            k,
            need_uninstall,
        )].uninstall_string is Some),
        first_index(s, k, need_uninstall) == -1 ==> forall|i: int|
            0 <= i < s.len() ==> !(#[trigger] name_key(s[i]) == k && (need_uninstall
                ==> s[i].uninstall_string is Some)),
    decreases s.len(),
{
    if s.len() > 0 {
        let s0 = s.drop_last();
        lemma_first_index(s0, k, need_uninstall);
        if first_index(s, k, need_uninstall) == -1 {
            assert forall|i: int| 0 <= i < s.len() implies !(#[trigger] name_key(s[i]) == k && (
            need_uninstall ==> s[i].uninstall_string is Some)) by {
                if i < s0.len() {
                    assert(s[i] == s0[i]);
                }
            }
        }
    }
}

proof fn lemma_has_key_first(s: Seq<InstalledApp>, k: Seq<char>)
    requires
        has_key(s, k),
    ensures
        first_index(s, k, false) >= 0,
{
    lemma_first_index(s, k, false);
    let w: int = choose|w: int| 0 <= w < s.len() && #[trigger] name_key(s[w]) == k;
    assert(name_key(s[w]) == k);
}

proof fn lemma_first_index_push(s: Seq<InstalledApp>, x: InstalledApp, k: Seq<char>, need: bool)
    requires
        name_key(x) != k,
    ensures
        first_index(s.push(x), k, need) == first_index(s, k, need),
{
    assert(s.push(x).drop_last() =~= s);
}

/// Merging by name keeps exactly one record per key, for every key in the input, and
/// the record kept for a key is the first with an uninstall command, else the first.
pub proof fn lemma_merge_by_name_choice(s: Seq<InstalledApp>)
    ensures
        keys_unique(merge_by_name(s)),
        forall|k: Seq<char>|
            #![trigger has_key(s, k)]
            #![trigger has_key(merge_by_name(s), k)]
            has_key(s, k) <==> has_key(merge_by_name(s), k),
        forall|i: int|
            0 <= i < merge_by_name(s).len() ==> #[trigger] merge_by_name(s)[i] == preferred(
                s,
                name_key(merge_by_name(s)[i]),
            ),
    decreases s.len(),
{
    if s.len() > 0 {
        let s0 = s.drop_last();
        let x = s.last();
        let kx = name_key(x);
        assert(s0.push(x) =~= s);
        lemma_merge_by_name_choice(s0);
        let m0 = merge_by_name(s0);
        let m = merge_by_name(s);
        assert(m == merge_step(m0, x));
        lemma_first_index(s0, kx, true);
        lemma_first_index(s0, kx, false);
        lemma_first_index(s, kx, true);
        lemma_first_index(s, kx, false);
        // Keys other than `kx` keep their preferred record.
        assert forall|k: Seq<char>| k != kx && has_key(s0, k) implies #[trigger] preferred(s, k)
            == preferred(s0, k) by {
            lemma_has_key_first(s0, k);
            lemma_first_index_push(s0, x, k, true);
            lemma_first_index_push(s0, x, k, false);
            lemma_first_index(s0, k, true);
            lemma_first_index(s0, k, false);
            if first_index(s0, k, true) >= 0 {
                assert(s[first_index(s0, k, true)] == s0[first_index(s0, k, true)]);
            } else if first_index(s0, k, false) >= 0 {
                assert(s[first_index(s0, k, false)] == s0[first_index(s0, k, false)]);
            }
        }
        if !has_key(m0, kx) {
            assert(!has_key(s0, kx));
            assert(first_index(s0, kx, false) == -1) by {
                if first_index(s0, kx, false) >= 0 {
                    assert(has_key(s0, kx)) by {
                        assert(name_key(s0[first_index(s0, kx, false)]) == kx);
                    }
                }
            }
            assert(preferred(s, kx) == x);
            assert(m == m0.push(x));
            assert forall|i: int| 0 <= i < m.len() implies #[trigger] m[i] == preferred(s, name_key(m[i])) by {
                if i < m0.len() {
                    assert(m[i] == m0[i]);
                    assert(name_key(m0[i]) != kx);
                    assert(has_key(m0, name_key(m0[i])));
                    assert(has_key(s0, name_key(m0[i])));
                }
            }
            assert forall|k: Seq<char>| has_key(s, k) <==> has_key(m, k) by {
                if has_key(s, k) {
                    let j: int = choose|j: int| 0 <= j < s.len() && #[trigger] name_key(s[j]) == k;
                    if j < s0.len() {
                        assert(name_key(s0[j]) == k);
                        assert(has_key(s0, k));
                        let c: int = choose|c: int| 0 <= c < m0.len() && #[trigger] name_key(m0[c]) == k;
                        assert(m[c] == m0[c]);
                    } else {
                        assert(m[m.len() - 1] == x);
                    }
                }
                if has_key(m, k) {
                    let j: int = choose|j: int| 0 <= j < m.len() && #[trigger] name_key(m[j]) == k;
                    if j < m0.len() {
                        assert(m[j] == m0[j]);
                        assert(has_key(m0, k));
                        assert(has_key(s0, k));
                        let c: int = choose|c: int| 0 <= c < s0.len() && #[trigger] name_key(s0[c]) == k;
                        assert(s[c] == s0[c]);
                    } else {
                        assert(s[s.len() - 1] == x);
                    }
                }
            }
        } else {
            let c: int = choose|c: int| 0 <= c < m0.len() && #[trigger] name_key(m0[c]) == kx;
            assert(m0[c] == preferred(s0, kx));
            assert(has_key(s0, kx));
            let w: int = choose|w: int| 0 <= w < s0.len() && #[trigger] name_key(s0[w]) == kx;
            assert(first_index(s0, kx, false) >= 0);
            if m0[c].uninstall_string is None && x.uninstall_string is Some {
                assert(first_index(s0, kx, true) == -1);
                assert(first_index(s, kx, true) == s.len() - 1);
                assert(preferred(s, kx) == x);
                assert(m == m0.update(c, x));
            } else {
                assert(m == m0);
                if first_index(s0, kx, true) >= 0 {
                    assert(first_index(s, kx, true) == first_index(s0, kx, true));
                    assert(preferred(s, kx) == s0[first_index(s0, kx, true)]);
                } else {
                    assert(m0[c].uninstall_string is None);
                    assert(first_index(s, kx, true) == -1);
                    assert(first_index(s, kx, false) == first_index(s0, kx, false));
                    assert(preferred(s, kx) == s0[first_index(s0, kx, false)]);
                }
                assert(preferred(s, kx) == preferred(s0, kx));
            }
            assert forall|i: int| 0 <= i < m.len() implies #[trigger] m[i] == preferred(s, name_key(m[i])) by {
                if i != c {
                    assert(m[i] == m0[i]);
                    assert(name_key(m0[i]) != kx);
                    assert(has_key(m0, name_key(m0[i])));
                    assert(has_key(s0, name_key(m0[i])));
                }
            }
            assert forall|i: int, j: int|
                0 <= i < m.len() && 0 <= j < m.len() && i != j implies #[trigger] name_key(m[i])
                != #[trigger] name_key(m[j]) by {
                assert(name_key(m[c]) == name_key(m0[c]));
                if i != c {
                    assert(m[i] == m0[i]);
                }
                if j != c {
                    assert(m[j] == m0[j]);
                }
            }
            assert forall|k: Seq<char>| has_key(s, k) <==> has_key(m, k) by {
                if has_key(s, k) {
                    let j: int = choose|j: int| 0 <= j < s.len() && #[trigger] name_key(s[j]) == k;
                    if j < s0.len() {
                        assert(name_key(s0[j]) == k);
                        assert(has_key(s0, k));
                        let c2: int = choose|c2: int| 0 <= c2 < m0.len() && #[trigger] name_key(m0[c2]) == k;
                        assert(name_key(m[c2]) == name_key(m0[c2]));
                    } else {
                        assert(name_key(m[c]) == kx);
                    }
                }
                if has_key(m, k) {
                    let j: int = choose|j: int| 0 <= j < m.len() && #[trigger] name_key(m[j]) == k;
                    assert(name_key(m[j]) == name_key(m0[j]));
                    assert(has_key(m0, k));
                    assert(has_key(s0, k));
                    let c2: int = choose|c2: int| 0 <= c2 < s0.len() && #[trigger] name_key(s0[c2]) == k;
                    assert(s[c2] == s0[c2]);
                }
            }
        }
    }
}

} // verus!
