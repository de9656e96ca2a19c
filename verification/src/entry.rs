//! Turning the values of one `Uninstall` registry key into an application record.
use vstd::prelude::*;
use crate::text::{
    chars_of, contains, contains_run, ends_with, is_suffix, lowercase, push_char, str_lowercase,
    string_of, sub_chars, trim_chars, trim_quote_chars, trim_quotes, trim_ws,
};

verus! {

/// One installed application, as the front end lists it.
#[derive(Debug, Clone, PartialEq, Eq)]
pub struct InstalledApp {
    /// `<uninstall key path>\<subkey name>`: unique per registry entry.
    pub id: String,
    /// `DisplayName`, as stored.
    pub name: String,
    pub publisher: Option<String>,
    pub version: Option<String>,
    pub install_location: Option<String>,
    /// Size in bytes: `EstimatedSize` until the folders have been measured.
    pub size_bytes: u64,
    /// True while `size_bytes` is the registry's estimate rather than a measurement.
    pub size_estimated: bool,
    pub uninstall_string: Option<String>,
    /// An `.ico` file that can be shown for the application.
    pub icon_path: Option<String>,
}

/// The measured size of one application, sent to the front end.
#[derive(Debug, Clone, PartialEq, Eq)]
pub struct AppSizeUpdate {
    pub id: String,
    pub size_bytes: u64,
    pub size_estimated: bool,
}

/// The values of one subkey under `...\CurrentVersion\Uninstall`, as read from the
/// registry (`None` where a value is absent or has another type).
#[derive(Debug, Clone, PartialEq, Eq)]
pub struct RawEntry {
    pub display_name: Option<String>,
    pub system_component: Option<u32>,
    pub release_type: Option<String>,
    pub parent_key_name: Option<String>,
    pub uninstall_string: Option<String>,
    pub quiet_uninstall_string: Option<String>,
    pub install_location: Option<String>,
    pub display_icon: Option<String>,
    pub estimated_size: Option<u32>,
    pub publisher: Option<String>,
    pub display_version: Option<String>,
}

/// A registry string value as the application uses it: trimmed, and absent when
/// nothing but whitespace is left.
pub open spec fn clean_value(raw: Option<Seq<char>>) -> Option<Seq<char>> {
    match raw {
        Some(s) => if trim_ws(s).len() > 0 {
            Some(trim_ws(s))
        } else {
            None
        },
        None => None,
    }
}

/// Trims a registry string value; a value that is empty after trimming counts as absent.
pub fn registry_string(raw: &Option<String>) -> (r: Option<String>)
    ensures
        r.deep_view() == clean_value(raw.deep_view()),
{
    match raw {
        Some(s) => {
            let chars = chars_of(s.as_str());
            let t = trim_chars(&chars);
            if t.len() > 0 {
                Some(string_of(&t))
            } else {
                None
            }
        },
        None => None,
    }
}

/// A `ReleaseType` (already lower-cased) that marks an update rather than an application.
pub open spec fn is_update_release(rt: Seq<char>) -> bool {
    ||| contains_run(rt, seq!['u', 'p', 'd', 'a', 't', 'e'])
    ||| contains_run(rt, seq!['h', 'o', 't', 'f', 'i', 'x'])
    ||| contains_run(rt, seq!['s', 'e', 'c', 'u', 'r', 'i', 't', 'y'])
}

/// Whether a registry entry describes an application to list: it has a
/// `DisplayName` that is not blank, is not a system component, is not an update,
/// hotfix or security release, and has no parent entry.
pub open spec fn entry_listed(raw: &RawEntry) -> bool {
    &&& raw.display_name matches Some(name) && trim_ws(name@).len() > 0
    &&& raw.system_component != Some(1u32)
    &&& !(clean_value(raw.release_type.deep_view()) matches Some(rt) && is_update_release(
        str_lowercase(rt),
    ))
    &&& clean_value(raw.parent_key_name.deep_view()) is None
}

/// A `,<icon index>` suffix: digits and `-` only (possibly none), around whitespace.
pub open spec fn is_icon_index(s: Seq<char>) -> bool {
    forall|j: int| 0 <= j < s.len() ==> ('0' <= #[trigger] s[j] && s[j] <= '9') || s[j] == '-'
}

/// The position of the last `,` in `s`, or -1.
pub open spec fn last_comma(s: Seq<char>) -> int
    decreases s.len(),
{
    if s.len() == 0 {
        -1
    } else if s.last() == ',' {
        s.len() - 1
    } else {
        last_comma(s.drop_last())
    }
}

/// `s` without a trailing `,<icon index>`.
pub open spec fn strip_icon_index(s: Seq<char>) -> Seq<char> {
    let i = last_comma(s);
    if i >= 0 && is_icon_index(trim_ws(s.skip(i + 1))) {
        s.take(i)
    } else {
        s
    }
}

/// The image file named by a `DisplayIcon` value: surrounding quotes and a
/// `,<index>` suffix removed, kept only when it ends in `.ico` (in any case).
pub open spec fn icon_candidate(raw: Seq<char>) -> Option<Seq<char>> {
    let path = trim_quotes(strip_icon_index(trim_quotes(trim_ws(raw))));
    if is_suffix(seq!['.', 'i', 'c', 'o'], str_lowercase(path)) {
        Some(path)
    } else {
        None
    }
}

/// `last_comma` is -1 or the position of a `,`.
pub proof fn lemma_last_comma_bounds(s: Seq<char>)
    ensures
        -1 <= last_comma(s) < s.len(),
        last_comma(s) >= 0 ==> s[last_comma(s)] == ',',
    decreases s.len(),
{
    if s.len() > 0 && s.last() != ',' {
        lemma_last_comma_bounds(s.drop_last());
    }
}

fn last_comma_index(s: &[char]) -> (r: Option<usize>)
    ensures
        r is None <==> last_comma(s@) == -1,
        r matches Some(i) ==> i == last_comma(s@) && i < s@.len(),
{
    let mut k: usize = s.len();
    assert(s@.take(k as int) =~= s@);
    while k > 0 && s[k - 1] != ','
        invariant
            k <= s@.len(),
            last_comma(s@) == last_comma(s@.take(k as int)),
        decreases k,
    {
        assert(s@.take(k as int).drop_last() =~= s@.take(k - 1));
        k = k - 1;
    }
    if k == 0 {
        assert(s@.take(0) =~= Seq::<char>::empty());
        None
    } else {
        Some(k - 1)
    }
}

fn all_icon_index(s: &[char]) -> (r: bool)
    ensures
        r == is_icon_index(s@),
{
    let mut k: usize = 0;
    while k < s.len()
        invariant
            k <= s@.len(),
            forall|j: int| 0 <= j < k ==> ('0' <= #[trigger] s@[j] && s@[j] <= '9') || s@[j] == '-',
        decreases s@.len() - k,
    {
        let c = s[k];
        if !(('0' <= c && c <= '9') || c == '-') {
            return false;
        }
        k = k + 1;
    }
    true
}

/// Reduces a `DisplayIcon` value to an `.ico` path an image element can show:
/// quotes and a `,<index>` suffix are removed; anything but an `.ico` gives `None`.
/// Whether the file exists is for the caller to check.
pub fn icon_to_image_path(raw: Option<String>) -> (r: Option<String>)
    ensures
        r.deep_view() == (match raw.deep_view() {
            Some(s) => icon_candidate(s),
            None => None,
        }),
{
    let raw = match raw {
        Some(s) => s,
        None => return None,
    };
    let chars = chars_of(raw.as_str());
    let trimmed = trim_chars(&chars);
    let path = trim_quote_chars(&trimmed);
    let ghost p0 = path@;
    let plen: usize = path.len();
    let path = match last_comma_index(&path) {
        Some(idx) => {
            let tail = sub_chars(&path, idx + 1, plen);
            assert(tail@ == p0.skip(idx + 1));
            let tail = trim_chars(&tail);
            if all_icon_index(&tail) {
                sub_chars(&path, 0, idx)
            } else {
                path
            }
        },
        None => path,
    };
    proof {
        lemma_last_comma_bounds(p0);
        if last_comma(p0) >= 0 && is_icon_index(trim_ws(p0.skip(last_comma(p0) + 1))) {
            assert(p0.subrange(0, last_comma(p0)) =~= p0.take(last_comma(p0)));
        }
    }
    assert(path@ == strip_icon_index(p0));
    let path = trim_quote_chars(&path);
    let path = string_of(&path);
    let lower = lowercase(path.as_str());
    let lower_chars = chars_of(lower.as_str());
    let ico = vec!['.', 'i', 'c', 'o'];
    if ends_with(&lower_chars, &ico) {
        Some(path)
    } else {
        None
    }
}

/// `<base>\<key>`.
pub open spec fn entry_id(base_path: Seq<char>, key_name: Seq<char>) -> Seq<char> {
    base_path + seq!['\\'] + key_name
}

/// The record made from a listed entry (see `entry_listed`): the display name as
/// stored, the other strings trimmed, `UninstallString` with `QuietUninstallString` as
/// fallback, `EstimatedSize` (KiB) as a byte estimate, and the icon reduced by
/// `icon_candidate`.
pub open spec fn entry_record(
    raw: &RawEntry,
    base_path: Seq<char>,
    key_name: Seq<char>,
    app: &InstalledApp,
) -> bool {
    &&& app.id@ == entry_id(base_path, key_name)
    &&& Some(app.name@) == raw.display_name.deep_view()
    &&& app.publisher.deep_view() == clean_value(raw.publisher.deep_view())
    &&& app.version.deep_view() == clean_value(raw.display_version.deep_view())
    &&& app.install_location.deep_view() == (match clean_value(raw.install_location.deep_view()) {
        Some(s) => if trim_ws(s).len() > 0 {
            Some(s)
        } else {
            None
        },
        None => None,
    })
    &&& app.size_bytes == (match raw.estimated_size {
        Some(kb) => kb * 1024,
        None => 0,
    })
    &&& app.size_estimated
    &&& app.uninstall_string.deep_view() == (match clean_value(raw.uninstall_string.deep_view()) {
        Some(s) => Some(s),
        None => clean_value(raw.quiet_uninstall_string.deep_view()),
    })
    &&& app.icon_path.deep_view() == (match clean_value(raw.display_icon.deep_view()) {
        Some(s) => icon_candidate(s),
        None => None,
    })
}

fn is_update_release_type(rt: &str) -> (r: bool)
    ensures
        r == is_update_release(str_lowercase(rt@)),
{
    let lower = lowercase(rt);
    let l = chars_of(lower.as_str());
    contains(&l, &vec!['u', 'p', 'd', 'a', 't', 'e']) || contains(
        &l,
        &vec!['h', 'o', 't', 'f', 'i', 'x'],
    ) || contains(&l, &vec!['s', 'e', 'c', 'u', 'r', 'i', 't', 'y'])
}

/// Converts one registry entry into an application record, or `None` for entries
/// that are not listed (system components, updates, child entries, blank names).
pub fn parse_entry(raw: RawEntry, base_path: &str, key_name: &str) -> (r: Option<InstalledApp>)
    ensures
        r is Some <==> entry_listed(&raw),
        r matches Some(app) ==> entry_record(&raw, base_path@, key_name@, &app),
{
    let name = match raw.display_name {
        Some(n) => n,
        None => return None,
    };
    let name_chars = chars_of(name.as_str());
    if trim_chars(&name_chars).len() == 0 {
        return None;
    }
    if raw.system_component == Some(1u32) {
        return None;
    }
    if let Some(rt) = registry_string(&raw.release_type) {
        if is_update_release_type(rt.as_str()) {
            return None;
        }
    }
    if registry_string(&raw.parent_key_name).is_some() {
        return None;
    }
    let uninstall_string = match registry_string(&raw.uninstall_string) {
        Some(s) => Some(s),
        None => registry_string(&raw.quiet_uninstall_string),
    };
    let install_location = match registry_string(&raw.install_location) {
        Some(s) => {
            let c = chars_of(s.as_str());
            if trim_chars(&c).len() > 0 {
                Some(s)
            } else {
                None
            }
        },
        None => None,
    };
    let icon_raw = registry_string(&raw.display_icon);
    let estimated_bytes: u64 = match raw.estimated_size {
        Some(kb) => kb as u64 * 1024,
        None => 0,
    };
    let mut id = String::from_str(base_path);
    push_char(&mut id, '\\');
    id.append(key_name);
    assert(id@ =~= entry_id(base_path@, key_name@));
    Some(
        InstalledApp {
            id,
            name,
            publisher: registry_string(&raw.publisher),
            version: registry_string(&raw.display_version),
            install_location,
            size_bytes: estimated_bytes,
            size_estimated: true,
            uninstall_string,
            icon_path: icon_to_image_path(icon_raw),
        },
    )
}

/// When an entry is listed: its `DisplayName` is present and not blank, it is not a
/// system component, its (trimmed, lower-cased) `ReleaseType` mentions none of
/// "update", "hotfix" and "security" anywhere, and it has no parent entry.
pub proof fn lemma_entry_listed_meaning(raw: &RawEntry)
    ensures
        entry_listed(raw) <==> {
            &&& raw.display_name is Some
            &&& trim_ws(raw.display_name->0@).len() > 0
            &&& raw.system_component != Some(1u32)
            &&& raw.release_type is Some && trim_ws(raw.release_type->0@).len() > 0 ==> {
                let rt = str_lowercase(trim_ws(raw.release_type->0@));
                &&& !contains_run(rt, seq!['u', 'p', 'd', 'a', 't', 'e'])
                &&& !contains_run(rt, seq!['h', 'o', 't', 'f', 'i', 'x'])
                &&& !contains_run(rt, seq!['s', 'e', 'c', 'u', 'r', 'i', 't', 'y'])
            }
            &&& !(raw.parent_key_name is Some && trim_ws(raw.parent_key_name->0@).len() > 0)
        },
{
}

} // verus!
