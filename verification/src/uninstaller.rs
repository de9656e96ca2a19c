//! What the uninstall wizard reports and schedules.
use vstd::prelude::*;
use crate::text::{decimal, push_decimal};

verus! {

/// The install folder and version shown by the uninstall wizard.
#[derive(Debug, Clone, PartialEq, Eq)]
pub struct AppInfo {
    pub dir: String,
    pub version: String,
}

/// The wizard's information: what was found, empty where nothing was.
pub fn app_info(dir: Option<String>, version: Option<String>) -> (r: AppInfo)
    ensures
        r.dir@ == (match dir {
            Some(d) => d@,
            None => Seq::<char>::empty(),
        }),
        r.version@ == (match version {
            Some(v) => v@,
            None => Seq::<char>::empty(),
        }),
{
    AppInfo {
        dir: match dir {
            Some(d) => d,
            None => String::new(),
        },
        version: match version {
            Some(v) => v,
            None => String::new(),
        },
    }
}

/// The message given when the install folder cannot be determined.
pub open spec fn unknown_dir_message() -> Seq<char> {
    "설치 위치를 확인할 수 없습니다."@
}

/// The PowerShell command that waits for process `pid` to end (two minutes at most),
/// then deletes the install folder `dir` with everything in it.
pub open spec fn cleanup_script_spec(pid: u32, dir: Seq<char>) -> Seq<char> {
    "try { Wait-Process -Id "@ + decimal(pid as nat)
        + " -Timeout 120 -ErrorAction SilentlyContinue } catch {}; Start-Sleep -Milliseconds 400; Remove-Item -LiteralPath '"@
        + dir + "' -Recurse -Force -ErrorAction SilentlyContinue"@
}

/// The clean-up command for the folder the wizard runs from; an error when that
/// folder is unknown.
pub fn cleanup_command(install_dir: Option<String>, pid: u32) -> (r: Result<String, String>)
    ensures
        r is Ok <==> install_dir is Some,
        r matches Err(e) ==> e@ == unknown_dir_message(),
        r matches Ok(s) ==> s@ == cleanup_script_spec(pid, install_dir->0@),
{
    let dir = match install_dir {
        Some(d) => d,
        None => return Err(String::from_str("설치 위치를 확인할 수 없습니다.")),
    };
    let mut r = String::from_str("try { Wait-Process -Id ");
    push_decimal(&mut r, pid);
    r.append(
        " -Timeout 120 -ErrorAction SilentlyContinue } catch {}; Start-Sleep -Milliseconds 400; Remove-Item -LiteralPath '",
    );
    r.append(dir.as_str());
    r.append("' -Recurse -Force -ErrorAction SilentlyContinue");
    Ok(r)
}

} // verus!
