//! What the install wizard writes and reports: the install folder, the progress
//! steps, the scripts it runs and the values it registers.
use vstd::prelude::*;
use crate::text::{decimal, push_decimal};

verus! {

/// The number of progress steps of an installation.
pub const TOTAL_STEPS: u32 = 5;

/// One `install-progress` event: step `step` of `total`, with a message.
#[derive(Debug, Clone, PartialEq, Eq)]
pub struct Progress {
    pub step: u32,
    pub total: u32,
    pub message: String,
}

/// The install folder: `<base>\AppDeleter`, with `base` the per-user local
/// application data folder, or `C:\Users\Public` when it is unknown.
pub fn install_dir_for(local_app_data: Option<String>) -> (r: String)
    ensures
        r@ == (match local_app_data {
            Some(b) => b@,
            None => "C:\\Users\\Public"@,
        }) + "\\AppDeleter"@,
{
    let mut r = match local_app_data {
        Some(b) => b,
        None => String::from_str("C:\\Users\\Public"),
    };
    r.append("\\AppDeleter");
    r
}

/// The message shown at each step of an installation.
pub open spec fn step_message(step: u32) -> Seq<char> {
    if step == 1 {
        "설치 폴더 생성 중…"@
    } else if step == 2 {
        "앱 파일 복사 중…"@
    } else if step == 3 {
        "바로가기 생성 중…"@
    } else if step == 4 {
        "제거 정보 등록 중…"@
    } else {
        "설치 완료"@
    }
}

/// The progress event of step `step` (1 to 5): create the folder, copy the files,
/// create the shortcuts, register the uninstall entry, done.
pub fn progress(step: u32) -> (r: Progress)
    requires
        1 <= step <= TOTAL_STEPS,
    ensures
        r.step == step,
        r.total == TOTAL_STEPS,
        r.message@ == step_message(step),
{
    let message = if step == 1 {
        String::from_str("설치 폴더 생성 중…")
    } else if step == 2 {
        String::from_str("앱 파일 복사 중…")
    } else if step == 3 {
        String::from_str("바로가기 생성 중…")
    } else if step == 4 {
        String::from_str("제거 정보 등록 중…")
    } else {
        String::from_str("설치 완료")
    };
    Progress { step, total: TOTAL_STEPS, message }
}

/// The message given when the wizard was built without the application inside.
pub open spec fn empty_payload_message() -> Seq<char> {
    "임베드된 앱 페이로드가 비어 있습니다. CI 빌드에서만 정상 동작합니다."@
}

/// Refuses to install when the embedded application is empty.
pub fn check_payload(payload_len: usize) -> (r: Result<(), String>)
    ensures
        r is Ok <==> payload_len > 0,
        r matches Err(e) ==> e@ == empty_payload_message(),
{
    if payload_len == 0 {
        Err(String::from_str("임베드된 앱 페이로드가 비어 있습니다. CI 빌드에서만 정상 동작합니다."))
    } else {
        Ok(())
    }
}

/// The PowerShell command that starts the installed application through the shell,
/// so that its elevation prompt appears.
pub fn launch_script(exe: &str) -> (r: String)
    ensures
        r@ == "Start-Process -FilePath '"@ + exe@ + "'"@,
{
    let mut r = String::from_str("Start-Process -FilePath '");
    r.append(exe);
    r.append("'");
    r
}

/// The PowerShell script that creates the two shortcuts through `WScript.Shell`.
pub open spec fn shortcut_script_spec(
    start_menu: Seq<char>,
    desktop: Seq<char>,
    exe: Seq<char>,
    workdir: Seq<char>,
    icon: Seq<char>,
) -> Seq<char> {
    "$ws = New-Object -ComObject WScript.Shell\nforeach ($lnk in @(\""@ + start_menu + "\", \""@
        + desktop + "\")) {\n$s = $ws.CreateShortcut($lnk)\n$s.TargetPath = \""@ + exe
        + "\"\n$s.WorkingDirectory = \""@ + workdir + "\"\n$s.IconLocation = \""@ + icon
        + "\"\n$s.Description = \"App Deleter\"\n$s.Save()\n}"@
}

/// Writes the shortcut script for the given shortcut, target, working folder and icon paths.
pub fn shortcut_script(start_menu: &str, desktop: &str, exe: &str, workdir: &str, icon: &str) -> (r:
    String)
    ensures
        r@ == shortcut_script_spec(start_menu@, desktop@, exe@, workdir@, icon@),
{
    let mut r = String::from_str("$ws = New-Object -ComObject WScript.Shell\nforeach ($lnk in @(\"");
    r.append(start_menu);
    r.append("\", \"");
    r.append(desktop);
    r.append("\")) {\n$s = $ws.CreateShortcut($lnk)\n$s.TargetPath = \"");
    r.append(exe);
    r.append("\"\n$s.WorkingDirectory = \"");
    r.append(workdir);
    r.append("\"\n$s.IconLocation = \"");
    r.append(icon);
    r.append("\"\n$s.Description = \"App Deleter\"\n$s.Save()\n}");
    r
}

/// The name of the temporary script file of process `pid`.
pub fn setup_script_name(pid: u32) -> (r: String)
    ensures
        r@ == "appdeleter_setup_"@ + decimal(pid as nat) + ".ps1"@,
{
    let mut r = String::from_str("appdeleter_setup_");
    push_decimal(&mut r, pid);
    r.append(".ps1");
    r
}

/// The values written to the uninstall entry of App Deleter.
#[derive(Debug, Clone, PartialEq, Eq)]
pub struct UninstallEntry {
    pub display_name: String,
    pub display_version: String,
    pub publisher: String,
    pub install_location: String,
    pub display_icon: String,
    pub no_modify: u32,
    pub no_repair: u32,
    /// The application's size in KiB.
    pub estimated_size: u32,
    pub uninstall_string: String,
}

/// The uninstall entry for an installation in `dir`, with the given icon and
/// uninstaller paths, application version, and application size in bytes.
pub fn uninstall_entry(version: &str, dir: &str, icon: &str, uninstaller: &str, payload_len: usize) -> (r:
    UninstallEntry)
    ensures
        r.display_name@ == "App Deleter"@,
        r.display_version@ == version@,
        r.publisher@ == "neramc"@,
        r.install_location@ == dir@,
        r.display_icon@ == icon@,
        r.no_modify == 1,
        r.no_repair == 1,
        r.estimated_size == (payload_len / 1024) as u32,
        r.uninstall_string@ == "\""@ + uninstaller@ + "\""@,
{
    let mut quoted = String::from_str("\"");
    quoted.append(uninstaller);
    quoted.append("\"");
    UninstallEntry {
        display_name: String::from_str("App Deleter"),
        display_version: String::from_str(version),
        publisher: String::from_str("neramc"),
        install_location: String::from_str(dir),
        display_icon: String::from_str(icon),
        no_modify: 1,
        no_repair: 1,
        estimated_size: (payload_len / 1024) as u32,
        uninstall_string: quoted,
    }
}

} // verus!
