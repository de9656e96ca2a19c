use app_deleter::elevation::{elevated_from_token, nul_terminated, runas_verb, shell_execute_outcome};
use app_deleter::installer::{
    check_payload, install_dir_for, launch_script, progress, setup_script_name, shortcut_script,
    uninstall_entry, TOTAL_STEPS,
};
use app_deleter::uninstaller::{app_info, cleanup_command};

#[test]
fn install_dir_defaults_to_public_profile() {
    assert_eq!(install_dir_for(Some("C:\\Users\\me\\AppData\\Local".to_string())), "C:\\Users\\me\\AppData\\Local\\AppDeleter");
    assert_eq!(install_dir_for(None), "C:\\Users\\Public\\AppDeleter");
}

#[test]
fn progress_steps() {
    let msgs: Vec<String> = (1..=TOTAL_STEPS).map(|s| progress(s).message).collect();
    assert_eq!(msgs, vec!["설치 폴더 생성 중…", "앱 파일 복사 중…", "바로가기 생성 중…", "제거 정보 등록 중…", "설치 완료"]);
    for s in 1..=TOTAL_STEPS {
        let p = progress(s);
        assert_eq!((p.step, p.total), (s, 5));
    }
}

#[test]
fn empty_payload_is_refused() {
    assert!(check_payload(1).is_ok());
    assert_eq!(check_payload(0), Err("임베드된 앱 페이로드가 비어 있습니다. CI 빌드에서만 정상 동작합니다.".to_string()));
}

#[test]
fn scripts_are_written_exactly() {
    assert_eq!(launch_script("C:\\X\\app-deleter.exe"), "Start-Process -FilePath 'C:\\X\\app-deleter.exe'");
    let sm = "C:\\SM\\App Deleter.lnk";
    let dt = "C:\\D\\App Deleter.lnk";
    let exe = "C:\\X\\app-deleter.exe";
    let wd = "C:\\X";
    let icon = "C:\\X\\icon.ico";
    let expected = format!(
        "$ws = New-Object -ComObject WScript.Shell\n\
         foreach ($lnk in @(\"{sm}\", \"{dt}\")) {{\n\
         $s = $ws.CreateShortcut($lnk)\n\
         $s.TargetPath = \"{exe}\"\n\
         $s.WorkingDirectory = \"{wd}\"\n\
         $s.IconLocation = \"{icon}\"\n\
         $s.Description = \"App Deleter\"\n\
         $s.Save()\n\
         }}"
    );
    assert_eq!(shortcut_script(sm, dt, exe, wd, icon), expected);
    assert_eq!(setup_script_name(4711), "appdeleter_setup_4711.ps1");
    assert_eq!(setup_script_name(0), "appdeleter_setup_0.ps1");
    assert_eq!(setup_script_name(u32::MAX), format!("appdeleter_setup_{}.ps1", u32::MAX));
}

#[test]
fn uninstall_entry_values() {
    let e = uninstall_entry("1.2.3", "C:\\X", "C:\\X\\icon.ico", "C:\\X\\uninstall.exe", 5 * 1024 * 1024 + 7);
    assert_eq!(e.display_name, "App Deleter");
    assert_eq!(e.display_version, "1.2.3");
    assert_eq!(e.publisher, "neramc");
    assert_eq!(e.install_location, "C:\\X");
    assert_eq!(e.display_icon, "C:\\X\\icon.ico");
    assert_eq!((e.no_modify, e.no_repair, e.estimated_size), (1, 1, 5 * 1024));
    assert_eq!(e.uninstall_string, "\"C:\\X\\uninstall.exe\"");
}

#[test]
fn uninstaller_info_and_cleanup() {
    let i = app_info(Some("C:\\X".to_string()), None);
    assert_eq!((i.dir.as_str(), i.version.as_str()), ("C:\\X", ""));
    let i = app_info(None, Some("0.1.0".to_string()));
    assert_eq!((i.dir.as_str(), i.version.as_str()), ("", "0.1.0"));
    assert_eq!(cleanup_command(None, 1), Err("설치 위치를 확인할 수 없습니다.".to_string()));
    let pid = 1234u32;
    let dir = "C:\\X";
    let expected = format!(
        "try {{ Wait-Process -Id {pid} -Timeout 120 -ErrorAction SilentlyContinue }} catch {{}}; \
         Start-Sleep -Milliseconds 400; \
         Remove-Item -LiteralPath '{dir}' -Recurse -Force -ErrorAction SilentlyContinue"
    );
    assert_eq!(cleanup_command(Some(dir.to_string()), pid), Ok(expected));
}

#[test]
fn elevation_decisions() {
    assert!(elevated_from_token(true, true, 1));
    assert!(!elevated_from_token(true, true, 0));
    assert!(!elevated_from_token(false, true, 1));
    assert!(!elevated_from_token(true, false, 1));
    let verb: Vec<u16> = "runas\0".encode_utf16().collect();
    assert_eq!(runas_verb(), verb);
    assert_eq!(nul_terminated(vec![65, 66]), vec![65, 66, 0]);
    assert!(shell_execute_outcome(33).is_ok());
    assert_eq!(shell_execute_outcome(32), Err("권한 상승이 취소되었거나 실패했습니다.".to_string()));
    assert!(shell_execute_outcome(-1).is_err());
}
