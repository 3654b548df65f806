use miyu::paths::search_path::{path_with_executable_dir, ProgramDir};
use miyu::shell::bash::{hook, BEGIN_MARKER, END_MARKER};
use miyu::tool_names::{is_command_tool, tool_event_base_name, tool_kind, ToolKind};

#[test]
fn bash_hook_defines_command_not_found_handler() {
    let hook = hook("");
    assert!(hook.contains("command_not_found_handle"));
    assert!(hook.contains("--shell bash"));
    assert!(hook.contains("return 127"));
}

#[test]
fn bash_hook_does_not_filter_natural_language_symbols() {
    let hook = hook("");
    assert!(!hook.contains("${#text} <= 120"));
    assert!(!hook.contains("miyu_shell_syntax_pattern"));
    assert!(!hook.contains("miyu_leading_pattern"));
}

#[test]
fn the_hook_comes_after_its_prelude() {
    let hook = hook("# prelude\n");
    assert!(hook.starts_with("# prelude\ncommand_not_found_handle() {\n"));
    assert!(hook.contains("[[ \"$text\" != *$'\\n'* && \"$text\" != *$'\\r'* ]] || return 127"));
    assert_ne!(BEGIN_MARKER, END_MARKER);
}

#[test]
fn kinds_follow_the_base_name() {
    assert_eq!(tool_kind("run_command"), ToolKind::Command);
    assert_eq!(tool_kind("Bash"), ToolKind::Command);
    assert_eq!(tool_kind("edit"), ToolKind::FileEdit);
    assert_eq!(tool_kind("replace_file_content"), ToolKind::FileEdit);
    for other in ["kb", "artifact", "trash_path", "read", "subagent:查资料"] {
        assert_eq!(tool_kind(other), ToolKind::Other, "{other}");
    }
}

#[test]
fn a_label_after_a_colon_is_not_part_of_the_name() {
    assert_eq!(tool_event_base_name("subagent:查资料"), "subagent");
    assert_eq!(tool_event_base_name("read"), "read");
    assert!(is_command_tool("run_command") && !is_command_tool("read"));
}

fn dir(path: &std::path::Path) -> ProgramDir {
    ProgramDir {
        bytes: path.to_str().unwrap().as_bytes().to_vec(),
        there: path.is_dir(),
    }
}

fn extended(path: &str, dir: &ProgramDir) -> Option<String> {
    let path = path.as_bytes().to_vec();
    path_with_executable_dir(Some(&path), Some(dir)).map(|path| String::from_utf8(path).unwrap())
}

#[test]
fn appends_the_executable_directory_when_path_lacks_it() {
    let temp = tempfile::tempdir().unwrap();
    let bin = temp.path().to_path_buf();
    let path = extended("/usr/bin:/bin", &dir(bin.join("miyu").parent().unwrap()))
        .expect("PATH 里没有程序所在目录时要补上");
    assert_eq!(
        path.split(':').map(std::path::PathBuf::from).collect::<Vec<_>>(),
        vec![
            std::path::PathBuf::from("/usr/bin"),
            std::path::PathBuf::from("/bin"),
            bin
        ],
        "补在末尾,原有顺序不动"
    );
}

#[test]
fn leaves_path_alone_when_already_present_unset_or_bogus() {
    let temp = tempfile::tempdir().unwrap();
    let bin = temp.path().to_path_buf();
    let listed = format!("/usr/bin:{}", bin.display());
    assert_eq!(extended(&listed, &dir(&bin)), None);
    assert_eq!(path_with_executable_dir(None, Some(&dir(&bin))), None);
    // 测试构建里 miyu_executable() 给的是一个必然不存在的路径,不能把它塞进 PATH。
    let missing = std::path::Path::new("/nonexistent/miyu-test-harness");
    assert_eq!(extended("/usr/bin", &dir(missing.parent().unwrap())), None);
    let bare = std::path::Path::new("miyu");
    assert_eq!(extended("/usr/bin", &dir(bare.parent().unwrap())), None);
}

fn there(path: &str) -> ProgramDir {
    ProgramDir {
        bytes: path.as_bytes().to_vec(),
        there: true,
    }
}

#[test]
fn a_directory_is_known_however_it_is_written() {
    for listed in ["/opt/bin", "/opt/bin/", "/opt//bin", "/opt/./bin", "/./opt/bin/."] {
        let path = format!("/usr/bin:{listed}:/bin");
        assert_eq!(extended(&path, &there("/opt/bin")), None, "{listed}");
    }
    for other in ["opt/bin", "/opt/bin/more", "/opt", "/opt/../opt/bin", "/opt/bin2"] {
        let path = format!("/usr/bin:{other}");
        assert_eq!(
            extended(&path, &there("/opt/bin")),
            Some(format!("/usr/bin:{other}:/opt/bin")),
            "{other}"
        );
    }
}

#[test]
fn a_directory_is_added_once() {
    let once = extended("/usr/bin", &there("/opt/bin")).unwrap();
    assert_eq!(once, "/usr/bin:/opt/bin");
    assert_eq!(extended(&once, &there("/opt/bin")), None);
    assert_eq!(extended("", &there("/opt/bin")), Some(":/opt/bin".to_string()));
}

#[test]
fn a_directory_that_cannot_be_listed_is_left_out() {
    assert_eq!(extended("/usr/bin", &there("/opt/a:b")), None);
    let path = b"/usr/bin".to_vec();
    assert_eq!(path_with_executable_dir(Some(&path), None), None);
}
