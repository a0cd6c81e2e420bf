use ts_host::permission::{Access, Capability, PermissionState};
use ts_host::prompt::{render_prompt, PromptResponse};

#[test]
fn denied_read_of_etc_passwd_fails_afterwards() {
    let mut state = PermissionState::new();
    let req = match state.access(Capability::FilesystemRead, "/etc/passwd") {
        Access::Ask(req) => req,
        _ => panic!("first use must prompt"),
    };
    assert_eq!(req.name, "filesystem-read");
    assert_eq!(req.message, "/etc/passwd");
    assert!(req.is_unary);
    let text = render_prompt(&req);
    assert!(text.contains("Name: filesystem-read"));
    assert!(text.contains("/etc/passwd"));
    assert!(text.contains("Is unary: true"));
    assert_eq!(state.answer(Capability::FilesystemRead, "/etc/passwd", Some("n\n")), PromptResponse::Deny);
    assert!(matches!(state.access(Capability::FilesystemRead, "/etc/passwd"), Access::Refused));
    assert!(matches!(state.access(Capability::FilesystemRead, "/etc/hosts"), Access::Ask(_)));
    assert!(matches!(state.access(Capability::FilesystemWrite, "/etc/passwd"), Access::Ask(_)));
}

#[test]
fn allowed_operation_proceeds_and_can_be_revoked() {
    let mut state = PermissionState::new();
    assert_eq!(state.answer(Capability::Network, "deno.land:443", Some(" YES ")), PromptResponse::Allow);
    assert!(matches!(state.access(Capability::Network, "deno.land:443"), Access::Granted));
    assert_eq!(state.check(Capability::Network, "deno.land:443"), Some(PromptResponse::Allow));
    state.record(Capability::Network, "deno.land:443", PromptResponse::Deny);
    assert_eq!(state.check(Capability::Network, "deno.land:443"), Some(PromptResponse::Deny));
}

#[test]
fn failed_read_of_answer_is_remembered_as_denial() {
    let mut state = PermissionState::new();
    assert_eq!(state.answer(Capability::Environment, "HOME", None), PromptResponse::Deny);
    assert!(matches!(state.access(Capability::Environment, "HOME"), Access::Refused));
}

#[test]
fn capability_names() {
    assert_eq!(Capability::FilesystemRead.name(), "filesystem-read");
    assert_eq!(Capability::FilesystemWrite.name(), "filesystem-write");
    assert_eq!(Capability::Network.name(), "network");
    assert_eq!(Capability::Environment.name(), "environment");
    assert_eq!(Capability::SubprocessSpawn.name(), "subprocess-spawn");
    assert_eq!(Capability::NativeBindingLoad.name(), "native-binding-load");
}
