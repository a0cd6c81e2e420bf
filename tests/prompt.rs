use ts_host::prompt::{decide, render_prompt, trim_str, PromptRequest, PromptResponse};

#[test]
fn affirmative_answers_allow() {
    for a in ["y", "Y", "yes", "YES", "  y  ", "\tYes\n", " yEs\r\n"] {
        assert_eq!(decide(Some(a)), PromptResponse::Allow, "answer {:?}", a);
    }
}

#[test]
fn other_answers_deny() {
    for a in ["", "n", "maybe", "no", "yess", "y e s", "ye", "\n"] {
        assert_eq!(decide(Some(a)), PromptResponse::Deny, "answer {:?}", a);
    }
}

#[test]
fn failed_read_denies() {
    assert_eq!(decide(None), PromptResponse::Deny);
}

#[test]
fn trim_removes_unicode_space() {
    assert_eq!(trim_str("\u{3000} yes \u{a0}"), "yes");
    assert_eq!(trim_str("   "), "");
    assert_eq!(trim_str("a b"), "a b");
}

#[test]
fn prompt_names_capability_and_resource() {
    let req = PromptRequest {
        message: "read access to \"/etc/passwd\"".to_string(),
        name: "filesystem-read".to_string(),
        api_name: Some("Deno.readFileSync()".to_string()),
        is_unary: true,
    };
    let text = render_prompt(&req);
    assert_eq!(
        text,
        "Script is trying to access APIs and needs permission:\nMessage: read access to \"/etc/passwd\"\nName: filesystem-read\nAPI: Deno.readFileSync()\nIs unary: true\nAllow? [y/n]"
    );
    assert_eq!(decide(Some("n\n")), PromptResponse::Deny);
}

#[test]
fn prompt_without_api_name() {
    let req = PromptRequest {
        message: "network access".to_string(),
        name: "network".to_string(),
        api_name: None,
        is_unary: false,
    };
    let text = render_prompt(&req);
    assert!(text.contains("\nAPI: none\n"));
    assert!(text.contains("\nIs unary: false\n"));
}
