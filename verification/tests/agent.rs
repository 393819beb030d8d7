use locald_core::agent::{AgentContextError, AgentConversationKey, AgentWorkspaceContext, AGENT_ADAPTER_PROTOCOL_VERSION};

#[test]
fn conversation_key_is_stable_redacted_and_contains_no_private_identity() {
    let private = "issuer=codex;thread=private-thread-123";
    let first = AgentConversationKey::digest(private).expect("digest identity");
    let second = AgentConversationKey::digest(private).expect("digest identity again");

    assert!(first == second);
    assert_eq!(first.as_opaque_str().len(), 64);
    assert!(!first.as_opaque_str().contains("private-thread"));
}

#[test]
fn deserialization_rejects_non_digest_conversation_values() {
    assert!(AgentConversationKey::from_opaque("private-thread-123".to_string()).is_err());
    let valid = AgentConversationKey::digest("x").expect("digest").as_opaque_str().to_string();
    assert!(AgentConversationKey::from_opaque(valid).is_ok());
    assert!(AgentConversationKey::digest(" \n").is_err());
}

#[test]
fn workspace_context_requires_supported_protocol_and_locator() {
    let conversation = AgentConversationKey::digest("conversation").expect("digest identity");
    let empty = AgentWorkspaceContext {
        protocol_version: AGENT_ADAPTER_PROTOCOL_VERSION,
        conversation: conversation.clone(),
        workspace_roots: Vec::new(),
        sandbox_cwd: None,
        process_cwd: None,
    };
    assert_eq!(empty.validate(), Err(AgentContextError::MissingWorkspaceLocator));

    let wrong_version = AgentWorkspaceContext {
        protocol_version: AGENT_ADAPTER_PROTOCOL_VERSION + 1,
        conversation,
        workspace_roots: vec!["/tmp/project".to_string()],
        sandbox_cwd: None,
        process_cwd: None,
    };
    assert!(matches!(wrong_version.validate(), Err(AgentContextError::UnsupportedProtocol { .. })));
}

#[test]
fn digest_keys_are_canonical_lowercase_hex() {
    let key = AgentConversationKey::digest("private conversation").expect("digest");
    assert!(key.validate().is_ok());
    assert!(key.as_opaque_str().bytes().all(|b| b.is_ascii_digit() || (b'a'..=b'f').contains(&b)));
}
