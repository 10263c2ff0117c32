use server_tree::agent_command::{AgentServerCommand, AgentServerSettings};

fn s(x: &str) -> String {
    x.to_string()
}

#[test]
fn settings_command_gets_extra_args() {
    let settings = AgentServerSettings {
        command: AgentServerCommand { path: s("/opt/agent"), args: vec![s("--x")], env: Some(vec![(s("K"), s("V"))]) },
    };
    let r = AgentServerCommand::resolve(&vec![s("--acp")], Some(settings), Some(s("/usr/bin/agent"))).unwrap();
    assert_eq!(r.path, s("/opt/agent"));
    assert_eq!(r.args, vec![s("--x"), s("--acp")]);
    assert_eq!(r.env, Some(vec![(s("K"), s("V"))]));
}

#[test]
fn found_binary_used_without_settings() {
    let r = AgentServerCommand::resolve(&vec![s("--acp")], None, Some(s("/usr/bin/agent"))).unwrap();
    assert_eq!(r.path, s("/usr/bin/agent"));
    assert_eq!(r.args, vec![s("--acp")]);
    assert_eq!(r.env, None);
}

#[test]
fn nothing_without_settings_or_binary() {
    assert!(AgentServerCommand::resolve(&vec![], None, None).is_none());
}
