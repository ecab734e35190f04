use tunshell::command::{
    create_rpty_command, null_terminated, prompt, rpty_env, MemfdExecPayload, RptyCommandConfig,
};

fn test_config() -> RptyCommandConfig {
    RptyCommandConfig {
        sock_path: "/tmp/tunshell-test.sock".to_string(),
        term: "xterm".to_string(),
        ps1: "$ ",
    }
}

fn var(name: &str, value: &str) -> (Vec<u8>, Vec<u8>) {
    (name.as_bytes().to_vec(), value.as_bytes().to_vec())
}

fn texts(list: &[Vec<u8>]) -> Vec<String> {
    list.iter().map(|e| String::from_utf8(e.clone()).unwrap()).collect()
}

#[test]
fn prompts() {
    assert_eq!(prompt(false), "[rpty] \\u@\\H:\\w\\$ ");
    assert_eq!(
        prompt(true),
        "\\[\\e[0;38;5;242m\\][rpty] \\[\\e[0;92m\\]\\u\\[\\e[0;92m\\]@\\[\\e[0;92m\\]\\H\\[\\e[0m\\]:\\[\\e[0;38;5;39m\\]\\w\\[\\e[0m\\]\\$ \\[\\e[0m\\]"
    );
    let config = RptyCommandConfig::new("/s".to_string(), "vt100", true);
    assert_eq!(config.sock_path, "/s");
    assert_eq!(config.term, "vt100");
    assert_eq!(config.ps1, prompt(true));
}

#[test]
fn command_has_its_arguments_and_variables() {
    let command = create_rpty_command("/opt/bash-rpty", &test_config());
    assert_eq!(command.program, "/opt/bash-rpty");
    assert_eq!(command.args, vec!["--noprofile", "--norc"]);
    assert_eq!(
        command.env,
        vec![
            ("RPTY_TRANSPORT", "unix:/tmp/tunshell-test.sock".to_string()),
            ("TERM", "xterm".to_string()),
            ("PS1", "$ ".to_string()),
        ]
    );
}

#[test]
fn environment_keeps_what_is_not_set_anew() {
    let inherited = vec![
        var("HOME", "/root"),
        var("TERM", "dumb"),
        var("PATH", "/bin"),
        var("PS1", "# "),
        var("PS10", "x"),
        var("", "odd"),
        var("TERM", "again"),
    ];
    let env = match rpty_env(&test_config(), &inherited) {
        Ok(env) => env,
        Err(e) => panic!("{}", e.message()),
    };
    assert_eq!(
        texts(&env),
        vec![
            "HOME=/root",
            "PATH=/bin",
            "PS10=x",
            "=odd",
            "RPTY_TRANSPORT=unix:/tmp/tunshell-test.sock",
            "TERM=xterm",
            "PS1=$ ",
        ]
    );
}

#[test]
fn variable_with_a_nul_byte_is_refused() {
    let bad = vec![var("A", "b"), var("C", "d\0e")];
    match rpty_env(&test_config(), &bad) {
        Ok(_) => panic!(),
        Err(e) => assert_eq!(e.message(), "environment variable contained nul byte"),
    }
    let mut config = test_config();
    config.term = "x\0".to_string();
    assert!(rpty_env(&config, &vec![]).is_err());
    assert!(rpty_env(&test_config(), &vec![var("TERM", "\0")]).is_ok());
    assert!(rpty_env(&test_config(), &vec![(vec![0xff], vec![0xfe])]).is_ok());
}

#[test]
fn payload_has_arguments_and_environment() {
    let payload = match MemfdExecPayload::new(7u8, &test_config(), &vec![var("A", "b")]) {
        Ok(p) => p,
        Err(e) => panic!("{}", e.message()),
    };
    assert_eq!(payload.memfd, 7);
    assert_eq!(texts(&payload.argv), vec!["bash-rpty", "--noprofile", "--norc"]);
    assert_eq!(payload.env.len(), 4);
    assert_eq!(payload.env[0], b"A=b");
    assert!(MemfdExecPayload::new((), &test_config(), &vec![var("A\0", "b")]).is_err());
}

#[test]
fn addresses_end_in_null() {
    assert_eq!(null_terminated(vec![3, 5]), vec![3, 5, 0]);
    assert_eq!(null_terminated(vec![]), vec![0]);
}
