use wortex::cliargs::{command_of_args, parse_code_list, ExitKillArg};
use wortex::entity::{Command, ExitKill};
use wortex::error::Error;
use wortex::registry::ensure_initialized;
use wortex::tools::validate_hook_type;

#[test]
fn test_codes_policy_matches_listed_codes_only() {
    let policy = ExitKill::Codes(vec![0, 1]);
    assert!(policy.matches(0));
    assert!(policy.matches(1));
    assert!(!policy.matches(2));
}

#[test]
fn test_any_policy_matches_every_code() {
    let policy = ExitKill::Any;
    assert!(policy.matches(0));
    assert!(policy.matches(1));
    assert!(policy.matches(-1));
    assert!(policy.matches(i32::MAX));
    assert!(policy.matches(i32::MIN));
}

#[test]
fn test_parse_absent_flag_means_no_policy() {
    assert!(ExitKillArg::parse(None).is_none());
}

#[test]
fn test_parse_bare_flag_means_default() {
    assert!(matches!(
        ExitKillArg::parse(Some(None)),
        Some(ExitKillArg::Default)
    ));
}

#[test]
fn test_parse_any_keyword_any_case() {
    assert!(matches!(
        ExitKillArg::parse(Some(Some("any".to_string()))),
        Some(ExitKillArg::Any)
    ));
    assert!(matches!(
        ExitKillArg::parse(Some(Some("ANY".to_string()))),
        Some(ExitKillArg::Any)
    ));
    assert!(matches!(
        ExitKillArg::parse(Some(Some("Any".to_string()))),
        Some(ExitKillArg::Any)
    ));
}

#[test]
fn test_parse_code_list_flag() {
    match ExitKillArg::parse(Some(Some("0,1".to_string()))) {
        Some(ExitKillArg::Codes(codes)) => assert_eq!(codes, vec![0, 1]),
        other => panic!("expected Codes, got {:?}", other),
    }
}

#[test]
fn test_parse_unparseable_list_falls_back_to_default() {
    assert!(matches!(
        ExitKillArg::parse(Some(Some("xyz".to_string()))),
        Some(ExitKillArg::Default)
    ));
    assert!(matches!(
        ExitKillArg::parse(Some(Some("".to_string()))),
        Some(ExitKillArg::Default)
    ));
}

#[test]
fn test_parse_code_list_trims_and_skips_bad_tokens() {
    assert_eq!(parse_code_list(" 0 , 1 "), vec![0, 1]);
    assert_eq!(parse_code_list("2,x,3"), vec![2, 3]);
    assert_eq!(parse_code_list("-1,+2"), vec![-1, 2]);
}

#[test]
fn test_parse_code_list_integer_bounds() {
    assert_eq!(parse_code_list("2147483647"), vec![2147483647]);
    assert_eq!(parse_code_list("-2147483648"), vec![-2147483648]);
    // values out of the 32-bit range are skipped
    assert_eq!(parse_code_list("2147483648"), Vec::<i32>::new());
    assert_eq!(parse_code_list("99999999999999999999"), Vec::<i32>::new());
}

#[test]
fn test_default_request_stands_for_code_zero() {
    let policy = ExitKillArg::Default.to_exit_kill();
    match &policy {
        ExitKill::Codes(codes) => assert_eq!(codes, &[0]),
        _ => panic!("expected Codes"),
    }
    assert!(policy.matches(0));
    assert!(!policy.matches(1));
}

#[test]
fn test_to_exit_kill_passes_through_any_and_codes() {
    assert!(matches!(ExitKillArg::Any.to_exit_kill(), ExitKill::Any));
    match ExitKillArg::Codes(vec![2, 5]).to_exit_kill() {
        ExitKill::Codes(codes) => assert_eq!(codes, vec![2, 5]),
        _ => panic!("expected Codes"),
    }
}

#[test]
fn test_command_of_args_requires_exactly_one_command() {
    assert!(matches!(
        command_of_args(None, None, None),
        Err(Error::NoCommand)
    ));
    assert!(matches!(
        command_of_args(
            Some("p".to_string()),
            Some("c".to_string()),
            None
        ),
        Err(Error::ConflictingCommands)
    ));
}

#[test]
fn test_command_of_args_builds_each_variant() {
    match command_of_args(Some("do it".to_string()), None, Some("agent-1".to_string())) {
        Ok(Command::Claude { prompt, agent }) => {
            assert_eq!(prompt, "do it");
            assert_eq!(agent.as_deref(), Some("agent-1"));
        }
        other => panic!("expected assisted command, got {:?}", other),
    }
    match command_of_args(None, Some("make test".to_string()), None) {
        Ok(Command::Raw { cmd }) => assert_eq!(cmd, "make test"),
        other => panic!("expected Raw, got {:?}", other),
    }
}

#[test]
fn test_validate_hook_type_accepts_pre_and_post_only() {
    assert!(validate_hook_type("pre").is_ok());
    assert!(validate_hook_type("post").is_ok());
    assert!(matches!(
        validate_hook_type("during"),
        Err(Error::InvalidHookType(_))
    ));
}

#[test]
fn test_ensure_initialized_gates_on_directory() {
    assert!(ensure_initialized(true).is_ok());
    assert!(matches!(
        ensure_initialized(false),
        Err(Error::NotInitialized)
    ));
}
