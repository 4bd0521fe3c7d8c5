use leader_schedule::args::{parse_args, Args, ArgsError};
use leader_schedule::endpoint::{
    get_url, reads, DEFAULT_DEVNET_RPC_URL, DEFAULT_LOCALHOST_RPC_URL, DEFAULT_MAINNET_RPC_URL,
    DEFAULT_TESTNET_RPC_URL,
};

fn line(arguments: &[&str]) -> Vec<String> {
    arguments.iter().map(|argument| argument.to_string()).collect()
}

#[test]
fn endpoints_of_the_networks() {
    assert_eq!(DEFAULT_MAINNET_RPC_URL, "https://api.mainnet-beta.solana.com");
    assert_eq!(DEFAULT_TESTNET_RPC_URL, "https://api.testnet.solana.com");
    assert_eq!(DEFAULT_DEVNET_RPC_URL, "https://api.devnet.solana.com");
    assert_eq!(DEFAULT_LOCALHOST_RPC_URL, "http://localhost:8899");
}

#[test]
fn no_choice_means_the_main_network() {
    assert_eq!(get_url(None), "https://api.mainnet-beta.solana.com");
}

#[test]
fn networks_go_by_name_and_by_initial() {
    for name in ["l", "localhost"] {
        assert_eq!(get_url(Some(name.to_string())), "http://localhost:8899");
    }
    for name in ["d", "devnet"] {
        assert_eq!(get_url(Some(name.to_string())), "https://api.devnet.solana.com");
    }
    for name in ["t", "testnet"] {
        assert_eq!(get_url(Some(name.to_string())), "https://api.testnet.solana.com");
    }
    for name in ["m", "mainnet"] {
        assert_eq!(get_url(Some(name.to_string())), "https://api.mainnet-beta.solana.com");
    }
}

#[test]
fn other_text_is_taken_as_the_url() {
    assert_eq!(get_url(Some("http://node:1234".to_string())), "http://node:1234");
    assert_eq!(get_url(Some("L".to_string())), "L");
    assert_eq!(get_url(Some("mainnet-beta".to_string())), "mainnet-beta");
    assert_eq!(get_url(Some(String::new())), "");
}

#[test]
fn text_reads_a_word_only_as_a_whole() {
    assert!(reads(&"devnet".to_string(), "devnet"));
    assert!(!reads(&"devnet".to_string(), "d"));
    assert!(!reads(&"d".to_string(), "devnet"));
}

#[test]
fn empty_command_line_means_the_main_network() {
    assert_eq!(
        parse_args(&Vec::new()),
        Ok(Args { url: "https://api.mainnet-beta.solana.com".to_string() })
    );
}

#[test]
fn url_follows_its_flag() {
    assert_eq!(
        parse_args(&line(&["-u", "t"])),
        Ok(Args { url: "https://api.testnet.solana.com".to_string() })
    );
    assert_eq!(
        parse_args(&line(&["--url", "http://node:1234"])),
        Ok(Args { url: "http://node:1234".to_string() })
    );
    assert_eq!(parse_args(&line(&["--url", "-u"])), Ok(Args { url: "-u".to_string() }));
}

#[test]
fn flag_without_url_is_refused() {
    assert_eq!(parse_args(&line(&["-u"])), Err(ArgsError::MissingValue("-u".to_string())));
    assert_eq!(parse_args(&line(&["--url"])), Err(ArgsError::MissingValue("--url".to_string())));
}

#[test]
fn second_url_is_refused() {
    assert_eq!(
        parse_args(&line(&["-u", "d", "--url", "t"])),
        Err(ArgsError::Duplicate("--url".to_string()))
    );
    assert_eq!(parse_args(&line(&["-u", "d", "-u"])), Err(ArgsError::Duplicate("-u".to_string())));
}

#[test]
fn unknown_argument_is_refused() {
    assert_eq!(parse_args(&line(&["d"])), Err(ArgsError::Unexpected("d".to_string())));
    assert_eq!(
        parse_args(&line(&["--verbose", "-u", "d"])),
        Err(ArgsError::Unexpected("--verbose".to_string()))
    );
    assert_eq!(
        parse_args(&line(&["-u", "d", "more"])),
        Err(ArgsError::Unexpected("more".to_string()))
    );
}

#[test]
fn copies_of_args_and_faults_are_equal_to_them() {
    let args = Args { url: "http://node:1234".to_string() };
    assert_eq!(args.clone(), args);
    for fault in [
        ArgsError::Duplicate("-u".to_string()),
        ArgsError::MissingValue("--url".to_string()),
        ArgsError::Unexpected("x".to_string()),
    ] {
        assert_eq!(fault.clone(), fault);
    }
    assert_ne!(ArgsError::Duplicate("-u".to_string()), ArgsError::Unexpected("-u".to_string()));
}
