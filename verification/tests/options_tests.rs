use lister::error::Error;
use lister::options::{parse_options, SubOption};

fn args(list: &[&str]) -> Vec<String> {
    list.iter().map(|s| s.to_string()).collect()
}

#[test]
fn parse_cluster_collects_in_first_seen_order() {
    let r = parse_options(&args(&["prog", "-alt"])).unwrap();
    assert_eq!(r, vec![SubOption::All, SubOption::Long, SubOption::Time]);
}

#[test]
fn parse_cluster_stops_at_unknown_character() {
    let e = parse_options(&args(&["prog", "-altH"])).unwrap_err();
    match e {
        Error::SubOption { sub, msg } => {
            assert_eq!(sub, "H");
            assert_eq!(msg, "not support");
        },
        _ => panic!("expected a sub-option error"),
    }
}

#[test]
fn parse_duplicate_across_tokens_is_rejected() {
    let e = parse_options(&args(&["prog", "-al", "-l"])).unwrap_err();
    match e {
        Error::SubOption { sub, msg } => {
            assert_eq!(sub, "l");
            assert_eq!(msg, "duplicated");
        },
        _ => panic!("expected a sub-option error"),
    }
}

#[test]
fn parse_duplicate_inside_one_token_is_rejected() {
    let e = parse_options(&args(&["prog", "-aa"])).unwrap_err();
    match e {
        Error::SubOption { sub, msg } => {
            assert_eq!(sub, "a");
            assert_eq!(msg, "duplicated");
        },
        _ => panic!("expected a sub-option error"),
    }
}

#[test]
fn parse_ignores_program_name_long_forms_and_plain_words() {
    let r = parse_options(&args(&["prog", "--color", "file", "-h"])).unwrap();
    assert_eq!(r, vec![SubOption::HumanRead]);
}

#[test]
fn parse_empty_vector_yields_no_options() {
    let r = parse_options(&args(&[])).unwrap();
    assert!(r.is_empty());
}

#[test]
fn parse_bare_dash_contributes_nothing() {
    // a lone dash strips to an empty cluster
    let r = parse_options(&args(&["prog", "-", "-t"])).unwrap();
    assert_eq!(r, vec![SubOption::Time]);
}

#[test]
fn unknown_option_message_text() {
    let e = parse_options(&args(&["prog", "-x"])).unwrap_err();
    assert_eq!(
        e.message(),
        "sub option is error:\noption=x\nerror_msg=not support"
    );
}

#[test]
fn duplicated_option_message_text() {
    let e = parse_options(&args(&["prog", "-tt"])).unwrap_err();
    assert_eq!(
        e.message(),
        "sub option is error:\noption=t\nerror_msg=duplicated"
    );
}

#[test]
fn common_error_message_is_the_raw_text() {
    let e = Error::Common { msg: "no such directory".to_string() };
    assert_eq!(e.message(), "no such directory");
}
