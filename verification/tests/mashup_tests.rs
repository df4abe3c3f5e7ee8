use joebot_markov_chain::mashup::{parse_mashup_args, MashupRequest};

#[test]
fn empty_args_ask_for_help() {
    assert_eq!(parse_mashup_args(""), MashupRequest::Help);
}

#[test]
fn comma_syntax_asks_for_help() {
    assert_eq!(parse_mashup_args("a, b"), MashupRequest::Help);
}

#[test]
fn plain_query_has_no_date() {
    assert_eq!(
        parse_mashup_args("a | b"),
        MashupRequest::Query { names: "a | b".to_string(), date_name: None }
    );
}

#[test]
fn trailing_range_is_carved_out() {
    assert_eq!(
        parse_mashup_args("a | b [шестой сем]"),
        MashupRequest::Query {
            names: "a | b ".to_string(),
            date_name: Some("шестой сем".to_string()),
        }
    );
}

#[test]
fn bracketless_trailing_bracket_stays_in_the_query() {
    assert_eq!(
        parse_mashup_args("a ]"),
        MashupRequest::Query { names: "a ]".to_string(), date_name: None }
    );
}

#[test]
fn last_bracket_wins() {
    assert_eq!(
        parse_mashup_args("a [x] [пятый сем]"),
        MashupRequest::Query {
            names: "a [x] ".to_string(),
            date_name: Some("пятый сем".to_string()),
        }
    );
}
