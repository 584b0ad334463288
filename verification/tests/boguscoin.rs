use protohackers::boguscoin::{hack_boguscoin_message, rewritten_or_unchanged};

#[test]
fn test_replacement() {
    let result = hack_boguscoin_message("71c0Y37FcpjtZHRLOitTp9NwaY33zM");
    assert_eq!(result, "7YWHMfk9JZe0LM0g1ZauHuiSxhI");

    let result = hack_boguscoin_message("hello 71c0Y37FcpjtZHRLOitTp9NwaY33zM");
    assert_eq!(result, "hello 7YWHMfk9JZe0LM0g1ZauHuiSxhI");

    let result = hack_boguscoin_message("71c0Y37FcpjtZHRLOitTp9NwaY33zM world");

    assert_eq!(result, "7YWHMfk9JZe0LM0g1ZauHuiSxhI world");

    let result = hack_boguscoin_message("hello 71c0Y37FcpjtZHRLOitTp9NwaY33zM world");
    assert_eq!(result, "hello 7YWHMfk9JZe0LM0g1ZauHuiSxhI world");

    let result = hack_boguscoin_message(
        "Please pay the ticket price of 15 Boguscoins to one of these addresses: 75z2OZksnpNqUmGL9M1S4wcvGtDphFytQF 7war1qJPSCwU2a6TQZ07GhKOG2x 7eNq7XxoyVlZBVr30ctqWeN92UfuWaMH");
    assert_eq!(result, "Please pay the ticket price of 15 Boguscoins to one of these addresses: 7YWHMfk9JZe0LM0g1ZauHuiSxhI 7YWHMfk9JZe0LM0g1ZauHuiSxhI 7YWHMfk9JZe0LM0g1ZauHuiSxhI");

    let result = hack_boguscoin_message(
        "This is a product ID, not a Boguscoin: 7l1XLUIvZbaMld8pUX7ncAWhQrkYmtSnmSW-tDAkHyfyWEwfPDnh2WJmakuc4hge8-1234");
    assert_eq!(result, "This is a product ID, not a Boguscoin: 7l1XLUIvZbaMld8pUX7ncAWhQrkYmtSnmSW-tDAkHyfyWEwfPDnh2WJmakuc4hge8-1234");
}

#[test]
fn lines_without_an_address_stay() {
    assert_eq!(hack_boguscoin_message(""), "");
    assert_eq!(hack_boguscoin_message("hello"), "hello");
    // too short, too long, wrong first character
    assert_eq!(hack_boguscoin_message("7abcdefghijklmnopqrstuvwx"), "7abcdefghijklmnopqrstuvwx");
    let long = "7".repeat(36);
    assert_eq!(hack_boguscoin_message(&long), long);
    assert_eq!(
        hack_boguscoin_message("8YWHMfk9JZe0LM0g1ZauHuiSxhI"),
        "8YWHMfk9JZe0LM0g1ZauHuiSxhI"
    );
    let shortest = format!("7{}", "a".repeat(25));
    assert_eq!(hack_boguscoin_message(&shortest), "7YWHMfk9JZe0LM0g1ZauHuiSxhI");
    let longest = format!("7{}", "a".repeat(34));
    assert_eq!(hack_boguscoin_message(&longest), "7YWHMfk9JZe0LM0g1ZauHuiSxhI");
}

#[test]
fn line_as_it_came_where_nothing_was_rewritten() {
    assert_eq!(rewritten_or_unchanged("as it came", None), "as it came");
    assert_eq!(rewritten_or_unchanged("as it came", Some("rewritten".to_owned())), "rewritten");
}
