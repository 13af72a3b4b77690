use claim_bot::respond::format_response;

#[test]
fn plain_response() {
    assert_eq!(
        format_response("alice", "123", 3, 4),
        "**alice** ( **123** ) has claimed /goto 3 4"
    );
}

#[test]
fn negative_coordinates() {
    assert_eq!(
        format_response("alice", "123", -5, -10),
        "**alice** ( **123** ) has claimed /goto -5 -10"
    );
}

#[test]
fn asterisks_in_the_name_stay_literal() {
    assert_eq!(
        format_response("ev*l", "9", 1, 2),
        "**ev\\*l** ( **9** ) has claimed /goto 1 2"
    );
}

#[test]
fn other_metacharacters_are_escaped() {
    assert_eq!(
        format_response("_a_ ~b~ `c` |d| \\e", "77", 0, 0),
        "**\\_a\\_ \\~b\\~ \\`c\\` \\|d\\| \\\\e** ( **77** ) has claimed /goto 0 0"
    );
}

#[test]
fn extreme_coordinates() {
    assert_eq!(
        format_response("a", "1", 2147483647, -2147483648),
        "**a** ( **1** ) has claimed /goto 2147483647 -2147483648"
    );
}
