use claim_bot::args::{parse_claim_args, ClaimError};

#[test]
fn comma_separated_pair() {
    assert_eq!(parse_claim_args("/claim 3,4").unwrap(), (3, 4));
}

#[test]
fn space_separated_pair_with_extra_token() {
    assert_eq!(parse_claim_args("/claim 3 4 5").unwrap(), (3, 4));
}

#[test]
fn non_numeric_text_is_invalid() {
    assert_eq!(
        parse_claim_args("/claim abc").unwrap_err(),
        ClaimError::InvalidArguments
    );
}

#[test]
fn bare_command_is_invalid() {
    assert_eq!(
        parse_claim_args("/claim").unwrap_err(),
        ClaimError::InvalidArguments
    );
}

#[test]
fn one_integer_is_invalid() {
    assert_eq!(
        parse_claim_args("/claim 12").unwrap_err(),
        ClaimError::InvalidArguments
    );
}

#[test]
fn signed_integers() {
    assert_eq!(parse_claim_args("/claim -7,+9").unwrap(), (-7, 9));
}

#[test]
fn extreme_values() {
    assert_eq!(
        parse_claim_args("/claim 2147483647 -2147483648").unwrap(),
        (2147483647, -2147483648)
    );
}

#[test]
fn out_of_range_tokens_are_discarded() {
    // 2147483648 does not fit an i32, so only one integer remains.
    assert_eq!(
        parse_claim_args("/claim 2147483648 5").unwrap_err(),
        ClaimError::InvalidArguments
    );
    assert_eq!(parse_claim_args("/claim 2147483648 5 6").unwrap(), (5, 6));
}

#[test]
fn repeated_separators_and_padding() {
    assert_eq!(parse_claim_args("/claim   12,,34  ").unwrap(), (12, 34));
}

#[test]
fn non_numeric_tokens_are_discarded() {
    assert_eq!(parse_claim_args("/claim x=1 2 3").unwrap(), (2, 3));
    assert_eq!(parse_claim_args("/claim a 10 b 20").unwrap(), (10, 20));
}

#[test]
fn sign_alone_is_not_an_integer() {
    assert_eq!(
        parse_claim_args("/claim - +").unwrap_err(),
        ClaimError::InvalidArguments
    );
}

#[test]
fn zero_values() {
    assert_eq!(parse_claim_args("/claim 0 -0").unwrap(), (0, 0));
}
