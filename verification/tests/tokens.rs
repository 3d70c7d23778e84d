use python_json_read_adapter::translate_slice;

fn translated(input: &[u8]) -> Vec<u8> {
    let mut bytes = input.to_vec();
    translate_slice(&mut bytes[..]);
    bytes
}

#[test]
fn rewrites_all_three_spellings() {
    assert_eq!(
        translated(br#"{"nan":NaN,"inf":Infinity,"-inf":-Infinity}"#),
        br#"{"nan":0  ,"inf":0       ,"-inf":-0       }"#.to_vec()
    );
}

#[test]
fn empty_input_stays_empty() {
    assert_eq!(translated(b""), b"".to_vec());
}

#[test]
fn bare_nan_becomes_zero_and_two_spaces() {
    assert_eq!(translated(b"NaN"), b"0  ".to_vec());
}

#[test]
fn bare_infinity_becomes_zero_and_seven_spaces() {
    assert_eq!(translated(b"Infinity"), b"0       ".to_vec());
}

#[test]
fn sign_in_front_of_infinity_is_kept() {
    assert_eq!(translated(b"-Infinity"), b"-0       ".to_vec());
}

#[test]
fn unfinished_literal_at_the_end_is_kept() {
    assert_eq!(translated(b"Na"), b"Na".to_vec());
    assert_eq!(translated(b"Infinit"), b"Infinit".to_vec());
    assert_eq!(translated(b"[1,Infin"), b"[1,Infin".to_vec());
}

#[test]
fn broken_off_literal_is_kept() {
    assert_eq!(translated(b"Nat"), b"Nat".to_vec());
    assert_eq!(translated(b"Infinite"), b"Infinite".to_vec());
    assert_eq!(translated(b"Na N"), b"Na N".to_vec());
    assert_eq!(translated(b"Nat N"), b"Nat N".to_vec());
    assert_eq!(translated(b"Inf in it y"), b"Inf in it y".to_vec());
}

#[test]
fn byte_that_breaks_off_a_literal_may_begin_the_next() {
    assert_eq!(translated(b"NNaN"), b"N0  ".to_vec());
    assert_eq!(translated(b"NaNaN"), b"0  aN".to_vec());
    assert_eq!(translated(b"IInfinity"), b"I0       ".to_vec());
    assert_eq!(translated(b"InfInfinity"), b"Inf0       ".to_vec());
    assert_eq!(translated(b"INaN"), b"I0  ".to_vec());
    assert_eq!(translated(b"NInfinity"), b"N0       ".to_vec());
    assert_eq!(translated(b"Na\"NaN\""), b"Na\"NaN\"".to_vec());
    assert_eq!(
        translated(b"N99999999999999999999"),
        b"N0                   ".to_vec()
    );
}

#[test]
fn literals_side_by_side_are_each_rewritten() {
    assert_eq!(translated(b"NaNNaN"), b"0  0  ".to_vec());
    assert_eq!(translated(b"NaNInfinity"), b"0  0       ".to_vec());
    assert_eq!(translated(b"[NaN,NaN]"), b"[0  ,0  ]".to_vec());
}

#[test]
fn largest_unsigned_integer_is_kept() {
    assert_eq!(
        translated(b"18446744073709551615"),
        b"18446744073709551615".to_vec()
    );
    assert_eq!(
        translated(b"[18446744073709551615]"),
        b"[18446744073709551615]".to_vec()
    );
}

#[test]
fn one_above_the_largest_unsigned_integer_is_rewritten() {
    assert_eq!(
        translated(b"18446744073709551616"),
        b"0                   ".to_vec()
    );
    assert_eq!(
        translated(b"[18446744073709551616]"),
        b"[0                   ]".to_vec()
    );
}

#[test]
fn values_between_the_signed_and_the_unsigned_limit_are_kept() {
    assert_eq!(
        translated(b"9223372036854775807"),
        b"9223372036854775807".to_vec()
    );
    assert_eq!(
        translated(b"9223372036854775808"),
        b"9223372036854775808".to_vec()
    );
}

#[test]
fn twenty_digits_are_judged_by_value() {
    assert_eq!(
        translated(b"10000000000000000000,"),
        b"10000000000000000000,".to_vec()
    );
    assert_eq!(
        translated(b"18446744073709551620,"),
        b"0                   ,".to_vec()
    );
    assert_eq!(
        translated(b"99999999999999999999,"),
        b"0                   ,".to_vec()
    );
}

#[test]
fn leading_zeros_do_not_make_a_run_oversized() {
    assert_eq!(
        translated(b"000000000000000000000000000001"),
        b"000000000000000000000000000001".to_vec()
    );
    assert_eq!(
        translated(b"0000000000000000000018446744073709551615"),
        b"0000000000000000000018446744073709551615".to_vec()
    );
    assert_eq!(
        translated(b"0000000000000000000018446744073709551616"),
        b"0                                       ".to_vec()
    );
}

#[test]
fn oversized_integer_of_115_digits() {
    let input = vec![b'9'; 115];
    let mut expected = vec![b' '; 115];
    expected[0] = b'0';
    assert_eq!(translated(&input), expected);
}

#[test]
fn sign_in_front_of_an_oversized_integer_is_kept() {
    assert_eq!(
        translated(b"-99999999999999999999"),
        b"-0                   ".to_vec()
    );
}

#[test]
fn oversized_run_with_fraction_or_exponent_is_kept() {
    assert_eq!(
        translated(b"99999999999999999999.5"),
        b"99999999999999999999.5".to_vec()
    );
    assert_eq!(
        translated(b"99999999999999999999e5"),
        b"99999999999999999999e5".to_vec()
    );
    assert_eq!(
        translated(b"99999999999999999999E5"),
        b"99999999999999999999E5".to_vec()
    );
    assert_eq!(
        translated(b"99999999999999999999."),
        b"99999999999999999999.".to_vec()
    );
}

#[test]
fn run_of_digits_behind_a_dot_is_a_run_of_its_own() {
    assert_eq!(
        translated(b"1.99999999999999999999"),
        b"1.0                   ".to_vec()
    );
    assert_eq!(
        translated(b"1e99999999999999999999"),
        b"1e0                   ".to_vec()
    );
}

#[test]
fn byte_that_ends_a_run_of_digits_begins_no_token() {
    assert_eq!(translated(b"1NaN"), b"1NaN".to_vec());
    assert_eq!(translated(b"1Infinity"), b"1Infinity".to_vec());
    assert_eq!(translated(b"1 NaN"), b"1 0  ".to_vec());
    assert_eq!(translated(b"[1,NaN]"), b"[1,0  ]".to_vec());
    assert_eq!(translated(b"1\"NaN"), b"1\"0  ".to_vec());
}

#[test]
fn oversized_integers_between_other_tokens() {
    assert_eq!(
        translated(br#"{"a":123456789012345678901234567890,"b":[NaN,1]}"#),
        br#"{"a":0                             ,"b":[0  ,1]}"#.to_vec()
    );
}

#[test]
fn string_contents_are_kept() {
    assert_eq!(
        translated(br#"{"nan":"nan","Infinity":"-Infinity","other":NaN}"#),
        br#"{"nan":"nan","Infinity":"-Infinity","other":0  }"#.to_vec()
    );
    assert_eq!(translated(br#""NaN""#), br#""NaN""#.to_vec());
    assert_eq!(translated(br#""Infinity""#), br#""Infinity""#.to_vec());
    assert_eq!(
        translated(br#""99999999999999999999999""#),
        br#""99999999999999999999999""#.to_vec()
    );
    assert_eq!(
        translated(br#"["a NaN b", "Infinity and -Infinity", "1234567890123456789012345"]"#),
        br#"["a NaN b", "Infinity and -Infinity", "1234567890123456789012345"]"#.to_vec()
    );
}

#[test]
fn escaped_quote_does_not_end_a_string() {
    assert_eq!(
        translated(br#""NaN\"NaN\"NaN""#),
        br#""NaN\"NaN\"NaN""#.to_vec()
    );
    assert_eq!(translated(br#""\"NaN""#), br#""\"NaN""#.to_vec());
}

#[test]
fn escaped_backslash_does_not_escape_the_quote_behind_it() {
    assert_eq!(translated(br#""\\"NaN"#), br#""\\"0  "#.to_vec());
    assert_eq!(translated(br#""a\\\"NaN"#), br#""a\\\"NaN"#.to_vec());
}

#[test]
fn any_byte_behind_a_backslash_is_taken_as_escaped() {
    assert_eq!(translated(br#""\NaN"NaN"#), br#""\NaN"0  "#.to_vec());
    assert_eq!(translated(b"\"\\\x00\"NaN"), b"\"\\\x00\"0  ".to_vec());
}

#[test]
fn unclosed_string_masks_the_rest() {
    assert_eq!(
        translated(br#""abc NaN Infinity 99999999999999999999"#),
        br#""abc NaN Infinity 99999999999999999999"#.to_vec()
    );
}

#[test]
fn token_behind_a_closed_string_is_rewritten() {
    assert_eq!(translated(br#""NaN"NaN"#), br#""NaN"0  "#.to_vec());
    assert_eq!(
        translated(br#""x"99999999999999999999"#),
        br#""x"0                   "#.to_vec()
    );
}

#[test]
fn zero_byte_in_the_input_is_a_byte_like_any_other() {
    assert_eq!(translated(b"\x00NaN\x00"), b"\x000  \x00".to_vec());
    assert_eq!(translated(b"Na\x00N"), b"Na\x00N".to_vec());
    assert_eq!(
        translated(b"99999999999999999999\x00"),
        b"0                   \x00".to_vec()
    );
}

#[test]
fn bytes_above_ascii_are_kept() {
    assert_eq!(
        translated(b"\xc3\xa9NaN\xff"),
        b"\xc3\xa90  \xff".to_vec()
    );
}

#[test]
fn length_is_kept() {
    let inputs: Vec<&[u8]> = vec![
        b"",
        b"NaN",
        b"Infinity",
        b"-Infinity",
        b"123456789012345678901234567890",
        br#"{"nan":NaN,"inf":Infinity,"-inf":-Infinity}"#,
        b"Na",
        b"\"NaN",
        b"1.5e10",
    ];
    for input in inputs {
        assert_eq!(translated(input).len(), input.len());
    }
}

#[test]
fn input_without_the_tokens_is_kept() {
    let inputs: Vec<&[u8]> = vec![
        br#"{"a":1,"b":[true,false,null],"c":"text","d":-12.5e+3}"#,
        br#"[0, 1, 18446744073709551615, -9223372036854775808, 1.0, 1e400]"#,
        b"   \n\t[ ]  ",
        b"Nan nan INFINITY infinity Inf",
        b"not json at all",
    ];
    for input in inputs {
        assert_eq!(translated(input), input.to_vec());
    }
}

#[test]
fn tokens_inside_strings_only_are_kept() {
    let inputs: Vec<&[u8]> = vec![
        br#"{"NaN":"NaN","k":["Infinity","-Infinity","9999999999999999999999"]}"#,
        br#"["\"NaN\"", "\\", "Infinity\\"]"#,
    ];
    for input in inputs {
        assert_eq!(translated(input), input.to_vec());
    }
}

#[test]
fn second_pass_finds_nothing_where_tokens_stood_apart() {
    let inputs: Vec<&[u8]> = vec![
        br#"{"nan":NaN,"inf":Infinity,"-inf":-Infinity}"#,
        b"NNaNaN",
        b"[123456789012345678901234567890, NaN]",
        b"IInfinityNaN99999999999999999999",
    ];
    for input in inputs {
        let once = translated(input);
        assert_eq!(translated(&once), once);
    }
}

#[test]
fn second_pass_reads_the_byte_behind_a_rewritten_integer_anew() {
    let once = translated(b"99999999999999999999NaN");
    assert_eq!(once, b"0                   NaN".to_vec());
    assert_eq!(translated(&once), b"0                   0  ".to_vec());
}
