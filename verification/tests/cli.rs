use linguaspark::cli::{
    ArgumentError, Command, SizeError, asset_from_file, find_command, join_text, names_all_files,
    parse_arguments, parse_size, shares_vocabulary, split_lines, status_value, translate_usage,
    usage,
};

fn arguments(texts: &[&str]) -> Vec<String> {
    texts.iter().map(|text| text.to_string()).collect()
}

#[test]
fn commands_are_found_by_name() {
    assert_eq!(find_command("translate"), Some(Command::Translate));
    assert_eq!(find_command("bench"), Some(Command::Bench));
    assert_eq!(find_command("Translate"), None);
    assert_eq!(find_command(""), None);
    assert!(usage().starts_with("usage:\n  linguaspark translate MODEL"));
    assert!(translate_usage().starts_with("usage: linguaspark translate MODEL"));
}

#[test]
fn arguments_are_options_and_text() {
    let request = parse_arguments(&arguments(&["a", "--beam-size", "4", "b c"])).unwrap();
    assert_eq!(request.beam_size, Some(4));
    assert_eq!(request.text_parts, ["a", "b c"]);
    assert_eq!(join_text(&request.text_parts), "a b c");

    let request = parse_arguments(&[]).unwrap();
    assert_eq!(request.beam_size, None);
    assert!(request.text_parts.is_empty());
    assert_eq!(join_text(&request.text_parts), "");

    let request =
        parse_arguments(&arguments(&["--beam-size", "1", "--beam-size", "2"])).unwrap();
    assert_eq!(request.beam_size, Some(2));
}

#[test]
fn beam_sizes_are_refused_with_a_reason() {
    assert_eq!(
        parse_arguments(&arguments(&["--beam-size"])).unwrap_err(),
        ArgumentError::MissingBeamSize
    );
    let sentence = |text: &str| {
        parse_arguments(&arguments(&["--beam-size", text]))
            .unwrap_err()
            .sentence()
    };
    assert_eq!(sentence(""), "cannot parse integer from empty string");
    assert_eq!(sentence("x"), "invalid digit found in string");
    assert_eq!(
        sentence("99999999999999999999999"),
        "number too large to fit in target type"
    );
    assert_eq!(
        ArgumentError::MissingBeamSize.sentence(),
        "--beam-size requires a value"
    );
}

#[test]
fn sizes_parse_like_the_standard_library() {
    for text in [
        "", "+", "-", "0", "+7", "-1", "007", "12a", "1 ", "١", "18446744073709551615",
        "18446744073709551616", "999999999999999999999x",
    ] {
        let expected = text.parse::<usize>().map_err(|error| error.to_string());
        let actual = parse_size(text).map_err(|error| error.sentence().to_owned());
        assert_eq!(actual, expected, "{text:?}");
    }
    assert_eq!(parse_size(""), Err(SizeError::Empty));
}

#[test]
fn compressed_files_are_told_by_their_name() {
    assert_eq!(
        asset_from_file("model.bin", b"raw".to_vec())
            .into_bytes()
            .unwrap(),
        b"raw"
    );
    assert!(
        asset_from_file("model.bin.gz", b"raw".to_vec())
            .into_bytes()
            .is_none()
    );
    assert!(
        asset_from_file(".gz", b"raw".to_vec())
            .into_bytes()
            .is_none()
    );
    assert!(
        asset_from_file("gz", b"raw".to_vec())
            .into_bytes()
            .is_some()
    );
}

#[test]
fn status_values_are_found_by_name() {
    let status = b"Name:\tx\nVmPeak:\t  12 kB\nVmHWM:\t   345 kB\nVmRSS:\t 6789 kB\n";
    assert_eq!(status_value(status, b"VmRSS:"), Some(6789));
    assert_eq!(status_value(status, b"VmHWM:"), Some(345));
    assert_eq!(status_value(status, b"VmSwap:"), None);
    assert_eq!(status_value(b"VmRSS: x\nVmRSS: 5\n", b"VmRSS:"), Some(5));
    assert_eq!(status_value(b"VmRSS:\n", b"VmRSS:"), None);
    assert_eq!(status_value(b"", b"VmRSS:"), None);
}

#[test]
fn status_values_stand_between_any_white_space() {
    for code in 0..=0x3000u32 {
        let Some(space) = char::from_u32(code).filter(|&character| character != '\n') else {
            continue;
        };
        let status = format!("VmRSS:{space}12{space}kB");
        let expected = status
            .strip_prefix("VmRSS:")
            .unwrap()
            .split_whitespace()
            .next()
            .and_then(|word| word.parse::<u64>().ok());
        assert_eq!(
            status_value(status.as_bytes(), b"VmRSS:"),
            expected,
            "{code:#x}"
        );
    }
}

#[test]
fn translations_need_four_files() {
    assert!(!names_all_files(3));
    assert!(names_all_files(4));
    assert!(names_all_files(9));
}

#[test]
fn equal_paths_share_a_vocabulary() {
    assert!(shares_vocabulary(b"vocab.spm", b"vocab.spm"));
    assert!(!shares_vocabulary(b"vocab.spm", b"vocab.en.spm"));
    assert!(!shares_vocabulary(b"a", b"b"));
}

#[test]
fn texts_are_split_into_lines() {
    for text in [
        "",
        "\n",
        "\r\n",
        "\r",
        "one",
        "one\n",
        "one\ntwo",
        "one\r\ntwo\r",
        "one\r\r\ntwo\n\n",
        "\n\nthree",
        "ein gr\u{fc}\u{df}\r\n\u{65e5}\u{672c}\n\u{1f600}",
    ] {
        assert_eq!(split_lines(text), text.lines().collect::<Vec<_>>(), "{text:?}");
    }
    assert_eq!(split_lines("a\r\n\nb"), ["a", "", "b"]);
}
