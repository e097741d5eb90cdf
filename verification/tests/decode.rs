use media_api::decode::{parse_decode_options, DecodeOptions};

#[test]
fn test_parse_decode_options() {
    let opts = parse_decode_options(Some("sample_rate=16000&bits=16&channels=1"));
    assert_eq!(opts.output_sample_rate, Some(16000));
    assert_eq!(opts.output_bits_per_sample, Some(16));
    assert_eq!(opts.output_channels, Some(1));

    let opts = parse_decode_options(Some("output_sample_rate=44100"));
    assert_eq!(opts.output_sample_rate, Some(44100));
    assert_eq!(opts.output_bits_per_sample, None);

    let opts = parse_decode_options(None);
    assert_eq!(opts.output_sample_rate, None);
}

#[test]
fn test_parse_invalid_options() {
    let opts = parse_decode_options(Some("bits=20")); // Invalid bits
    assert_eq!(opts.output_bits_per_sample, None);

    let opts = parse_decode_options(Some("channels=0")); // Invalid channels
    assert_eq!(opts.output_channels, None);

    let opts = parse_decode_options(Some("channels=17")); // Too many channels
    assert_eq!(opts.output_channels, None);
}

#[test]
fn all_names_of_an_option_work() {
    for name in ["bits", "output_bits", "bits_per_sample"] {
        let opts = parse_decode_options(Some(&format!("{name}=24")));
        assert_eq!(opts.output_bits_per_sample, Some(24));
    }
    for name in ["channels", "output_channels"] {
        let opts = parse_decode_options(Some(&format!("{name}=16")));
        assert_eq!(opts.output_channels, Some(16));
    }
    for name in ["sample_rate", "output_sample_rate"] {
        let opts = parse_decode_options(Some(&format!("{name}=8000")));
        assert_eq!(opts.output_sample_rate, Some(8000));
    }
}

#[test]
fn later_valid_pair_wins() {
    let opts = parse_decode_options(Some("bits=16&bits_per_sample=32"));
    assert_eq!(opts.output_bits_per_sample, Some(32));
    let opts = parse_decode_options(Some("bits=16&bits=20"));
    assert_eq!(opts.output_bits_per_sample, Some(16));
}

#[test]
fn odd_queries_are_harmless() {
    assert_eq!(parse_decode_options(Some("")), DecodeOptions::default());
    assert_eq!(parse_decode_options(Some("&&=&x")), DecodeOptions::default());
    assert_eq!(parse_decode_options(Some("bits")), DecodeOptions::default());
    assert_eq!(parse_decode_options(Some("channels=2=3")), DecodeOptions::default());
    assert_eq!(parse_decode_options(Some("Channels=2")), DecodeOptions::default());
    assert_eq!(parse_decode_options(Some("channels=-1")), DecodeOptions::default());
    assert_eq!(parse_decode_options(Some("sample_rate=4294967296")), DecodeOptions::default());
    assert_eq!(
        parse_decode_options(Some("sample_rate=+4294967295")).output_sample_rate,
        Some(4294967295)
    );
}

#[test]
fn values_are_in_range_or_missing() {
    for n in 0..=300 {
        let opts = parse_decode_options(Some(&format!("bits={n}&channels={n}")));
        assert_eq!(opts.output_bits_per_sample.is_some(), n == 16 || n == 24 || n == 32);
        assert_eq!(opts.output_channels.is_some(), (1..=16).contains(&n));
    }
}

#[test]
fn later_query_wins() {
    let opts = parse_decode_options(Some("bits=16&channels=2&sample_rate=8000&bits=24&channels=0"));
    assert_eq!(opts.output_sample_rate, Some(8000));
    assert_eq!(opts.output_bits_per_sample, Some(24));
    assert_eq!(opts.output_channels, Some(2));
}
