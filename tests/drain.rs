use drain::{
    is_float, signature, simseq, tokenize, DrainParser, LoadError, LogCluster, Template,
    CURR_DRAIN_MODEL_VERSION, DRAIN_MAGIC,
};

fn strings(v: &[&str]) -> Vec<String> {
    v.iter().map(|s| s.to_string()).collect()
}

fn le32(x: u32) -> Vec<u8> {
    x.to_le_bytes().to_vec()
}

#[test]
fn test_drain_parser_saving() {
    let mut drain = DrainParser::new();

    drain.parse("A A A");
    drain.parse("A B A");
    drain.parse("q w e r t y");

    let mut c: Vec<u8> = Vec::new();
    drain.save_writer(&mut c);

    let mut drain2 = DrainParser::new();
    drain2.load_reader(&c).unwrap();

    assert_eq!(drain, drain2);
}

#[test]
fn tokenize_splits_on_delimiters_and_trims() {
    let d = [' ', '=', ',', ':'];
    assert_eq!(tokenize("  a=b,c:d  e\t\n", &d), strings(&["a", "b", "c", "d", "e"]));
    assert_eq!(tokenize("x,,y", &d), strings(&["x", "y"]));
    assert!(tokenize("", &d).is_empty());
    assert!(tokenize(" =,: ", &d).is_empty());
}

#[test]
fn empty_line_gives_no_output() {
    let mut drain = DrainParser::new();
    assert!(drain.parse("   ").is_none());
    assert!(drain.parse(",:=").is_none());
    assert_eq!(drain.count_logtemplates(), 0);
    assert_eq!(drain.next_id(), 1);
}

#[test]
fn scenario_first_line_creates_template_one() {
    let mut drain = DrainParser::new();
    let out = drain.parse("A A A").unwrap();
    assert_eq!(out.template, 1);
    assert_eq!(out.tokens, strings(&["A", "A", "A"]));
    assert!(out.parameters.is_empty());
}

#[test]
fn scenario_matching_line_updates_in_place() {
    let mut drain = DrainParser::new();
    drain.parse("A A A");
    let out = drain.parse("A B A").unwrap();
    assert_eq!(out.template, 1);
    assert_eq!(out.tokens, strings(&["A", "*", "A"]));
    assert_eq!(out.parameters, strings(&["B"]));
    let t = &drain.parsers[0].clusters[0].cluster.templates[0];
    assert_eq!(t.count, 2);
}

#[test]
fn scenario_other_length_creates_template_two() {
    let mut drain = DrainParser::new();
    drain.parse("A A A");
    drain.parse("A B A");
    let out = drain.parse("q w e r t y").unwrap();
    assert_eq!(out.template, 2);
    assert_eq!(out.tokens, strings(&["q", "w", "e", "r", "t", "y"]));
    assert!(out.parameters.is_empty());
    assert_eq!(drain.count_logtemplates(), 2);
    assert_eq!(drain.next_id(), 3);
}

#[test]
fn scenario_loaded_engine_keeps_matching() {
    let mut drain = DrainParser::new();
    drain.parse("A A A");
    drain.parse("A B A");
    drain.parse("q w e r t y");
    let mut bytes: Vec<u8> = Vec::new();
    drain.save_writer(&mut bytes);

    let mut loaded = DrainParser::new();
    loaded.load_reader(&bytes).unwrap();
    let a = drain.parse("A B A").unwrap();
    let b = loaded.parse("A B A").unwrap();
    assert_eq!(b.template, 1);
    assert_eq!(a.template, b.template);
    assert_eq!(a.tokens, b.tokens);
    assert_eq!(a.parameters, b.parameters);
    assert_eq!(loaded.count_logtemplates(), 2);
    assert_eq!(drain, loaded);
}

#[test]
fn scenario_corrupt_magic_is_rejected() {
    let mut drain = DrainParser::new();
    drain.parse("A A A");
    let mut bytes: Vec<u8> = Vec::new();
    drain.save_writer(&mut bytes);
    bytes[0] ^= 0xff;
    let mut fresh = DrainParser::new();
    assert_eq!(fresh.load_reader(&bytes), Err(LoadError::InvalidMagic));
    assert_eq!(fresh, DrainParser::new());
}

#[test]
fn load_errors_name_what_failed() {
    let mut p = DrainParser::new();
    assert_eq!(p.load_reader(&[0x23, 0x78]), Err(LoadError::Truncated));

    let mut v = le32(DRAIN_MAGIC);
    v.extend(le32(2));
    assert_eq!(p.load_reader(&v), Err(LoadError::UnknownVersion));

    let mut v = le32(DRAIN_MAGIC);
    v.extend(le32(CURR_DRAIN_MODEL_VERSION));
    v.extend(le32(1));
    assert_eq!(p.load_reader(&v), Err(LoadError::Truncated));
    v.extend(vec![0x09, 0x00]);
    assert_eq!(p.load_reader(&v), Err(LoadError::UnexpectedTag));

    let mut v = le32(DRAIN_MAGIC);
    v.extend(le32(CURR_DRAIN_MODEL_VERSION));
    v.extend(le32(1));
    v.extend(vec![0x01, 0x00]);
    v.extend(le32(1));
    v.extend(vec![0x03, 0x00]);
    v.extend(le32(2));
    v.extend(vec![0xff, 0xfe]);
    assert_eq!(p.load_reader(&v), Err(LoadError::InvalidUtf8));
    assert_eq!(p, DrainParser::new());
    assert_eq!(LoadError::InvalidMagic.message(), "invalid magic");
}

#[test]
fn snapshot_bytes_are_exact() {
    let mut drain = DrainParser::new();
    drain.parse("ab");
    let mut bytes: Vec<u8> = Vec::new();
    drain.save_writer(&mut bytes);
    let expected: Vec<u8> = vec![
        0x23, 0x78, 0x06, 0x94, 1, 0, 0, 0, 2, 0, 0, 0, // header
        1, 0, 1, 0, 0, 0, // length group of 1
        3, 0, 2, 0, 0, 0, b'a', b'b', // cluster "ab"
        5, 0, 1, 0, 0, 0, 1, 0, 0, 0, 1, 0, 0, 0, 2, 0, 0, 0, b'a', b'b', // template
        6, 0, 4, 0, 2, 0,
    ];
    assert_eq!(bytes, expected);
}

#[test]
fn threshold_exactly_half_updates() {
    let mut drain = DrainParser::new();
    drain.parse("a b c d");
    let out = drain.parse("a b x y").unwrap();
    assert_eq!(out.template, 1);
    assert_eq!(out.tokens, strings(&["a", "b", "*", "*"]));
    assert_eq!(out.parameters, strings(&["x", "y"]));
}

#[test]
fn threshold_below_half_creates() {
    let mut drain = DrainParser::new();
    drain.parse("a b c");
    let out = drain.parse("a x y").unwrap();
    assert_eq!(out.template, 2);
    assert_eq!(out.tokens, strings(&["a", "x", "y"]));
    assert_eq!(drain.count_logtemplates(), 2);
}

#[test]
fn wildcards_never_revert() {
    let mut drain = DrainParser::new();
    drain.parse("u 1 v w");
    drain.parse("u 2 v w");
    let out = drain.parse("u * v w").unwrap();
    assert_eq!(out.tokens, strings(&["u", "*", "v", "w"]));
    let out = drain.parse("u 9 v w").unwrap();
    assert_eq!(out.tokens, strings(&["u", "*", "v", "w"]));
    assert_eq!(out.parameters, strings(&["9"]));
}

#[test]
fn ids_increase_across_clusters() {
    let mut drain = DrainParser::new();
    let a = drain.parse("one").unwrap().template;
    let b = drain.parse("two three").unwrap().template;
    let c = drain.parse("four").unwrap().template;
    let d = drain.parse("one").unwrap().template;
    assert_eq!((a, b, c, d), (1, 2, 3, 1));
}

#[test]
fn numeric_first_tokens_share_a_cluster() {
    let mut drain = DrainParser::new();
    drain.parse("12 up ok");
    let out = drain.parse("3.5e2 up ok").unwrap();
    assert_eq!(out.template, 1);
    assert_eq!(out.parameters, strings(&["3.5e2"]));
    assert_eq!(drain.parsers[0].clusters.len(), 1);
    assert_eq!(drain.parsers[0].clusters[0].signature, "*");
}

#[test]
fn different_signatures_never_share() {
    let mut drain = DrainParser::new();
    drain.parse("alpha x y");
    let out = drain.parse("beta x y").unwrap();
    assert_eq!(out.template, 2);
    assert_eq!(drain.parsers.len(), 1);
    assert_eq!(drain.parsers[0].clusters.len(), 2);
}

#[test]
fn float_recognition_follows_rust_grammar() {
    for s in ["0", "12", "-3", "+4.", ".5", "1e5", "2.5E-3", "inf", "-Infinity", "NaN"] {
        assert!(is_float(s), "{}", s);
        assert_eq!(s.parse::<f64>().is_ok(), true);
    }
    for s in ["", ".", "e5", "1e", "1e+", "abc", "1.2.3", "infin", "0x10", "1_000", "+"] {
        assert!(!is_float(s), "{}", s);
        assert_eq!(s.parse::<f64>().is_ok(), false);
    }
    assert_eq!(signature(&"42".to_string()), "*");
    assert_eq!(signature(&"abc".to_string()), "abc");
}

#[test]
fn cluster_process_and_simseq() {
    let a = strings(&["a", "b", "c"]);
    let b = strings(&["a", "x", "c"]);
    assert_eq!(simseq(&a, &b), 2);
    let mut c = LogCluster::new(3);
    let out = c.process(a.clone(), 7);
    assert_eq!(out.template, 7);
    let out = c.process(b, 8);
    assert_eq!(out.template, 7);
    assert_eq!(c.templates, vec![Template { id: 7, tokens: strings(&["a", "*", "c"]), count: 2 }]);
}
