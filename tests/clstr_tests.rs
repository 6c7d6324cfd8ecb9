use clstr::{
    cluster_file_stem,
    filter_by_size, from_reader, parse_sequence_line, top_n, ClstrParser, ClstrWriter, Cluster,
    ClusterAssembler, ErrorKind, Identity, Sequence,
};

fn as_f32(x: Identity) -> f32 {
    x.mantissa as f32 / 10f32.powi(x.places as i32)
}

fn seq(length: u32, id: &str, identity: Option<Identity>, is_representative: bool) -> Sequence {
    Sequence { length, id: id.to_string(), identity, is_representative }
}

fn cluster_of_size(cluster_id: usize, n: usize) -> Cluster {
    let mut sequences = Vec::new();
    for i in 0..n {
        sequences.push(seq(10, &format!("s{cluster_id}_{i}"), None, i == 0));
    }
    Cluster { cluster_id, sequences }
}

fn parse_all(text: &str) -> Vec<Cluster> {
    let mut parser = ClstrParser::new(text);
    let mut out = Vec::new();
    while let Some(c) = parser.next() {
        out.push(c.unwrap());
    }
    out
}

#[test]
fn test_clstr_parsing() {
    let data = ">Cluster 0
0    4481aa, >sp|P0C6T5|R1A_BCHK5... at 99.89%
1    7126aa, >sp|P0C6W1|R1AB_BC133... at 66.94%
2    7119aa, >sp|P0C6W3|R1AB_BCHK4... at 67.17%
3    7182aa, >sp|P0C6W4|R1AB_BCHK5... *
4    307aa, >sp|Q9WQ77|R1AB_CVRSD... at 76.22%
>Cluster 1
0    4471aa, >sp|P0C6U3|R1A_CVHN1... at 99.91%
1    4441aa, >sp|P0C6U4|R1A_CVHN2... at 81.47%
2    4421aa, >sp|P0C6U5|R1A_CVHN5... at 81.52%
";

    let mut parser = ClstrParser::new(data);

    let cluster0 = parser.next().unwrap().unwrap();
    assert_eq!(cluster0.cluster_id(), 0);
    assert_eq!(cluster0.size(), 5);
    assert_eq!(cluster0.sequences()[0].id(), "sp|P0C6T5|R1A_BCHK5");
    assert_eq!(cluster0.sequences()[0].identity().map(as_f32), Some(99.89));
    assert!(!cluster0.sequences()[0].is_representative());

    assert_eq!(cluster0.sequences()[3].id(), "sp|P0C6W4|R1AB_BCHK5");
    assert!(cluster0.sequences()[3].is_representative());
    assert_eq!(cluster0.sequences()[3].identity(), None);

    let cluster1 = parser.next().unwrap().unwrap();
    assert_eq!(cluster1.cluster_id(), 1);
    assert_eq!(cluster1.size(), 3);
    assert_eq!(cluster1.sequences()[0].id(), "sp|P0C6U3|R1A_CVHN1");
    assert_eq!(cluster1.sequences()[0].identity().map(as_f32), Some(99.91));
    assert!(!cluster1.sequences()[0].is_representative());
}

#[test]
fn test_write_cluster() {
    let sequence1 = Sequence {
        length: 4481,
        id: "sp|P0C6T5|R1A_BCHK5".to_string(),
        identity: Some(Identity { mantissa: 9989, places: 2 }),
        is_representative: false,
    };

    let sequence2 = Sequence {
        length: 7182,
        id: "sp|P0C6W4|R1AB_BCHK5".to_string(),
        identity: None,
        is_representative: true,
    };

    let cluster = Cluster { cluster_id: 0, sequences: vec![sequence1, sequence2] };

    let mut writer = ClstrWriter::new();
    writer.write_cluster(&cluster).unwrap();
    let output_str = writer.flush();
    assert_eq!(output_str, ">Cluster 0\n0    4481aa, >sp|P0C6T5|R1A_BCHK5... at 99.89%\n1    7182aa, >sp|P0C6W4|R1AB_BCHK5... *\n");
}

#[test]
fn two_clusters_scenario() {
    let text = ">Cluster 0\n0    100aa, >seqA... at 95.00%\n1    100aa, >seqB... *\n>Cluster 1\n0    50aa, >seqC... *\n";
    let clusters = parse_all(text);
    assert_eq!(clusters.len(), 2);
    let c0 = &clusters[0];
    assert_eq!(c0.cluster_id(), 0);
    assert_eq!(c0.size(), 2);
    assert_eq!(c0.sequences()[0].id(), "seqA");
    assert_eq!(c0.sequences()[0].length(), 100);
    assert_eq!(c0.sequences()[0].identity(), Some(Identity { mantissa: 9500, places: 2 }));
    assert_eq!(c0.sequences()[0].identity().map(as_f32), Some(95.0));
    assert!(!c0.sequences()[0].is_representative());
    assert_eq!(c0.sequences()[1].id(), "seqB");
    assert_eq!(c0.sequences()[1].identity(), None);
    assert!(c0.sequences()[1].is_representative());
    let c1 = &clusters[1];
    assert_eq!(c1.cluster_id(), 1);
    assert_eq!(c1.size(), 1);
    assert_eq!(c1.sequences()[0].id(), "seqC");
    assert_eq!(c1.sequences()[0].length(), 50);
    assert_eq!(c1.sequences()[0].identity(), None);
    assert!(c1.sequences()[0].is_representative());

    assert_eq!(filter_by_size(&clusters, 2), vec![0]);
    assert_eq!(filter_by_size(&clusters, 1), vec![0, 1]);
    assert_eq!(filter_by_size(&clusters, 0), vec![0, 1]);
    assert_eq!(filter_by_size(&clusters, 3), Vec::<usize>::new());
}

#[test]
fn header_numerals_are_ignored() {
    let text = ">Cluster 7\n0    10aa, >a... *\n>Cluster 3\n>Cluster 99\n0    10aa, >b... *\n";
    let clusters = parse_all(text);
    let ids: Vec<usize> = clusters.iter().map(|c| c.cluster_id()).collect();
    assert_eq!(ids, vec![0, 1, 2]);
    let sizes: Vec<usize> = clusters.iter().map(|c| c.size()).collect();
    assert_eq!(sizes, vec![1, 0, 1]);
}

#[test]
fn stray_lines_before_first_header_are_dropped() {
    let text = "some preamble\n\n>Cluster 0\n0    10aa, >a... *\n";
    let clusters = parse_all(text);
    assert_eq!(clusters.len(), 1);
    assert_eq!(clusters[0].size(), 1);
}

#[test]
fn empty_input_gives_no_cluster() {
    let mut parser = from_reader("");
    assert!(parser.next().is_none());
    let mut parser = ClstrParser::new("no header here\n");
    assert!(parser.next().is_none());
}

#[test]
fn crlf_line_endings_are_stripped() {
    let text = ">Cluster 0\r\n0    10aa, >a... at 90.5%\r\n1    12aa, >b... *\r\n";
    let clusters = parse_all(text);
    assert_eq!(clusters.len(), 1);
    let c = &clusters[0];
    assert_eq!(c.size(), 2);
    assert_eq!(c.sequences()[0].identity(), Some(Identity { mantissa: 905, places: 1 }));
    assert!(c.sequences()[1].is_representative());
    assert_eq!(c.sequences()[1].id(), "b");
}

#[test]
fn last_line_without_newline() {
    let clusters = parse_all(">Cluster 0\n0    10aa, >a... *");
    assert_eq!(clusters.len(), 1);
    assert_eq!(clusters[0].sequences()[0].id(), "a");
}

#[test]
fn parser_stops_after_last_cluster() {
    let mut parser = ClstrParser::new(">Cluster 0\n0    10aa, >a... *\n");
    assert!(parser.next().unwrap().is_ok());
    assert!(parser.next().is_none());
    assert!(parser.next().is_none());
}

#[test]
fn malformed_line_fails_the_parse() {
    let mut parser = ClstrParser::new(">Cluster 0\n0    10, >a... *\n>Cluster 1\n0    10aa, >b... *\n");
    let err = parser.next().unwrap().unwrap_err();
    match err.kind() {
        ErrorKind::ReadRecord(m) => assert_eq!(m, "Invalid length format: 0    10, >a... *"),
        other => panic!("unexpected error {other:?}"),
    }
}

#[test]
fn too_few_fields_is_a_record_error() {
    let err = parse_sequence_line("0    10aa,").unwrap_err();
    match err.into_kind() {
        ErrorKind::ReadRecord(m) => assert_eq!(m, "Invalid sequence line: 0    10aa,"),
        other => panic!("unexpected error {other:?}"),
    }
}

#[test]
fn missing_aa_suffix_is_a_record_error() {
    let err = parse_sequence_line("0    10nt, >a... *").unwrap_err();
    match err.into_kind() {
        ErrorKind::ReadRecord(m) => assert_eq!(m, "Invalid length format: 0    10nt, >a... *"),
        other => panic!("unexpected error {other:?}"),
    }
}

#[test]
fn bad_length_number_is_an_int_error() {
    let err = parse_sequence_line("0    1x0aa, >a... *").unwrap_err();
    match err.into_kind() {
        ErrorKind::Int(t) => assert_eq!(t, "1x0"),
        other => panic!("unexpected error {other:?}"),
    }
    let err = parse_sequence_line("0    4294967296aa, >a... *").unwrap_err();
    assert!(matches!(err.into_kind(), ErrorKind::Int(_)));
    let ok = parse_sequence_line("0    4294967295aa, >a... *").unwrap();
    assert_eq!(ok.length(), 4294967295);
}

#[test]
fn missing_id_delimiter_is_a_record_error() {
    let err = parse_sequence_line("0    10aa, >abc *").unwrap_err();
    match err.into_kind() {
        ErrorKind::ReadRecord(m) => assert_eq!(m, "Invalid ID format: 0    10aa, >abc *"),
        other => panic!("unexpected error {other:?}"),
    }
    let err = parse_sequence_line("0    10aa, >... *").unwrap_err();
    assert!(matches!(err.into_kind(), ErrorKind::ReadRecord(_)));
}

#[test]
fn bad_identity_is_a_float_error() {
    let err = parse_sequence_line("0    10aa, >a... at high%").unwrap_err();
    match err.into_kind() {
        ErrorKind::Float(t) => assert_eq!(t, "high"),
        other => panic!("unexpected error {other:?}"),
    }
}

#[test]
fn identity_and_marker_are_independent() {
    let s = parse_sequence_line("0    10aa, >a... at 80%").unwrap();
    assert_eq!(s.identity(), Some(Identity { mantissa: 80, places: 0 }));
    assert!(!s.is_representative());
    let s = parse_sequence_line("0    10aa, >a... *").unwrap();
    assert_eq!(s.identity(), None);
    assert!(s.is_representative());
    let s = parse_sequence_line("0    10aa, >a... at 80.5%*").unwrap();
    assert_eq!(s.identity(), Some(Identity { mantissa: 805, places: 1 }));
    assert!(s.is_representative());
    let s = parse_sequence_line("0    10aa, >a... at 80.5 \t *").unwrap();
    assert_eq!(s.identity(), Some(Identity { mantissa: 805, places: 1 }));
    assert!(s.is_representative());
    let s = parse_sequence_line("0    10aa, >a... at 80.5% x*").unwrap_err();
    assert!(matches!(s.into_kind(), ErrorKind::Float(_)));
    let s = parse_sequence_line("0    10aa, >a...*").unwrap();
    assert!(s.is_representative());
    assert_eq!(s.id(), "a");
}

#[test]
fn id_keeps_text_before_first_delimiter() {
    let s = parse_sequence_line("0\t10aa,   sp|X|Y...more... at 1.5%").unwrap();
    assert_eq!(s.id(), "sp|X|Y");
    assert_eq!(s.length(), 10);
    assert_eq!(s.identity(), Some(Identity { mantissa: 15, places: 1 }));
}

#[test]
fn identity_is_written_with_two_decimals() {
    let cases = [
        (Identity { mantissa: 95, places: 0 }, "95.00"),
        (Identity { mantissa: 905, places: 1 }, "90.50"),
        (Identity { mantissa: 99891, places: 3 }, "99.89"),
        (Identity { mantissa: 99896, places: 3 }, "99.90"),
        (Identity { mantissa: 95125, places: 3 }, "95.12"),
        (Identity { mantissa: 95135, places: 3 }, "95.14"),
        (Identity { mantissa: 7, places: 30 }, "0.00"),
    ];
    for (identity, text) in cases {
        let mut w = ClstrWriter::new();
        let c = Cluster { cluster_id: 3, sequences: vec![seq(12, "x", Some(identity), false)] };
        w.write_cluster(&c).unwrap();
        assert_eq!(w.flush(), format!(">Cluster 3\n0    12aa, >x... at {text}%\n"));
    }
    assert_eq!(Identity { mantissa: 95125, places: 3 }.hundredths(), 9512);
    assert_eq!(Identity { mantissa: 12, places: 0 }.hundredths(), 1200);
}

#[test]
fn writer_renumbers_members_and_round_trips() {
    let text = ">Cluster 5\n3    10aa, >a... at 91.237%\n7    20aa, >b... *\n>Cluster 9\n2    30aa, >c... *\n";
    let clusters = parse_all(text);
    let mut w = ClstrWriter::new();
    for c in &clusters {
        w.write_cluster(c).unwrap();
    }
    let out = w.flush();
    assert_eq!(out, ">Cluster 0\n0    10aa, >a... at 91.24%\n1    20aa, >b... *\n>Cluster 1\n0    30aa, >c... *\n");
    let again = parse_all(&out);
    assert_eq!(again.len(), 2);
    assert_eq!(again[0].sequences()[0].identity(), Some(Identity { mantissa: 9124, places: 2 }));
    assert_eq!(again[0].sequences()[1].id(), "b");
    assert!(again[0].sequences()[1].is_representative());
    assert_eq!(again[1].sequences()[0].length(), 30);
    assert_eq!(w.flush(), "");
}

#[test]
fn top_n_orders_by_size_then_position() {
    let clusters = vec![cluster_of_size(0, 5), cluster_of_size(1, 1), cluster_of_size(2, 3)];
    assert_eq!(top_n(&clusters, 2), vec![0, 2]);
    assert_eq!(top_n(&clusters, 10), vec![0, 2, 1]);
    assert_eq!(top_n(&clusters, 0), Vec::<usize>::new());
    let ties = vec![cluster_of_size(0, 2), cluster_of_size(1, 4), cluster_of_size(2, 2), cluster_of_size(3, 4)];
    assert_eq!(top_n(&ties, 3), vec![1, 3, 0]);
}

#[test]
fn assembler_steps_line_by_line() {
    let mut a = ClusterAssembler::new();
    assert!(a.feed_line("stray").unwrap().is_none());
    assert!(a.feed_line(">Cluster 0").unwrap().is_none());
    assert!(a.feed_line("0    10aa, >a... *").unwrap().is_none());
    let c = a.feed_line(">Cluster 1").unwrap().unwrap();
    assert_eq!(c.cluster_id(), 0);
    assert_eq!(c.size(), 1);
    assert!(a.feed_line("bad").is_err());
    let last = a.finish().unwrap();
    assert_eq!(last.cluster_id(), 1);
    assert_eq!(last.size(), 0);
    assert!(a.finish().is_none());
}

#[test]
fn representative_is_first_marked_member() {
    let c = Cluster {
        cluster_id: 0,
        sequences: vec![seq(1, "a", None, false), seq(2, "b", None, true), seq(3, "c", None, true)],
    };
    assert_eq!(c.get_representative().unwrap().id(), "b");
    let none = Cluster { cluster_id: 1, sequences: vec![seq(1, "a", None, false)] };
    assert!(none.get_representative().is_none());
}

#[test]
fn error_message_names_kind_and_text() {
    let err = parse_sequence_line("0    10aa, >a... at x%").unwrap_err();
    assert_eq!(err.message(), "parsing float error - x");
    let err = parse_sequence_line("junk").unwrap_err();
    assert_eq!(err.message(), "reading record - Invalid sequence line: junk");
    let err = clstr::Error::new(ErrorKind::Io("disk full".to_string()));
    assert_eq!(err.message(), "I/O error - disk full");
    let err = parse_sequence_line("0    -1aa, >a...").unwrap_err();
    assert_eq!(err.message(), "parsing integer error - -1");
}

#[test]
fn identity_with_representative_mark() {
    let s = parse_sequence_line("0    100aa, >seqA... at 95.00% *").unwrap();
    assert_eq!(s.id(), "seqA");
    assert_eq!(s.length(), 100);
    assert!(s.is_representative());
    assert_eq!(s.identity(), Some(Identity { mantissa: 9500, places: 2 }));
    assert_eq!(s.identity().map(as_f32), Some(95.0));
}

#[test]
fn identity_and_mark_round_trip_together() {
    let c = Cluster {
        cluster_id: 0,
        sequences: vec![seq(7, "both", Some(Identity { mantissa: 88888, places: 3 }), true)],
    };
    let mut w = ClstrWriter::new();
    w.write_cluster(&c).unwrap();
    let text = w.flush();
    assert_eq!(text, ">Cluster 0\n0    7aa, >both... at 88.89% *\n");
    let back = parse_all(&text);
    assert_eq!(back.len(), 1);
    let s = &back[0].sequences()[0];
    assert_eq!(s.id(), "both");
    assert_eq!(s.length(), 7);
    assert!(s.is_representative());
    assert_eq!(s.identity(), Some(Identity { mantissa: 8889, places: 2 }));
}

#[test]
fn identity_too_large_to_round_is_refused() {
    let ok = parse_sequence_line("0    7aa, >a... at 184467440737095516%").unwrap();
    assert_eq!(ok.identity(), Some(Identity { mantissa: 184467440737095516, places: 0 }));
    let err = parse_sequence_line("0    7aa, >a... at 184467440737095517%").unwrap_err();
    assert!(matches!(err.into_kind(), ErrorKind::Float(_)));
}

#[test]
fn file_stem_from_representative_description() {
    assert_eq!(cluster_file_stem(true, Some("Replicase polyprotein 1a/1ab")), "Replicase_polyprotein_1a_1ab");
    assert_eq!(cluster_file_stem(true, Some("")), "");
    assert_eq!(cluster_file_stem(true, None), "no-description");
    assert_eq!(cluster_file_stem(false, Some("ignored text")), "No representative");
    assert_eq!(cluster_file_stem(true, Some("é / ü")), "é___ü");
}
