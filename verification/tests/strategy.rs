use autodpi::clienthello::build_client_hello;
use autodpi::strategy::{
    by_name, default_catalogue, segment_steps, AnyStrategy, Direct, MultiSplit, SendStep, SplitAtOffset,
    SplitAtSni, Strategy,
};

fn written(steps: &[SendStep], data: &[u8]) -> Vec<u8> {
    let mut out = Vec::new();
    for s in steps {
        if let SendStep::Write { start, end } = s {
            out.extend_from_slice(&data[*start..*end]);
        }
    }
    out
}

#[test]
fn direct_writes_everything_at_once() {
    let data = [1u8, 2, 3, 4, 5, 6, 7, 8, 9, 10];
    assert_eq!(Direct.initial_steps(&data), vec![SendStep::Write { start: 0, end: 10 }]);
    assert_eq!(Direct.name(), "direct");
    assert_eq!(Direct.description(), "No manipulation (baseline / control)");
}

#[test]
fn split_at_offset_cuts_once() {
    let data = [0u8; 10];
    let s = SplitAtOffset { id: "split-1".into(), offset: 1, delay_ms: 0 };
    assert_eq!(
        s.initial_steps(&data),
        vec![SendStep::Write { start: 0, end: 1 }, SendStep::Write { start: 1, end: 10 }]
    );
    let slow = SplitAtOffset { id: "x".into(), offset: 1, delay_ms: 40 };
    assert_eq!(
        slow.initial_steps(&data),
        vec![
            SendStep::Write { start: 0, end: 1 },
            SendStep::Pause { millis: 40 },
            SendStep::Write { start: 1, end: 10 },
        ]
    );
}

#[test]
fn empty_segments_are_skipped_with_their_pause() {
    let data = [0u8; 10];
    let at_zero = SplitAtOffset { id: "x".into(), offset: 0, delay_ms: 40 };
    assert_eq!(at_zero.initial_steps(&data), vec![SendStep::Write { start: 0, end: 10 }]);
    let past_end = SplitAtOffset { id: "x".into(), offset: 20, delay_ms: 40 };
    assert_eq!(
        past_end.initial_steps(&data),
        vec![SendStep::Write { start: 0, end: 10 }, SendStep::Pause { millis: 40 }]
    );
}

#[test]
fn split_at_sni_cuts_inside_hostname() {
    let host = "blocked.example.org";
    let hello = build_client_hello(host);
    let s = SplitAtSni { id: "split-sni".into(), delay_ms: 0 };
    let steps = s.initial_steps(&hello);
    assert_eq!(
        steps,
        vec![
            SendStep::Write { start: 0, end: 88 },
            SendStep::Write { start: 88, end: hello.len() },
        ]
    );
    assert_eq!(written(&steps, &hello), hello);
}

#[test]
fn split_at_sni_falls_back_to_middle() {
    let data = [0x17u8; 10];
    let s = SplitAtSni { id: "split-sni".into(), delay_ms: 0 };
    assert_eq!(
        s.initial_steps(&data),
        vec![SendStep::Write { start: 0, end: 5 }, SendStep::Write { start: 5, end: 10 }]
    );
}

#[test]
fn multisplit_makes_equal_chunks() {
    let data: Vec<u8> = (0..10).collect();
    let s = MultiSplit { id: "multisplit-4".into(), parts: 4, delay_ms: 0 };
    let steps = s.initial_steps(&data);
    assert_eq!(
        steps,
        vec![
            SendStep::Write { start: 0, end: 3 },
            SendStep::Write { start: 3, end: 6 },
            SendStep::Write { start: 6, end: 9 },
            SendStep::Write { start: 9, end: 10 },
        ]
    );
    assert_eq!(written(&steps, &data), data);
}

#[test]
fn multisplit_slow_pauses_between_chunks() {
    let data = [0u8; 10];
    let s = MultiSplit { id: "multisplit-8-slow".into(), parts: 8, delay_ms: 40 };
    let steps = s.initial_steps(&data);
    let writes: Vec<(usize, usize)> = steps
        .iter()
        .filter_map(|s| match s {
            SendStep::Write { start, end } => Some((*start, *end)),
            _ => None,
        })
        .collect();
    let pauses = steps.iter().filter(|s| matches!(s, SendStep::Pause { millis: 40 })).count();
    assert_eq!(writes, vec![(0, 2), (2, 4), (4, 5), (5, 6), (6, 7), (7, 8), (8, 9), (9, 10)]);
    assert_eq!(pauses, 7);
    assert_eq!(steps.last(), Some(&SendStep::Write { start: 9, end: 10 }));
}

#[test]
fn multisplit_gives_exactly_parts_segments() {
    let s = MultiSplit { id: "multisplit-4".into(), parts: 4, delay_ms: 0 };
    assert_eq!(
        s.initial_steps(&[1u8, 2, 3, 4, 5, 6]),
        vec![
            SendStep::Write { start: 0, end: 2 },
            SendStep::Write { start: 2, end: 4 },
            SendStep::Write { start: 4, end: 5 },
            SendStep::Write { start: 5, end: 6 },
        ]
    );
    let hello = build_client_hello("example.com");
    assert_eq!(hello.len(), 130);
    let sizes = |parts: usize| -> Vec<usize> {
        let s = MultiSplit { id: "x".into(), parts, delay_ms: 0 };
        s.initial_steps(&hello)
            .iter()
            .map(|st| match st {
                SendStep::Write { start, end } => end - start,
                SendStep::Pause { .. } => 0,
            })
            .collect()
    };
    assert_eq!(sizes(4), vec![33, 33, 33, 31]);
    assert_eq!(sizes(8), vec![17, 17, 17, 17, 17, 17, 17, 11]);
    assert_eq!(sizes(130), vec![1; 130]);
    // fewer bytes than pieces: one segment per byte
    let few = MultiSplit { id: "x".into(), parts: 5, delay_ms: 0 };
    assert_eq!(
        few.initial_steps(&[7u8, 8]),
        vec![SendStep::Write { start: 0, end: 1 }, SendStep::Write { start: 1, end: 2 }]
    );
}

#[test]
fn multisplit_edge_cases() {
    let zero_parts = MultiSplit { id: "x".into(), parts: 0, delay_ms: 0 };
    assert_eq!(zero_parts.initial_steps(&[1, 2, 3]), vec![SendStep::Write { start: 0, end: 3 }]);
    assert_eq!(zero_parts.initial_steps(&[]), vec![]);
    let huge = MultiSplit { id: "x".into(), parts: usize::MAX, delay_ms: 0 };
    assert!(huge.accepts_len(1));
    assert!(!huge.accepts_len(2));
    assert_eq!(huge.initial_steps(&[9]), vec![SendStep::Write { start: 0, end: 1 }]);
}

#[test]
fn catalogue_has_seven_named_strategies() {
    let names: Vec<String> = default_catalogue().iter().map(|s| s.name().to_string()).collect();
    assert_eq!(
        names,
        vec![
            "direct",
            "split-sni",
            "split-sni-slow",
            "split-1",
            "split-5",
            "multisplit-4",
            "multisplit-8-slow"
        ]
    );
}

#[test]
fn by_name_finds_catalogue_entries() {
    for s in default_catalogue() {
        let found = by_name(s.name()).expect("catalogue names resolve");
        assert_eq!(found.name(), s.name());
    }
    match by_name("split-5") {
        Some(AnyStrategy::SplitAtOffset(s)) => {
            assert_eq!(s.offset, 5);
            assert_eq!(s.delay_ms, 0);
        }
        other => panic!("unexpected {:?}", other),
    }
    match by_name("multisplit-8-slow") {
        Some(AnyStrategy::MultiSplit(s)) => {
            assert_eq!(s.parts, 8);
            assert_eq!(s.delay_ms, 40);
        }
        other => panic!("unexpected {:?}", other),
    }
    assert!(by_name("nope").is_none());
    assert!(by_name("").is_none());
}

#[test]
fn every_catalogue_plan_delivers_the_hello() {
    let hello = build_client_hello("www.example.com");
    for s in default_catalogue() {
        assert!(s.accepts_len(hello.len()));
        let steps = s.initial_steps(&hello);
        assert_eq!(written(&steps, &hello), hello, "{}", s.name());
    }
}

#[test]
fn segment_plan_pauses_between_non_empty_parts() {
    let steps = segment_steps(&vec![(0, 3), (3, 3), (3, 7), (7, 9)], 20);
    assert_eq!(
        steps,
        vec![
            SendStep::Write { start: 0, end: 3 },
            SendStep::Pause { millis: 20 },
            SendStep::Write { start: 3, end: 7 },
            SendStep::Pause { millis: 20 },
            SendStep::Write { start: 7, end: 9 },
        ]
    );
    let no_delay = segment_steps(&vec![(0, 2), (2, 5)], 0);
    assert_eq!(
        no_delay,
        vec![SendStep::Write { start: 0, end: 2 }, SendStep::Write { start: 2, end: 5 }]
    );
    // A last part that is empty leaves a pause after the last write.
    let trailing = segment_steps(&vec![(0, 4), (4, 4)], 5);
    assert_eq!(
        trailing,
        vec![SendStep::Write { start: 0, end: 4 }, SendStep::Pause { millis: 5 }]
    );
}
