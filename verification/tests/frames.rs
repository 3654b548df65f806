use miyu::ipc::frames::{FrameError, FrameReader, ReceiveStep};

const LIMIT: usize = 1024;

fn frame(body: &str) -> Vec<u8> {
    let mut bytes = (body.len() as u32).to_be_bytes().to_vec();
    bytes.extend_from_slice(body.as_bytes());
    bytes
}

fn received(reader: &mut FrameReader) -> Option<String> {
    match reader.receive().unwrap() {
        ReceiveStep::Frame(body) => Some(String::from_utf8(body).unwrap()),
        ReceiveStep::End => None,
        ReceiveStep::Read => panic!("more bytes are wanted"),
    }
}

fn unseen(reader: &mut FrameReader) -> Vec<String> {
    let mut seen = Vec::new();
    while let Some(body) = reader.next_unseen().unwrap() {
        seen.push(String::from_utf8(body).unwrap());
    }
    seen
}

#[test]
fn look_ahead_sees_arrived_frames_without_consuming_them() {
    let mut reader = FrameReader::new(LIMIT);
    for index in 0..3 {
        reader.feed(&frame(&format!("{{\"n\":{index}}}")));
    }
    assert_eq!(
        unseen(&mut reader),
        ["{\"n\":0}", "{\"n\":1}", "{\"n\":2}"]
    );
    assert!(unseen(&mut reader).is_empty());
    for index in 0..3 {
        assert_eq!(
            received(&mut reader),
            Some(format!("{{\"n\":{index}}}"))
        );
    }
}

#[test]
fn look_ahead_stops_where_visit_says_and_resumes_after_it() {
    let mut reader = FrameReader::new(LIMIT);
    for index in 0..4 {
        reader.feed(&frame(&format!("{{\"n\":{index}}}")));
    }
    let mut seen = Vec::new();
    while let Some(body) = reader.next_unseen().unwrap() {
        let body = String::from_utf8(body).unwrap();
        let stop = body == "{\"n\":1}";
        seen.push(body);
        if stop {
            break;
        }
    }
    assert_eq!(seen, ["{\"n\":0}", "{\"n\":1}"]);
    seen.extend(unseen(&mut reader));
    assert_eq!(seen, ["{\"n\":0}", "{\"n\":1}", "{\"n\":2}", "{\"n\":3}"]);
}

#[test]
fn a_half_arrived_frame_is_neither_seen_nor_lost() {
    let mut reader = FrameReader::new(LIMIT);
    let whole = frame("{\"kind\":\"question.answered\"}");
    let (head, tail) = whole.split_at(whole.len() / 2);
    reader.feed(&head.to_vec());
    assert!(unseen(&mut reader).is_empty());
    assert!(matches!(reader.receive().unwrap(), ReceiveStep::Read));
    reader.feed(&tail.to_vec());
    assert_eq!(unseen(&mut reader), ["{\"kind\":\"question.answered\"}"]);
    assert_eq!(
        received(&mut reader).as_deref(),
        Some("{\"kind\":\"question.answered\"}")
    );
}

#[test]
fn closing_on_a_frame_boundary_ends_the_stream_cleanly() {
    let mut reader = FrameReader::new(LIMIT);
    reader.feed(&frame("{\"n\":0}"));
    reader.close();
    assert_eq!(unseen(&mut reader), ["{\"n\":0}"]);
    assert_eq!(received(&mut reader).as_deref(), Some("{\"n\":0}"));
    assert_eq!(received(&mut reader), None);
}

#[test]
fn closing_within_a_frame_is_an_error() {
    let mut reader = FrameReader::new(LIMIT);
    reader.feed(&vec![0, 0, 0]);
    reader.close();
    assert!(matches!(reader.receive(), Err(FrameError::ClosedInFrame)));
}

#[test]
fn a_frame_of_no_or_too_many_bytes_is_an_error() {
    for length in [0u32, LIMIT as u32 + 1] {
        let mut reader = FrameReader::new(LIMIT);
        reader.feed(&length.to_be_bytes().to_vec());
        assert!(matches!(
            reader.receive(),
            Err(FrameError::InvalidLength(n)) if n == length
        ));
        assert!(matches!(
            reader.next_unseen(),
            Err(FrameError::InvalidLength(n)) if n == length
        ));
        assert!(matches!(
            reader.take_frame(),
            Err(FrameError::InvalidLength(n)) if n == length
        ));
    }
}

#[test]
fn frames_survive_a_long_stream() {
    let mut reader = FrameReader::new(200_000);
    let body = "x".repeat(70_000);
    for _ in 0..5 {
        reader.feed(&frame(&body));
        assert_eq!(received(&mut reader).as_deref(), Some(body.as_str()));
        assert!(matches!(reader.receive().unwrap(), ReceiveStep::Read));
    }
    assert!(reader.buffer.len() < 200_000);
}

#[test]
fn each_frame_is_shown_once_whatever_is_taken_meanwhile() {
    let mut reader = FrameReader::new(LIMIT);
    let mut seen = Vec::new();
    let mut taken = Vec::new();
    let mut bytes = Vec::new();
    for index in 0..6 {
        bytes.extend(frame(&format!("{index}")));
    }
    // One byte at a time, with a look after each third and a frame taken after
    // each seventh.
    for (at, byte) in bytes.iter().enumerate() {
        reader.feed(&vec![*byte]);
        if at % 3 == 0 {
            if let Some(body) = reader.next_unseen().unwrap() {
                seen.push(String::from_utf8(body).unwrap());
            }
        }
        if at % 7 == 0 {
            if let ReceiveStep::Frame(body) = reader.receive().unwrap() {
                taken.push(String::from_utf8(body).unwrap());
            }
        }
    }
    seen.extend(unseen(&mut reader));
    while let ReceiveStep::Frame(body) = reader.receive().unwrap() {
        taken.push(String::from_utf8(body).unwrap());
    }
    assert_eq!(taken, ["0", "1", "2", "3", "4", "5"]);
    let mut once = seen.clone();
    once.sort();
    once.dedup();
    assert_eq!(seen, once);
    assert!(seen.contains(&"5".to_string()));
}

#[test]
fn a_frame_that_was_taken_unseen_is_not_shown() {
    let mut reader = FrameReader::new(LIMIT);
    for body in ["a", "b", "c"] {
        reader.feed(&frame(body));
    }
    assert_eq!(received(&mut reader).as_deref(), Some("a"));
    assert_eq!(unseen(&mut reader), ["b", "c"]);
    assert_eq!(received(&mut reader).as_deref(), Some("b"));
    assert!(unseen(&mut reader).is_empty());
    assert_eq!(received(&mut reader).as_deref(), Some("c"));
}
