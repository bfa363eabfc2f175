use nibble_link::escape::{EscapeCode, Escaped};
use nibble_link::frame::{decode_frame, encode_frame, FRAME_DATA_LEN, FRAME_LEN};
use nibble_link::input::{Command, InputStream};
use nibble_link::output::OutputStream;
use nibble_link::window::Window;

/// How many frames the escaped bytes of `data` fill.
fn frame_count(data: &[u8]) -> usize {
    let escaped_len = data.len()
        + data
            .iter()
            .filter(|b| EscapeCode::from_byte(**b).is_some())
            .count();
    (escaped_len + FRAME_DATA_LEN - 1) / FRAME_DATA_LEN
}

/// Feeds frames to the input stream by hand, with the Buffer code after
/// every nibble, as a line with a slow reader would show them.
fn use_input_stream(data: &[u8]) -> Vec<Command> {
    let frames = frame_count(data);
    let mut iter = Escaped::new(data.to_vec());
    let mut input_stream = InputStream::new();
    let mut commands = Vec::new();
    for _ in 0..frames {
        let frame = encode_frame(&mut iter);
        for byte in [&[0xf0; 5], frame.as_slice(), &[0xf0; 5]].concat() {
            let higher_nibble = byte >> 4;
            let lower_nibble = byte & 0x0f;
            commands.push(input_stream.push(higher_nibble));
            if higher_nibble == lower_nibble {
                commands.push(input_stream.push(0x5));
                commands.push(input_stream.push(0x6));
            }
            commands.push(input_stream.push(lower_nibble));
            commands.push(input_stream.push(0x5));
            commands.push(input_stream.push(0x6));
        }
    }
    commands
}

fn received(commands: &[Command]) -> Vec<&Command> {
    commands
        .iter()
        .filter(|command| matches!(command, Command::Received(..)))
        .collect()
}

/// Sends `data` through the escape encoder, the packer and an output stream
/// over a perfect line, with `idle` idle nibbles before the first frame and
/// after each one.
fn round_trip(data: &[u8], idle: usize) -> Vec<Command> {
    let mut source = Escaped::new(data.to_vec());
    let mut output = OutputStream::new();
    let mut input = InputStream::new();
    let mut commands = Vec::new();
    for _ in 0..idle {
        commands.push(input.push(output.next()));
    }
    for _ in 0..frame_count(data) {
        let frame = encode_frame(&mut source);
        output.send_frame(frame);
        // SOF, payload with fillers, EOF: at most three nibbles per nibble
        for _ in 0..(3 * 2 * FRAME_LEN) {
            commands.push(input.push(output.next()));
        }
        for _ in 0..idle {
            commands.push(input.push(output.next()));
        }
    }
    commands
}

#[test]
fn read_alternating() {
    let bytes = [0xf0; 64];
    let commands = use_input_stream(&bytes);
    assert_eq!(received(&commands), vec![&Command::Received([0xf0; 64])]);
}

#[test]
fn read_zeros() {
    let bytes = [0x00; 64];
    let commands = use_input_stream(&bytes);
    assert_eq!(received(&commands), vec![&Command::Received([0x00; 64])]);
}

#[test]
fn read_random() {
    let bytes = [
        0xa0, 0x8e, 0x4f, 0x24, 0x68, 0x53, 0x13, 0xcb, 0x17, 0xeb, 0xa1, 0xf2, 0x7e, 0xb3, 0xab,
        0x07, 0x00, 0x4c, 0xac, 0x54, 0x34, 0x5b, 0x72, 0x96, 0x09, 0xc0, 0xda, 0xbc, 0x17, 0xbc,
        0xef, 0xa9, 0x7f, 0x65, 0x39, 0x58, 0x21, 0x72, 0xdd, 0x0b, 0xba, 0x9a, 0x75, 0xcd, 0x5f,
        0xa2, 0x44, 0x43, 0x1b, 0xd2, 0x0d, 0x5b, 0x7c, 0x65, 0xbb, 0xc9, 0x4f, 0x78, 0xfe, 0x08,
        0x6e, 0x23, 0xce, 0x40,
    ];

    let commands = use_input_stream(&bytes);
    // 0x34 and 0x23 are control bytes: the packer doubles them, the decoder
    // reads each pair as one byte, and the first frame ends short, so it is
    // never handed over; the second frame holds what was left over
    let mut rest = [0u8; 64];
    rest[0] = 0xce;
    rest[1] = 0x40;
    assert_eq!(received(&commands), vec![&Command::Received(rest)]);
    assert!(commands.contains(&Command::ResendLastFrame));
}

#[test]
fn frame_one_nibble_too_long_asks_for_resend() {
    let mut input = InputStream::new();
    let mut wire = vec![0xf, 0x0, 0x1, 0x2];
    for _ in 0..64 {
        wire.extend_from_slice(&[0xf, 0x0]);
    }
    // one nibble more than the frame holds
    wire.push(0x9);
    wire.extend_from_slice(&[0x2, 0x3, 0xf, 0x0]);
    let commands = push_all(&mut input, &wire);
    assert!(received(&commands).is_empty());
    assert!(commands.contains(&Command::ResendLastFrame));
}

#[test]
fn window() {
    let mut window = Window::<2>::new();
    assert_eq!(
        [None, None, None, None, Some(0x01)],
        [
            window.push_back(0x01),
            window.push_back(0x02),
            window.push_back(0x03),
            window.push_back(0x04),
            window.push_back(0x05)
        ]
    );
    assert_eq!([0x23, 0x45], window.data());
    assert_eq!(
        [Some(0x05), Some(0x04), Some(0x03), Some(0x02), None],
        [window.get(0), window.get(1), window.get(2), window.get(3), window.get(4)]
    );
    assert_eq!(
        [Some(0x05), Some(0x04), Some(0x03), Some(0x02), None],
        [
            window.pop_back(),
            window.pop_back(),
            window.pop_back(),
            window.pop_back(),
            window.pop_back()
        ]
    );
}

#[test]
fn window_pop_front_takes_oldest() {
    let mut window = Window::<2>::new();
    window.push_back(0x7);
    window.push_back(0x8);
    window.push_back(0x9);
    assert_eq!(window.len(), 3);
    assert_eq!(window.pop_front(), Some(0x7));
    assert_eq!(window.pop_front(), Some(0x8));
    assert_eq!(window.pop_front(), Some(0x9));
    assert_eq!(window.pop_front(), None);
}

#[test]
fn zeros_only() {
    let commands = round_trip(&[0x00; 64], 0);
    assert_eq!(received(&commands), vec![&Command::Received([0x00; 64])]);
}

#[test]
fn ones_zeros_alternation() {
    let commands = round_trip(&[0xf0; 64], 0);
    assert_eq!(received(&commands), vec![&Command::Received([0xf0; 64])]);
}

#[test]
fn idle_prelude_and_suffix() {
    // five bytes of 0xF0 are ten idle nibbles
    let commands = round_trip(&[0xf0; 64], 10);
    assert_eq!(received(&commands), vec![&Command::Received([0xf0; 64])]);
    assert!(commands
        .iter()
        .all(|c| matches!(c, Command::Received(..) | Command::Nothing)));
}

#[test]
fn short_payload() {
    let bytes = [0x01, 0x02, 0x03, 0x04, 0x05, 0x06, 0x07, 0x08, 0x09, 0x0a];
    let commands = round_trip(&bytes, 4);
    let mut expected = [0u8; 64];
    expected[..10].copy_from_slice(&bytes);
    assert_eq!(received(&commands), vec![&Command::Received(expected)]);
}

#[test]
fn two_frames_in_order() {
    let mut bytes = vec![0x83u8; 64];
    bytes.extend_from_slice(&[0x9c; 64]);
    let commands = round_trip(&bytes, 6);
    assert_eq!(
        received(&commands),
        vec![&Command::Received([0x83; 64]), &Command::Received([0x9c; 64])]
    );
}

#[test]
fn buffer_pairs_between_equal_nibbles_are_transparent() {
    // 0x99 0x99 ...: every nibble equals the one before it
    let commands = round_trip(&[0x99; 64], 2);
    assert_eq!(received(&commands), vec![&Command::Received([0x99; 64])]);
}

#[test]
fn output_never_repeats_a_nibble() {
    let mut source = Escaped::new((0u8..=255).collect());
    let mut output = OutputStream::new();
    let mut previous = output.next();
    for round in 0..6 {
        output.send_frame(encode_frame(&mut source));
        for _ in 0..400 {
            let nibble = output.next();
            assert!(nibble < 16);
            assert_ne!(nibble, previous);
            previous = nibble;
        }
        if round % 2 == 1 {
            output.resend_frame();
        }
    }
}

#[test]
fn idle_pattern_alternates() {
    let mut output = OutputStream::new();
    let nibbles: Vec<u8> = (0..6).map(|_| output.next()).collect();
    assert_eq!(nibbles, vec![0x0f, 0x00, 0x0f, 0x00, 0x0f, 0x00]);
}

#[test]
fn equal_nibbles_get_the_buffer_code_between_them() {
    let mut source = Escaped::new(vec![0x11]);
    let mut output = OutputStream::new();
    output.send_frame(encode_frame(&mut source));
    let nibbles: Vec<u8> = (0..8).map(|_| output.next()).collect();
    // SOF, then 1, Buffer, 1, then the zero padding
    assert_eq!(nibbles, vec![0x1, 0x2, 0x1, 0x5, 0x6, 0x1, 0x0, 0x5]);
}

#[test]
fn resend_starts_the_frame_again() {
    let mut source = Escaped::new(vec![0xab]);
    let mut output = OutputStream::new();
    output.send_frame(encode_frame(&mut source));
    let first: Vec<u8> = (0..4).map(|_| output.next()).collect();
    output.resend_frame();
    let again: Vec<u8> = (0..4).map(|_| output.next()).collect();
    assert_eq!(first, vec![0x1, 0x2, 0xa, 0xb]);
    assert_eq!(again, vec![0x1, 0x2, 0xa, 0xb]);
}

fn push_all(input: &mut InputStream, nibbles: &[u8]) -> Vec<Command> {
    nibbles.iter().map(|n| input.push(*n)).collect()
}

#[test]
fn control_codes_while_waiting() {
    let mut input = InputStream::new();
    // CFD followed by two more nibbles
    let c = push_all(&mut input, &[0x3, 0x4, 0xf, 0x0]);
    assert_eq!(c[3], Command::SendNextFrame);
    let c = push_all(&mut input, &[0x4, 0x5, 0xf, 0x0]);
    assert!(c.contains(&Command::ResendLastFrame));
    let c = push_all(&mut input, &[0x6, 0x7, 0xf, 0x0]);
    assert!(c.contains(&Command::StopReceivingData));
}

#[test]
fn start_of_frame_inside_a_frame_asks_for_resend() {
    let mut input = InputStream::new();
    let c = push_all(&mut input, &[0x1, 0x2, 0xa, 0xb, 0xc, 0x1, 0x2, 0xf, 0x0]);
    let commands: Vec<&Command> = c.iter().filter(|c| **c != Command::Nothing).collect();
    assert_eq!(commands, vec![&Command::ResendLastFrame]);
}

#[test]
fn short_frame_asks_for_resend() {
    let mut input = InputStream::new();
    let c = push_all(&mut input, &[0x1, 0x2, 0xa, 0xb, 0x2, 0x3, 0xf, 0x0]);
    let commands: Vec<&Command> = c.iter().filter(|c| **c != Command::Nothing).collect();
    assert_eq!(commands, vec![&Command::ResendLastFrame]);
}

#[test]
fn repeated_reads_are_no_edge() {
    let mut input = InputStream::new();
    let a = push_all(&mut input, &[0x3, 0x3, 0x3, 0x4, 0x4, 0xf, 0xf, 0x0]);
    let commands: Vec<&Command> = a.iter().filter(|c| **c != Command::Nothing).collect();
    assert_eq!(commands, vec![&Command::SendNextFrame]);
}

#[test]
fn escape_encoder_doubles_control_bytes() {
    let mut e = Escaped::new(vec![0x01, 0x23, 0x56, 0x99]);
    let mut out = Vec::new();
    while let Some(b) = e.next() {
        out.push(b);
    }
    assert_eq!(out, vec![0x01, 0x23, 0x23, 0x56, 0x56, 0x99]);
    assert!(e.is_done());
}

#[test]
fn escape_encoder_is_not_done_before_the_end_is_read() {
    let mut e = Escaped::new(vec![0x42]);
    assert!(!e.is_done());
    assert_eq!(e.next(), Some(0x42));
    assert!(!e.is_done());
    assert_eq!(e.next(), None);
    assert!(e.is_done());
}

#[test]
fn frame_layout() {
    let mut e = Escaped::new(vec![0x10, 0x12, 0x20]);
    let frame = encode_frame(&mut e);
    assert_eq!(frame.len(), 66);
    assert_eq!(frame[0], 0x12);
    assert_eq!(&frame[1..5], &[0x10, 0x12, 0x12, 0x20]);
    assert!(frame[5..65].iter().all(|b| *b == 0));
    assert_eq!(frame[65], 0x23);
    assert!(e.is_done());
    let data = decode_frame(&frame);
    assert_eq!(data.len(), 64);
    assert_eq!(&data[..4], &[0x10, 0x12, 0x12, 0x20]);
}

#[test]
fn full_frame_leaves_the_rest() {
    let bytes: Vec<u8> = (0u8..100).map(|b| b | 0x80).collect();
    let mut e = Escaped::new(bytes.clone());
    let frame = encode_frame(&mut e);
    assert_eq!(&frame[1..65], &bytes[..64]);
    assert!(!e.is_done());
    let frame = encode_frame(&mut e);
    assert_eq!(&frame[1..37], &bytes[64..]);
    assert!(e.is_done());
}

#[test]
fn escape_code_bytes() {
    assert_eq!(EscapeCode::from_byte(0x12), Some(EscapeCode::StartOfFrame));
    assert_eq!(EscapeCode::from_byte(0x23), Some(EscapeCode::EndOfFrame));
    assert_eq!(EscapeCode::from_byte(0x34), Some(EscapeCode::CorrectFrameData));
    assert_eq!(EscapeCode::from_byte(0x45), Some(EscapeCode::IncorrectFrameData));
    assert_eq!(EscapeCode::from_byte(0x56), Some(EscapeCode::Buffer));
    assert_eq!(EscapeCode::from_byte(0x67), Some(EscapeCode::FinishedSending));
    assert_eq!(EscapeCode::from_byte(0x65), None);
    assert_eq!(EscapeCode::from_byte(0x00), None);
    assert_eq!(EscapeCode::Buffer.byte(), 0x56);
}

#[test]
fn doubled_control_byte_reads_as_one_data_byte() {
    let mut input = InputStream::new();
    let mut wire = vec![0xf, 0x0, 0x1, 0x2, 0xa, 0xb, 0x2, 0x3, 0x2, 0x3];
    for _ in 0..62 {
        wire.extend_from_slice(&[0xf, 0x0]);
    }
    wire.extend_from_slice(&[0x2, 0x3, 0xf, 0x0]);
    let commands = push_all(&mut input, &wire);
    let mut expected = [0xf0u8; 64];
    expected[0] = 0xab;
    expected[1] = 0x23;
    assert_eq!(received(&commands), vec![&Command::Received(expected)]);
    assert!(!commands.contains(&Command::ResendLastFrame));
}

#[test]
fn collect_rest_reads_back_to_the_source() {
    let source = vec![0x12, 0x00, 0x67, 0x67, 0x99, 0x56];
    let mut e = Escaped::new(source.clone());
    assert_eq!(e.next(), Some(0x12));
    let mut out = vec![0x12];
    out.extend(e.collect_rest());
    assert!(e.is_done());
    assert_eq!(out, vec![0x12, 0x12, 0x00, 0x67, 0x67, 0x67, 0x67, 0x99, 0x56, 0x56]);
    // reading back: a control byte twice in a row is one byte
    let mut back = Vec::new();
    let mut i = 0;
    while i < out.len() {
        back.push(out[i]);
        let doubled = EscapeCode::from_byte(out[i]).is_some()
            && i + 1 < out.len()
            && out[i + 1] == out[i];
        i += if doubled { 2 } else { 1 };
    }
    assert_eq!(back, source);
}
