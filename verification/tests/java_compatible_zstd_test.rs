use std::io::Read;
use std::sync::{Arc, Mutex};

use mosaic_core::compression::decompress_zstd;
use mosaic_core::error::{Error, ErrorKind, Operation};
use mosaic_core::java_compatible_zstd::{after_step, no_progress, JavaCompatibleZstdEncoder};
use mosaic_core::output::OutputFile;

fn out_size() -> usize {
    zstd_safe::CCtx::out_size()
}

fn deterministic_input(length: usize) -> Vec<u8> {
    let mut state = 0x6a09_e667_f3bc_c909_u64;
    (0..length)
        .map(|_| {
            state ^= state << 13;
            state ^= state >> 7;
            state ^= state << 17;
            state as u8
        })
        .collect()
}

fn compress(input: &[u8], chunk_size: usize) -> Result<Vec<u8>, Error> {
    let mut encoder = JavaCompatibleZstdEncoder::new(Vec::new(), 3)?;
    for chunk in input.chunks(chunk_size) {
        assert_eq!(encoder.write(chunk)?, chunk.len());
    }
    encoder.finish()
}

fn decode_hex(value: &str) -> Vec<u8> {
    assert_eq!(value.len() % 2, 0);
    value
        .as_bytes()
        .chunks_exact(2)
        .map(|pair| {
            let text = std::str::from_utf8(pair).unwrap();
            u8::from_str_radix(text, 16).unwrap()
        })
        .collect()
}

#[test]
fn matches_zstd_jni_1_5_5_11_reference_bytes() {
    let input: Vec<u8> = (0..128).map(|index| ((index * 31 + (index >> 3)) & 0xff) as u8).collect();

    // Generated with com.github.luben:zstd-jni:1.5.5-11, level 3.
    let expected = decode_hex(
        "28b52ffd0058010400001f3e5d7c9bbad9f91837567594b3d2f211304f6e8da\
         ccbeb0a29486786a5c4e4032241607f9ebdddfc1b3a597897b6d6f5143352719\
         0afcfee0d2c4b6a89a8c8e70625446382a1c1e0ff1e3d5c7b9abad9f81736557\
         493b3d2f1102f4e6d8caccbea0928476685a5c4e30221405f7e9ebddcfb1a395\
         87797b6d5f413325170",
    );

    assert_eq!(compress(&input, input.len()).unwrap(), expected);
}

#[test]
fn input_chunking_does_not_change_frame_bytes() {
    let input = deterministic_input(out_size() * 4 + 17);
    let expected = compress(&input, input.len()).unwrap();
    assert!(expected.len() > out_size());

    for chunk_size in [1, 31, 4096, 262_144] {
        assert_eq!(compress(&input, chunk_size).unwrap(), expected, "chunk size {} changed the frame", chunk_size);
    }
}

/// Words out of few, numbers, and bytes that cannot be compressed.
fn mixed_input(length: usize) -> Vec<u8> {
    let noise = deterministic_input(length);
    let mut input = Vec::new();
    for (index, byte) in noise.iter().enumerate() {
        if input.len() >= length {
            break;
        }
        match (byte % 7, index % 90_000 < 15_000) {
            (_, true) => input.push(*byte),
            (0 | 1, _) => input.extend_from_slice(b"mosaic column "),
            (2 | 3, _) => input.extend_from_slice(format!("row {} ", index / 64).as_bytes()),
            _ => input.push(b'a' + byte % 5),
        }
    }
    input.truncate(length);
    input
}

#[test]
fn frames_depend_on_bytes_and_level_alone() {
    let input = mixed_input(700_000);
    let frame = |level: i32, chunk_size: usize| {
        let mut encoder = JavaCompatibleZstdEncoder::new(Vec::new(), level).unwrap();
        for chunk in input.chunks(chunk_size) {
            assert_eq!(encoder.write(chunk), Ok(chunk.len()));
            assert_eq!(encoder.write(&[]), Ok(0));
        }
        encoder.finish().unwrap()
    };
    let mut frames = Vec::new();
    for level in [-5, 1, 3, 5, 7, 9, 12, 16, 19] {
        let expected = frame(level, input.len());
        assert!(expected.len() < input.len());
        for chunk_size in [1_009, 65_537, 131_072, 300_001] {
            assert!(frame(level, chunk_size) == expected, "chunk size {} changed the frame at level {}", chunk_size, level);
        }
        assert_eq!(decompress_zstd(&expected, input.len()), Ok(input.clone()));
        frames.push(expected);
    }
    frames.dedup();
    assert!(frames.len() > 1);
}

#[test]
fn a_flush_ends_a_block() {
    let input = mixed_input(100_000);
    let mut encoder = JavaCompatibleZstdEncoder::new(Vec::new(), 3).unwrap();
    encoder.write(&input[..50_000]).unwrap();
    encoder.flush().unwrap();
    encoder.write(&input[50_000..]).unwrap();
    let flushed = encoder.finish().unwrap();
    assert_eq!(decompress_zstd(&flushed, input.len()), Ok(input.clone()));
    assert!(flushed != compress(&input, input.len()).unwrap());
}

#[derive(Debug)]
struct FailingOutput;

impl OutputFile for FailingOutput {
    fn write(&mut self, _data: &[u8]) -> Result<(), Error> {
        Err(Error::Io { kind: ErrorKind::BrokenPipe, message: "intentional output failure".to_string() })
    }

    fn flush(&mut self) -> Result<(), Error> {
        Ok(())
    }

    fn pos(&self) -> u64 {
        0
    }
}

#[test]
fn finish_propagates_output_failure() {
    let mut encoder = JavaCompatibleZstdEncoder::new(FailingOutput, 3).unwrap();
    encoder.write(b"payload").unwrap();
    let error = encoder.finish().unwrap_err();
    assert_eq!(error.kind(), ErrorKind::BrokenPipe);
    assert_eq!(error.message(), "intentional output failure");
}

#[test]
fn frames_decompress_to_what_was_written() {
    let input = deterministic_input(300_000);
    let mut encoder = JavaCompatibleZstdEncoder::new(b"front".to_vec(), 3).unwrap();
    for chunk in input.chunks(70_001) {
        encoder.write(chunk).unwrap();
        encoder.flush().unwrap();
    }
    let output = encoder.finish().unwrap();
    assert_eq!(&output[..5], b"front");
    assert_eq!(decompress_zstd(&output[5..], input.len()).unwrap(), input);
}

#[test]
fn empty_frames_are_ended() {
    let output = compress(b"", 1).unwrap();
    assert!(!output.is_empty());
    assert_eq!(decompress_zstd(&output, 0).unwrap(), b"");
}

#[test]
fn the_buffer_has_the_recommended_size() {
    assert_eq!(out_size(), 131_591);
}

#[test]
fn steps_without_progress_are_refused() {
    assert_eq!(after_step(true, false, Operation::Finish), Ok(true));
    assert_eq!(after_step(false, true, Operation::Finish), Ok(false));
    assert_eq!(after_step(false, false, Operation::Flush), Err(Error::NoProgress { operation: Operation::Flush }));
    let error = no_progress(Operation::Compression);
    assert_eq!(error.kind(), ErrorKind::WriteZero);
    assert_eq!(error.message(), "zstd compression made no progress");
    assert_eq!(no_progress(Operation::Flush).message(), "zstd flush made no progress");
    assert_eq!(no_progress(Operation::Finish).message(), "zstd finish made no progress");
}

struct SharedOutput {
    bytes: Arc<Mutex<Vec<u8>>>,
    flushes: Arc<Mutex<usize>>,
}

impl OutputFile for SharedOutput {
    fn write(&mut self, data: &[u8]) -> Result<(), Error> {
        self.bytes.lock().unwrap().extend_from_slice(data);
        Ok(())
    }

    fn flush(&mut self) -> Result<(), Error> {
        *self.flushes.lock().unwrap() += 1;
        Ok(())
    }

    fn pos(&self) -> u64 {
        self.bytes.lock().unwrap().len() as u64
    }
}

#[test]
fn all_that_was_written_is_sent_by_a_flush() {
    let (bytes, flushes) = (Arc::new(Mutex::new(Vec::new())), Arc::new(Mutex::new(0)));
    let output = SharedOutput { bytes: bytes.clone(), flushes: flushes.clone() };
    let mut encoder = JavaCompatibleZstdEncoder::new(output, 3).unwrap();
    let input = deterministic_input(300_000);
    encoder.write(&input).unwrap();
    let before = bytes.lock().unwrap().clone();
    encoder.flush().unwrap();
    assert_eq!(*flushes.lock().unwrap(), 1);
    let sent = bytes.lock().unwrap().clone();
    assert!(before.len() < sent.len());
    assert!(sent.starts_with(&before));
    let mut decoded = vec![0; input.len()];
    let mut decoder = zstd::stream::read::Decoder::new(&sent[..]).unwrap();
    decoder.read_exact(&mut decoded).unwrap();
    assert!(decoded == input);
    encoder.finish().unwrap();
    assert!(zstd::bulk::decompress(&bytes.lock().unwrap(), input.len()).unwrap() == input);
}

#[test]
fn encoders_start_at_every_level_and_take_nothing() {
    for level in [-7, 1, 3, 22] {
        let mut encoder = JavaCompatibleZstdEncoder::new(Vec::new(), level).unwrap();
        assert_eq!(encoder.write(&[]), Ok(0));
        assert_eq!(encoder.write(b"text"), Ok(4));
        let frame = encoder.finish().unwrap();
        assert_eq!(decompress_zstd(&frame, 4), Ok(b"text".to_vec()));
    }
}
