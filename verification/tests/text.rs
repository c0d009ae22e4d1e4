use uring_cat::error::Error;
use uring_cat::text::{flatten, render};

fn buffers(content: &[u8]) -> Vec<[u8; 512]> {
    let mut bufs = Vec::new();
    for piece in content.chunks(512) {
        let mut buf = [0u8; 512];
        buf[..piece.len()].copy_from_slice(piece);
        bufs.push(buf);
    }
    bufs
}

#[test]
fn flatten_lays_buffers_end_to_end() {
    let mut first = [0u8; 512];
    first[0] = 1;
    first[511] = 2;
    let mut second = [0u8; 512];
    second[0] = 3;
    let bytes = flatten(&vec![first, second]);
    assert_eq!(bytes.len(), 1024);
    assert_eq!((bytes[0], bytes[511], bytes[512], bytes[1023]), (1, 2, 3, 0));
}

#[test]
fn flatten_of_no_buffers_is_empty() {
    assert!(flatten(&Vec::new()).is_empty());
}

#[test]
fn render_keeps_the_padding_and_adds_a_newline() {
    let text = render(&buffers(b"hi\n")).unwrap();
    assert_eq!(text, format!("hi\n{}\n", "\0".repeat(509)));
    assert_eq!(text.len(), 513);
}

#[test]
fn render_of_a_full_buffer_has_no_padding() {
    let content = "x".repeat(512);
    assert_eq!(render(&buffers(content.as_bytes())).unwrap(), format!("{}\n", content));
}

#[test]
fn render_of_no_buffers_is_a_newline() {
    assert_eq!(render(&Vec::new()).unwrap(), "\n");
}

#[test]
fn render_decodes_across_buffer_boundaries() {
    let content = format!("{}\u{e9}tail", "a".repeat(511));
    assert_eq!(content.len(), 517);
    let text = render(&buffers(content.as_bytes())).unwrap();
    assert_eq!(text, format!("{}{}\n", content, "\0".repeat(1024 - 517)));
}

#[test]
fn render_rejects_invalid_utf8() {
    assert_eq!(render(&buffers(&[0xff, 0xfe, 0x00])), Err(Error::Decoding));
}

#[test]
fn render_rejects_a_truncated_sequence_before_padding() {
    assert_eq!(render(&buffers(&[b'a', 0xc3])), Err(Error::Decoding));
}

#[test]
fn render_rejects_invalid_bytes_in_a_later_buffer() {
    let mut content = vec![b'a'; 600];
    content[599] = 0x80;
    assert_eq!(render(&buffers(&content)), Err(Error::Decoding));
}
