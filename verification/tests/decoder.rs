//! Tests of the frame decoder: extraction, chunk-boundary independence,
//! residual retention and buffer growth.

use chat_relay::Frame;

fn frames_from_chunks(chunks: &[&[u8]]) -> Vec<Vec<u8>> {
    let mut f = Frame::new();
    let mut out: Vec<Vec<u8>> = Vec::new();
    for c in chunks {
        f.feed(c);
        while let Some(p) = f.frame() {
            out.push(p);
        }
    }
    out
}

#[test]
fn frame_single_message() {
    let mut f = Frame::new();
    f.feed(b"hello\n");
    assert_eq!(f.frame(), Some(b"hello\n".to_vec()));
    assert_eq!(f.frame(), None);
}

#[test]
fn frame_split_across_reads() {
    let mut f = Frame::new();
    f.feed(b"by");
    assert_eq!(f.frame(), None);
    f.feed(b"t");
    assert_eq!(f.frame(), None);
    f.feed(b"es\n");
    assert_eq!(f.frame(), Some(b"bytes\n".to_vec()));
    assert_eq!(f.frame(), None);
}

#[test]
fn frame_multiple_in_one_read() {
    let mut f = Frame::new();
    f.feed(b"bytes\nbytes\nbyt");
    assert_eq!(f.frame(), Some(b"bytes\n".to_vec()));
    assert_eq!(f.frame(), Some(b"bytes\n".to_vec()));
    assert_eq!(f.frame(), None);
    f.feed(b"es\n");
    assert_eq!(f.frame(), Some(b"bytes\n".to_vec()));
}

#[test]
fn frame_mid_message_twice() {
    let mut f = Frame::new();
    f.feed(b"a\nlong mes");
    assert_eq!(f.frame(), Some(b"a\n".to_vec()));
    assert_eq!(f.frame(), None);
    f.feed(b"sage still unfini");
    assert_eq!(f.frame(), None);
    f.feed(b"shed\nnext");
    assert_eq!(f.frame(), Some(b"long message still unfinished\n".to_vec()));
    assert_eq!(f.frame(), None);
}

#[test]
fn frame_chunking_equivalence() {
    let stream: &[u8] = b"one\ntwo two\nthree three three\nresidue";
    let whole = frames_from_chunks(&[stream]);
    // every split position of the stream into two chunks
    for cut in 0..=stream.len() {
        let parts = frames_from_chunks(&[&stream[..cut], &stream[cut..]]);
        assert_eq!(parts, whole);
    }
    // byte-by-byte
    let single: Vec<&[u8]> = stream.chunks(1).collect();
    assert_eq!(frames_from_chunks(&single), whole);
    // irregular chunks
    let irregular: Vec<&[u8]> = stream.chunks(7).collect();
    assert_eq!(frames_from_chunks(&irregular), whole);
    assert_eq!(
        whole,
        vec![
            b"one\n".to_vec(),
            b"two two\n".to_vec(),
            b"three three three\n".to_vec(),
        ]
    );
}

#[test]
fn frame_long_message_grows_buffer() {
    let mut f = Frame::new();
    let big = vec![b'x'; 3000];
    f.feed(&big);
    assert_eq!(f.frame(), None);
    f.feed(b"\n");
    let got = f.frame().expect("a frame after the newline arrives");
    assert_eq!(got.len(), 3001);
    assert!(got[..3000].iter().all(|&b| b == b'x'));
    assert_eq!(got[3000], b'\n');
}

#[test]
fn frame_update_counts_spare_bytes_valid() {
    // after `new` the spare region is zeroed; marking two bytes valid
    // buffers two zero bytes, which hold no newline
    let mut f = Frame::new();
    f.update(2);
    assert_eq!(f.frame(), None);
    f.feed(b"\n");
    assert_eq!(f.frame(), Some(vec![0u8, 0u8, b'\n']));
}
