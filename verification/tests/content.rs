use ask::content::{
    content_read_limit, decode_bounded_utf8_prefix, read_content_prefix_with_budget,
    ContentReadPlan, CONTENT_BYTE_BUDGET,
};
use ask::hashing::{hash_bytes, hex_digest, FileHasher};

/// What of `bytes` is indexed, as the standard library's decoder has it.
fn reference_prefix(bytes: &[u8], budget: usize, truncated: bool) -> Option<String> {
    if bytes.is_empty() || budget == 0 {
        return Some(String::new());
    }
    let floor = |text: &str| {
        let mut index = text.len().min(budget);
        while index > 0 && !text.is_char_boundary(index) {
            index -= 1;
        }
        text[..index].to_string()
    };
    match std::str::from_utf8(bytes) {
        Ok(text) => Some(floor(text)),
        Err(err) if err.error_len().is_none() && truncated => {
            Some(floor(std::str::from_utf8(&bytes[..err.valid_up_to()]).unwrap()))
        }
        Err(_) => None,
    }
}

#[test]
fn prefixes_are_those_of_the_standard_decoder() {
    let leads = [
        0x00, 0x41, 0x7f, 0x80, 0xbf, 0xc0, 0xc1, 0xc2, 0xdf, 0xe0, 0xe1, 0xec, 0xed, 0xee, 0xef,
        0xf0, 0xf1, 0xf3, 0xf4, 0xf5, 0xff,
    ];
    let others = [0x41, 0x7f, 0x80, 0x8f, 0x90, 0x9f, 0xa0, 0xbf, 0xc2];
    let mut inputs: Vec<Vec<u8>> = vec![Vec::new()];
    for a in leads {
        inputs.push(vec![a]);
        for b in others {
            inputs.push(vec![a, b]);
            for c in others {
                inputs.push(vec![a, b, c]);
                for d in [0x41, 0x80, 0xbf, 0xe0] {
                    inputs.push(vec![a, b, c, d]);
                }
            }
        }
    }
    for input in &inputs {
        for prefix in ["", "ab", "\u{20ac}"] {
            let mut bytes = prefix.as_bytes().to_vec();
            bytes.extend_from_slice(input);
            for budget in [0, 1, 2, 4, 100] {
                for truncated in [false, true] {
                    assert_eq!(
                        decode_bounded_utf8_prefix(&bytes, budget, truncated),
                        reference_prefix(&bytes, budget, truncated),
                        "{bytes:x?} {budget} {truncated}"
                    );
                }
            }
        }
    }
}

#[test]
fn binary_files_have_no_content() {
    let plan = read_content_prefix_with_budget(b"ab\0cd", 5, 100);
    assert_eq!(
        plan,
        ContentReadPlan {
            content: None,
            content_utf8: false,
            content_truncated: false,
            content_bytes_indexed: 0,
            content_byte_budget: 100,
        }
    );
    let mut bytes = vec![b'a'; 8192];
    bytes.push(0);
    let plan = read_content_prefix_with_budget(&bytes, 10_000, CONTENT_BYTE_BUDGET);
    assert!(plan.content_utf8);
    assert!(plan.content_truncated);
    assert_eq!(plan.content_bytes_indexed, 8193);
    assert!(!read_content_prefix_with_budget(&[0xff], 1, 10).content_utf8);
}

#[test]
fn content_is_cut_at_characters() {
    let text = "\u{20ac}\u{20ac}\u{20ac}";
    let plan = read_content_prefix_with_budget(&text.as_bytes()[..7], 9, 4);
    assert_eq!(plan.content, Some("\u{20ac}".to_string()));
    assert_eq!(plan.content_bytes_indexed, 3);
    assert!(plan.content_truncated);

    let plan = read_content_prefix_with_budget(b"", 0, 4);
    assert_eq!(plan.content, None);
    assert!(!plan.content_truncated);
    assert!(!plan.content_utf8);

    let only = ContentReadPlan::filename_only();
    assert_eq!(only.content, None);
    assert_eq!(only.content_byte_budget, 1024 * 1024);
}

#[test]
fn what_was_indexed_is_read_again() {
    let file = "a\u{e9}b\u{20ac}c\u{1f600}d".repeat(3).into_bytes();
    let read = |budget: usize| {
        let limit = content_read_limit(budget).min(file.len());
        read_content_prefix_with_budget(&file[..limit], file.len(), budget)
    };
    for budget in 1..file.len() + 2 {
        let Some(text) = read(budget).content else {
            continue;
        };
        for end in 1..=text.len() {
            if text.is_char_boundary(end) {
                assert_eq!(read(end).content.as_deref(), Some(&text[..end]));
            }
        }
    }
    assert_eq!(content_read_limit(10), 13);
    assert_eq!(content_read_limit(usize::MAX), usize::MAX);
}

#[test]
fn hashes_are_those_of_sha_256() {
    assert_eq!(
        hash_bytes(b""),
        "e3b0c44298fc1c149afbf4c8996fb92427ae41e4649b934ca495991b7852b855"
    );
    assert_eq!(
        hash_bytes(b"abc"),
        "ba7816bf8f01cfea414140de5dae2223b00361a396177a9cb410ff61f20015ad"
    );
    assert_eq!(hex_digest(&[0x00, 0x0f, 0xa0, 0xff]), "000fa0ff");
}

#[test]
fn pieces_hash_as_the_whole() {
    let whole: Vec<u8> = (0..200_000_u32).map(|i| (i % 251) as u8).collect();
    for size in [1_000, 65_536, 199_999] {
        let mut hasher = FileHasher::new();
        for piece in whole.chunks(size) {
            hasher.update(piece);
        }
        assert_eq!(hasher.finish(), hash_bytes(&whole));
    }
}
