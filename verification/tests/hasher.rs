use kvstore::hasher::Hasher;
use kvstore::render::render_value;

fn hex(digest: &[u8; 16]) -> String {
    digest.iter().map(|b| format!("{:02x}", b)).collect()
}

#[test]
fn test_hasher_reads_blocks_of_one_gibibyte() {
    let hasher = Hasher::new();
    assert_eq!(hasher.block_size, 1 << 30);
    assert!(hasher.is_last_block((1 << 30) - 1));
    assert!(!hasher.is_last_block(1 << 30));
}

#[test]
fn test_digest_of_known_inputs() {
    let hasher = Hasher::new();
    assert_eq!(hex(&hasher.hash_blocks(&[])), "d41d8cd98f00b204e9800998ecf8427e");
    assert_eq!(hex(&hasher.hash_blocks(&[vec![]])), "d41d8cd98f00b204e9800998ecf8427e");
    assert_eq!(
        hex(&hasher.hash_blocks(&[b"abc".to_vec()])),
        "900150983cd24fb0d6963f7d28e17f72"
    );
}

#[test]
fn test_input_ends_at_the_first_short_block() {
    let hasher = Hasher { block_size: 2 };
    let whole = hasher.hash_blocks(&[b"ab".to_vec(), b"c".to_vec()]);
    assert_eq!(hex(&whole), "900150983cd24fb0d6963f7d28e17f72");
    let cut = hasher.hash_blocks(&[b"ab".to_vec(), b"c".to_vec(), b"ignored".to_vec()]);
    assert_eq!(cut, whole);
    let full_blocks = hasher.hash_blocks(&[b"ab".to_vec(), b"cd".to_vec()]);
    let one_block = Hasher { block_size: 8 }.hash_blocks(&[b"abcd".to_vec()]);
    assert_eq!(full_blocks, one_block);
}

#[test]
fn test_render_value_bands() {
    let cases: [(usize, char); 18] = [
        (0, ' '),
        (2, ' '),
        (3, '.'),
        (5, '.'),
        (6, '\u{2022}'),
        (10, '\u{2022}'),
        (11, '*'),
        (30, '*'),
        (31, '+'),
        (100, '+'),
        (101, 'x'),
        (200, 'x'),
        (201, '$'),
        (400, '$'),
        (401, '#'),
        (700, '#'),
        (701, ' '),
        (usize::MAX, ' '),
    ];
    for (val, glyph) in cases {
        assert_eq!(render_value(&val), glyph);
    }
}
