use quantum_nonce::searcher::data_preparer::DataPreparer;
use quantum_nonce::sha256::sha256_data_preparer::SHA256DataPreparer;

const INITIAL: [u32; 8] = [
    0x6A09E667, 0xBB67AE85, 0x3C6EF372, 0xA54FF53A, 0x510E527F, 0x9B05688C, 0x1F83D9AB, 0x5BE0CD19,
];

const CONSTS: [u32; 64] = [
    0x428A2F98, 0x71374491, 0xB5C0FBCF, 0xE9B5DBA5, 0x3956C25B, 0x59F111F1, 0x923F82A4, 0xAB1C5ED5,
    0xD807AA98, 0x12835B01, 0x243185BE, 0x550C7DC3, 0x72BE5D74, 0x80DEB1FE, 0x9BDC06A7, 0xC19BF174,
    0xE49B69C1, 0xEFBE4786, 0x0FC19DC6, 0x240CA1CC, 0x2DE92C6F, 0x4A7484AA, 0x5CB0A9DC, 0x76F988DA,
    0x983E5152, 0xA831C66D, 0xB00327C8, 0xBF597FC7, 0xC6E00BF3, 0xD5A79147, 0x06CA6351, 0x14292967,
    0x27B70A85, 0x2E1B2138, 0x4D2C6DFC, 0x53380D13, 0x650A7354, 0x766A0ABB, 0x81C2C92E, 0x92722C85,
    0xA2BFE8A1, 0xA81A664B, 0xC24B8B70, 0xC76C51A3, 0xD192E819, 0xD6990624, 0xF40E3585, 0x106AA070,
    0x19A4C116, 0x1E376C08, 0x2748774C, 0x34B0BCB5, 0x391C0CB3, 0x4ED8AA4A, 0x5B9CCA4F, 0x682E6FF3,
    0x748F82EE, 0x78A5636F, 0x84C87814, 0x8CC70208, 0x90BEFFFA, 0xA4506CEB, 0xBEF9A3F7, 0xC67178F2,
];

/// The block function step by step as the preparer computes it: words read
/// in the byte order of the machine, the schedule mixes rotate by 3 and 10,
/// and the round reads schedule words 4, 6 and 7 where it names e, g and h.
fn reference_prepare(data: &[u8]) -> (Vec<u8>, Vec<u8>) {
    let mut vars = INITIAL;
    let blocks = data.len() / 64;
    for p in 0..blocks {
        let chunk = &data[64 * p..64 * p + 64];
        let mut words = [0u32; 64];
        for i in 0..16 {
            words[i] = u32::from_ne_bytes([chunk[4 * i], chunk[4 * i + 1], chunk[4 * i + 2], chunk[4 * i + 3]]);
        }
        for i in 16..64 {
            let s0 = words[i - 15].rotate_right(7) ^ words[i - 15].rotate_right(18) ^ words[i - 15].rotate_right(3);
            let s1 = words[i - 2].rotate_right(17) ^ words[i - 2].rotate_right(19) ^ words[i - 2].rotate_right(10);
            words[i] = words[i - 16].wrapping_add(s0).wrapping_add(words[i - 7]).wrapping_add(s1);
        }
        let mut buff = vars;
        for i in 0..64 {
            let sum0 = buff[0].rotate_right(2) ^ buff[0].rotate_right(13) ^ buff[0].rotate_right(22);
            let ma = (buff[0] & buff[1]) ^ (buff[0] & buff[2]) ^ (buff[1] & buff[2]);
            let t2 = sum0.wrapping_add(ma);
            let sum1 = words[4].rotate_right(6) ^ words[4].rotate_right(11) ^ words[4].rotate_right(25);
            let ch = (buff[4] & buff[5]) ^ ((words[4] ^ u32::MAX) & words[6]);
            let t1 = words[7].wrapping_add(sum1).wrapping_add(ch).wrapping_add(CONSTS[i]).wrapping_add(words[i]);
            buff[7] = buff[6];
            buff[6] = buff[5];
            buff[5] = buff[4];
            buff[4] = buff[3].wrapping_add(t1);
            buff[3] = buff[2];
            buff[2] = buff[1];
            buff[1] = buff[0];
            buff[0] = t1.wrapping_add(t2);
        }
        for k in 0..8 {
            vars[k] = vars[k].wrapping_add(buff[k]);
        }
    }
    let mut service = Vec::new();
    for v in vars.iter() {
        service.extend_from_slice(&v.to_be_bytes());
    }
    (data[64 * blocks..].to_vec(), service)
}

fn sample(len: usize, seed: u8) -> Vec<u8> {
    (0..len).map(|i| (i as u8).wrapping_mul(31).wrapping_add(seed)).collect()
}

#[test]
fn short_data_is_left_whole_with_the_initial_state() {
    let data = sample(10, 7);
    let res = SHA256DataPreparer {}.prepare(&data);
    assert_eq!(res.data_remains, data);
    let mut expected = Vec::new();
    for v in INITIAL.iter() {
        expected.extend_from_slice(&v.to_be_bytes());
    }
    assert_eq!(res.service_data, expected);
    assert_eq!(res.service_data[0..4].to_vec(), vec![0x6A, 0x09, 0xE6, 0x67]);
}

#[test]
fn empty_data_gives_the_initial_state() {
    let res = SHA256DataPreparer {}.prepare(&Vec::new());
    assert!(res.data_remains.is_empty());
    assert_eq!(res.service_data.len(), 32);
    assert_eq!(res.service_data[28..32].to_vec(), vec![0x5B, 0xE0, 0xCD, 0x19]);
}

#[test]
fn whole_blocks_are_folded_into_the_state() {
    for (len, seed) in [(63usize, 1u8), (64, 2), (65, 3), (100, 4), (128, 5), (200, 6), (256, 7)] {
        let data = sample(len, seed);
        let res = SHA256DataPreparer {}.prepare(&data);
        let (remains, service) = reference_prepare(&data);
        assert_eq!(res.data_remains, remains, "remains for length {}", len);
        assert_eq!(res.service_data, service, "service for length {}", len);
        assert_eq!(res.data_remains.len(), len % 64);
    }
}

#[test]
fn one_block_changes_the_state() {
    let data = sample(64, 9);
    let res = SHA256DataPreparer {}.prepare(&data);
    let short = SHA256DataPreparer {}.prepare(&sample(3, 9));
    assert!(res.data_remains.is_empty());
    assert_ne!(res.service_data, short.service_data);
}

#[test]
fn bytes_after_the_last_block_do_not_change_the_state() {
    let data = sample(70, 11);
    let more = sample(100, 12);
    let res = SHA256DataPreparer {}.prepare(&data);
    let res_longer = SHA256DataPreparer {}.prepare(&more);
    // Both hold one whole block; the first 64 bytes differ, so compare with
    // the same block followed by another tail.
    let mut same_block = data[..64].to_vec();
    same_block.extend_from_slice(&[0xEE; 40]);
    let res_same = SHA256DataPreparer {}.prepare(&same_block);
    assert_eq!(res.service_data, res_same.service_data);
    assert_eq!(res_same.data_remains, vec![0xEE; 40]);
    assert_eq!(res.data_remains, data[64..].to_vec());
    assert_ne!(res.service_data, res_longer.service_data);
}
