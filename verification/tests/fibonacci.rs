use lagarith::fibonacci::{decode_freq_table, encode_freq_table, BitReader};

#[test]
fn fib_decode_examples() {
    let cases: &[(&[u8], u32)] = &[
        (&[0xc0], 1), // "11"
        (&[0x60], 2), // "011"
        (&[0x30], 3), // "0011"
        (&[0xb0], 4), // "1011"
        (&[0x18], 5), // "00011"
        (&[0x98], 6), // "10011"
        (&[0x58], 7), // "01011"
        (&[0x0c], 8), // "000011"
    ];
    for (bytes, expected) in cases {
        let mut br = BitReader::new(bytes);
        assert_eq!(br.read_fib().unwrap(), *expected, "decode {bytes:?}");
    }
}

#[test]
fn fib_freq_table_roundtrip_simple() {
    let mut freq = [0u32; 256];
    freq[0] = 5;
    freq[10] = 3;
    freq[100] = 1;
    freq[200] = 7;
    freq[255] = 2;
    let bytes = encode_freq_table(&freq);
    let (got, _consumed) = decode_freq_table(&bytes).unwrap();
    assert_eq!(got[..], freq[..]);
}

#[test]
fn fib_freq_table_roundtrip_dense() {
    let mut freq = [0u32; 256];
    for (i, slot) in freq.iter_mut().enumerate() {
        *slot = ((i as u32) % 13) + 1;
    }
    let bytes = encode_freq_table(&freq);
    let (got, _consumed) = decode_freq_table(&bytes).unwrap();
    for (i, (a, b)) in got.iter().zip(freq.iter()).enumerate() {
        assert_eq!(a, b, "i={i}");
    }
}

#[test]
fn fib_freq_table_roundtrip_runs() {
    let mut freq = [0u32; 256];
    freq[0] = 1;
    freq[1] = 1;
    freq[2] = 0;
    freq[3] = 5;
    for slot in freq.iter_mut().take(70).skip(50) {
        *slot = 0;
    }
    for slot in freq.iter_mut().take(80).skip(70) {
        *slot = 3;
    }
    for slot in freq.iter_mut().skip(100) {
        *slot = 0;
    }
    let bytes = encode_freq_table(&freq);
    let (got, _) = decode_freq_table(&bytes).unwrap();
    for (i, (a, b)) in got.iter().zip(freq.iter()).enumerate() {
        assert_eq!(a, b, "i={i}");
    }
}
