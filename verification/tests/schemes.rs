use embedded_parity::catalog::{B16D15P1, B16D3P1, B16D7P1, B32D15P1, B32D3P1, B32D7P1};
use embedded_parity::scheme::{Direction, Scheme};

fn roles<const N: usize, const M: usize>(table: &[([usize; N], usize); M]) -> Vec<usize> {
    let mut all = Vec::new();
    for (sources, dest) in table.iter() {
        assert!(!sources.contains(dest));
        all.extend_from_slice(sources);
        all.push(*dest);
    }
    all.sort();
    all
}

#[test]
fn shipped_tables_use_every_bit_exactly_once() {
    let bits16: Vec<usize> = (0..16).collect();
    let bits32: Vec<usize> = (0..32).collect();
    assert_eq!(roles(&B16D3P1), bits16);
    assert_eq!(roles(&B16D7P1), bits16);
    assert_eq!(roles(&B16D15P1), bits16);
    assert_eq!(roles(&B32D3P1), bits32);
    assert_eq!(roles(&B32D7P1), bits32);
    assert_eq!(roles(&B32D15P1), bits32);
}

#[test]
fn shipped_tables_have_the_expected_shape() {
    assert_eq!((B32D3P1.len(), B32D3P1[0].0.len()), (8, 3));
    assert_eq!((B32D7P1.len(), B32D7P1[0].0.len()), (4, 7));
    assert_eq!((B32D15P1.len(), B32D15P1[0].0.len()), (2, 15));
    assert_eq!((B16D3P1.len(), B16D3P1[0].0.len()), (4, 3));
    assert_eq!((B16D7P1.len(), B16D7P1[0].0.len()), (2, 7));
    assert_eq!((B16D15P1.len(), B16D15P1[0].0.len()), (1, 15));
}

#[test]
fn encode_16_bit_groups_of_three_all_zero() {
    let mut w: u16 = 0b0000_0000_0000_0000;
    Scheme(B16D3P1).encode(&mut w);
    assert_eq!(w, 0b0000_0000_0000_0000);
}

#[test]
fn encode_16_bit_groups_of_three_top_group_set() {
    let mut w: u16 = 0b1110_0000_0000_0000;
    Scheme(B16D3P1).encode(&mut w);
    assert_eq!(w, 0b1110_0000_0000_1000);
}

#[test]
fn decode_32_bit_groups_of_fifteen_sets_stale_parity() {
    let mut w: u32 = 0b1111_1111_1111_1110_0000_0000_0000_0000;
    Scheme(B32D15P1).decode(&mut w);
    assert_eq!(w, 0b1111_1111_1111_1110_0000_0000_0000_0010);
    assert_eq!(w >> 17, 0x7FFF);
}

#[test]
fn encode_exact_values_for_each_table() {
    let mut a: u16 = 0b1011_0110_1101_0000;
    Scheme(B16D3P1).encode(&mut a);
    // D = 1^0^1, C = 1^0^1, B = 1^0^1, A = 1^0^1
    assert_eq!(a, 0b1011_0110_1101_0000);

    let mut b: u16 = 0b1000_0000_0000_0111;
    Scheme(B16D7P1).encode(&mut b);
    // B = parity of bits 15..9 = 1, A = parity of bits 8..2 = 1
    assert_eq!(b, 0b1000_0000_0000_0111);

    let mut c: u16 = 0b1000_0000_0000_0100;
    Scheme(B16D7P1).encode(&mut c);
    assert_eq!(c, 0b1000_0000_0000_0111);

    let mut d: u16 = 0b0110_0000_0000_0011;
    Scheme(B16D15P1).encode(&mut d);
    // parity of bits 15..1 = 1^1^1 = 1
    assert_eq!(d, 0b0110_0000_0000_0011);

    let mut e: u16 = 0b0110_0000_0000_0001;
    Scheme(B16D15P1).encode(&mut e);
    assert_eq!(e, 0b0110_0000_0000_0000);

    let mut f: u32 = 0x8000_0100;
    Scheme(B32D3P1).encode(&mut f);
    // H = 1 (bit 31), A = 1 (bit 8)
    assert_eq!(f, 0x8000_0181);

    let mut g: u32 = 0x0204_0810;
    Scheme(B32D7P1).encode(&mut g);
    // D: bit 25, C: bit 18, B: bit 11, A: bit 4
    assert_eq!(g, 0x0204_081F);

    let mut h: u32 = 0x0002_0007;
    Scheme(B32D15P1).encode(&mut h);
    // B: bit 17 alone, A: bit 2 alone
    assert_eq!(h, 0x0002_0007);
}

#[test]
fn apply_follows_the_direction() {
    for word in [0u16, 0x0010, 0xFFFF, 0xA5C3, 0x8001] {
        let mut by_encode = word;
        Scheme(B16D3P1).encode(&mut by_encode);
        let mut by_apply = word;
        Scheme(B16D3P1).apply(Direction::Encode, &mut by_apply);
        assert_eq!(by_apply, by_encode);

        let mut by_decode = word;
        Scheme(B16D3P1).decode(&mut by_decode);
        let mut by_apply = word;
        Scheme(B16D3P1).apply(Direction::Decode, &mut by_apply);
        assert_eq!(by_apply, by_decode);
    }
}

fn samples16() -> Vec<u16> {
    let mut v = vec![0u16, 1, 0xFFFF, 0x8000, 0xA5C3, 0x5A3C, 0x0F0F, 0xE008];
    let mut x: u16 = 0x1D87;
    for _ in 0..200 {
        x = x.wrapping_mul(25173).wrapping_add(13849);
        v.push(x);
    }
    v
}

fn samples32() -> Vec<u32> {
    let mut v = vec![0u32, 1, 0xFFFF_FFFF, 0x8000_0000, 0xDEAD_BEEF, 0xFFFE_0000];
    let mut x: u32 = 0x1234_5678;
    for _ in 0..200 {
        x = x.wrapping_mul(1664525).wrapping_add(1013904223);
        v.push(x);
    }
    v
}

fn check16<const N: usize, const M: usize>(table: [([usize; N], usize); M]) {
    let scheme = Scheme(table);
    for word in samples16() {
        let mut once = word;
        scheme.decode(&mut once);
        let mut twice = once;
        scheme.decode(&mut twice);
        assert_eq!(twice, once);

        let mut encoded = word;
        scheme.encode(&mut encoded);
        let mut decoded = encoded;
        scheme.decode(&mut decoded);
        assert_eq!(decoded, encoded);

        for (sources, dest) in table.iter() {
            let mut expected = false;
            for s in sources.iter() {
                assert_eq!((encoded >> s) & 1, (word >> s) & 1);
                expected ^= (word >> s) & 1 == 1;
            }
            assert_eq!((encoded >> dest) & 1 == 1, expected);
        }
    }
}

fn check32<const N: usize, const M: usize>(table: [([usize; N], usize); M]) {
    let scheme = Scheme(table);
    for word in samples32() {
        let mut once = word;
        scheme.decode(&mut once);
        let mut twice = once;
        scheme.decode(&mut twice);
        assert_eq!(twice, once);

        let mut encoded = word;
        scheme.encode(&mut encoded);
        let mut decoded = encoded;
        scheme.decode(&mut decoded);
        assert_eq!(decoded, encoded);

        for (sources, dest) in table.iter() {
            let mut expected = false;
            for s in sources.iter() {
                assert_eq!((encoded >> s) & 1, (word >> s) & 1);
                expected ^= (word >> s) & 1 == 1;
            }
            assert_eq!((encoded >> dest) & 1 == 1, expected);
        }
    }
}

#[test]
fn decode_twice_equals_decode_once_and_encode_survives_decode_u16() {
    check16(B16D3P1);
    check16(B16D7P1);
    check16(B16D15P1);
}

#[test]
fn decode_twice_equals_decode_once_and_encode_survives_decode_u32() {
    check32(B32D3P1);
    check32(B32D7P1);
    check32(B32D15P1);
}

#[test]
fn validator_accepts_the_shipped_tables_for_their_width_only() {
    assert!(Scheme(B16D3P1).is_partition_of(16));
    assert!(Scheme(B16D7P1).is_partition_of(16));
    assert!(Scheme(B16D15P1).is_partition_of(16));
    assert!(Scheme(B32D3P1).is_partition_of(32));
    assert!(Scheme(B32D7P1).is_partition_of(32));
    assert!(Scheme(B32D15P1).is_partition_of(32));

    assert!(!Scheme(B16D3P1).is_partition_of(32));
    assert!(!Scheme(B16D3P1).is_partition_of(15));
    assert!(!Scheme(B32D15P1).is_partition_of(16));
    assert!(!Scheme(B32D15P1).is_partition_of(33));
}

#[test]
fn validator_rejects_malformed_tables() {
    assert!(Scheme([([3usize, 2, 1], 0usize)]).is_partition_of(4));
    // the destination is one of the sources
    assert!(!Scheme([([3usize, 2, 1], 1usize)]).is_partition_of(4));
    // a source is listed twice
    assert!(!Scheme([([3usize, 3, 1], 0usize)]).is_partition_of(4));
    // two groups share a bit
    assert!(!Scheme([([5usize, 4], 1usize), ([3, 4], 0)]).is_partition_of(6));
    assert!(Scheme([([5usize, 4], 1usize), ([3, 2], 0)]).is_partition_of(6));
    // bit 0 plays no role
    assert!(!Scheme([([3usize, 2], 1usize)]).is_partition_of(4));
    // an index beyond the word
    assert!(!Scheme([([4usize, 2, 1], 0usize)]).is_partition_of(4));

    let empty: [([usize; 3], usize); 0] = [];
    assert!(Scheme(empty).is_partition_of(0));
    assert!(!Scheme(empty).is_partition_of(1));
}

#[test]
fn groups_are_applied_in_table_order_when_they_overlap() {
    // Valid groups that are no partition: the second reads what the first wrote.
    let chained = Scheme([([1usize], 0usize), ([0], 2)]);
    assert!(!chained.is_partition_of(3));
    let mut w: u16 = 0b010;
    chained.encode(&mut w);
    assert_eq!(w, 0b111);
    let mut v: u16 = 0b101;
    chained.decode(&mut v);
    assert_eq!(v, 0b000);
}
