use qvm::address_decoder::{is_valid_addresses, AddressDecoder, AddressedBit};

fn collect(mut ad: AddressDecoder) -> Vec<usize> {
    let mut generated: Vec<usize> = Vec::new();
    while let Some(addr) = ad.next() {
        generated.push(addr);
    }
    generated
}

#[test]
fn address_decoder_tester() {
    let mut addresses: Vec<AddressedBit> = Vec::new();
    addresses.push(AddressedBit { address: 1, bit: 0 });
    addresses.push(AddressedBit { address: 2, bit: 1 });

    let ad = AddressDecoder::new(4, addresses);
    let generated = collect(ad);

    assert_eq!(generated, vec![4, 5, 12, 13]);
}

#[test]
fn decoder_constraint_order_does_not_matter() {
    let addresses = vec![AddressedBit { address: 2, bit: 1 }, AddressedBit { address: 1, bit: 0 }];
    assert_eq!(collect(AddressDecoder::new(4, addresses)), vec![4, 5, 12, 13]);
}

#[test]
fn decoder_without_constraints_counts_up() {
    assert_eq!(collect(AddressDecoder::new(3, Vec::new())), vec![0, 1, 2, 3, 4, 5, 6, 7]);
}

#[test]
fn decoder_with_every_position_pinned_yields_one_index() {
    let addresses = vec![
        AddressedBit { address: 0, bit: 1 },
        AddressedBit { address: 1, bit: 0 },
        AddressedBit { address: 2, bit: 1 },
    ];
    assert_eq!(collect(AddressDecoder::new(3, addresses)), vec![5]);
}

#[test]
fn decoder_is_exhausted_after_the_last_index() {
    let mut ad = AddressDecoder::new(2, vec![AddressedBit { address: 0, bit: 1 }]);
    assert_eq!(ad.next(), Some(1));
    assert_eq!(ad.next(), Some(3));
    assert_eq!(ad.next(), None);
    assert_eq!(ad.next(), None);
}

#[test]
fn decoder_output_is_ascending_distinct_and_constrained() {
    let n: usize = 6;
    let pins = vec![AddressedBit { address: 4, bit: 1 }, AddressedBit { address: 0, bit: 0 }];
    let out = collect(AddressDecoder::new(n, pins));
    assert_eq!(out.len(), 1 << (n - 2));
    for w in out.windows(2) {
        assert!(w[0] < w[1]);
    }
    for x in &out {
        assert!(*x < (1 << n));
        assert_eq!((x >> 4) & 1, 1);
        assert_eq!(x & 1, 0);
    }
}

#[test]
fn decoder_single_constraint_partitions_the_register() {
    let n: usize = 5;
    let a: usize = 2;
    let zeros = collect(AddressDecoder::new(n, vec![AddressedBit { address: a, bit: 0 }]));
    let ones = collect(AddressDecoder::new(n, vec![AddressedBit { address: a, bit: 1 }]));
    assert_eq!(zeros.len(), 16);
    assert_eq!(ones.len(), 16);
    for x in &zeros {
        assert!(!ones.contains(x));
    }
    let mut all: Vec<usize> = zeros.iter().chain(ones.iter()).cloned().collect();
    all.sort();
    assert_eq!(all, (0..32).collect::<Vec<usize>>());
}

#[test]
fn valid_addresses_accepts_distinct_in_range() {
    assert!(is_valid_addresses(4, &vec![0, 3, 1]));
    assert!(is_valid_addresses(1, &vec![]));
}

#[test]
fn valid_addresses_rejects_bad_sets() {
    assert!(!is_valid_addresses(0, &vec![]));
    assert!(!is_valid_addresses(3, &vec![0, 3]));
    assert!(!is_valid_addresses(3, &vec![1, 1]));
    assert!(!is_valid_addresses(2, &vec![0, 1, 0]));
}
