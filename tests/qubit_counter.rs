use qvm::address_decoder::AddressDecoder;
use qvm::qubit_counter::{AddressedBit, QubitCounter};

#[test]
fn qubit_counter_tester() {
    let mut addresses: Vec<AddressedBit> = Vec::new();
    addresses.push(AddressedBit { address: 1, bit: 0 });
    addresses.push(AddressedBit { address: 2, bit: 1 });

    let mut generated: Vec<usize> = Vec::new();
    let mut qc = QubitCounter::new(4, addresses);
    while let Some(addr) = qc.next() {
        generated.push(addr);
    }

    assert_eq!(generated, vec![4, 5, 12, 13]);
}

#[test]
fn qubit_counter_agrees_with_address_decoder() {
    let pins = || vec![AddressedBit { address: 3, bit: 1 }, AddressedBit { address: 1, bit: 1 }];
    let mut qc = QubitCounter::new(5, pins());
    let mut ad = AddressDecoder::new(5, pins());
    loop {
        let a = qc.next();
        let b = ad.next();
        assert_eq!(a, b);
        if a.is_none() {
            break;
        }
    }
}
