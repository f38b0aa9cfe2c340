use qtum_address_rust::{QtumNetwork, UnknownNetworkPrefix};

#[test]
fn prefix_bytes_of_the_networks() {
    assert_eq!(QtumNetwork::Mainnet.to_prefix_byte(), 0x3a);
    assert_eq!(QtumNetwork::Testnet.to_prefix_byte(), 0x78);
}

#[test]
fn known_prefix_bytes_name_their_network() {
    assert_eq!(QtumNetwork::try_from_byte(0x3a), Ok(QtumNetwork::Mainnet));
    assert_eq!(QtumNetwork::try_from_byte(0x78), Ok(QtumNetwork::Testnet));
}

#[test]
fn other_bytes_name_no_network() {
    assert_eq!(QtumNetwork::try_from_byte(0x00), Err(UnknownNetworkPrefix(0x00)));
    assert_eq!(QtumNetwork::try_from_byte(0x39), Err(UnknownNetworkPrefix(0x39)));
    assert_eq!(QtumNetwork::try_from_byte(0x3b), Err(UnknownNetworkPrefix(0x3b)));
    assert_eq!(QtumNetwork::try_from_byte(0x79), Err(UnknownNetworkPrefix(0x79)));
    assert_eq!(QtumNetwork::try_from_byte(0xff), Err(UnknownNetworkPrefix(0xff)));
}

#[test]
fn every_byte_goes_there_and_back() {
    let mut known = 0;
    for byte in 0..=255u8 {
        match QtumNetwork::try_from_byte(byte) {
            Ok(network) => {
                assert_eq!(network.to_prefix_byte(), byte);
                known += 1;
            }
            Err(UnknownNetworkPrefix(found)) => assert_eq!(found, byte),
        }
    }
    assert_eq!(known, 2);
}
