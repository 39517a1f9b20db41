use rsa_keygen::socket::{network_interface_to_string, NetworkInterface, RawSocket};

#[test]
fn interface_has_its_system_name() {
    assert_eq!(network_interface_to_string(NetworkInterface::ETH0), "eth0");
}

#[test]
fn raw_socket_keeps_its_interface() {
    let socket = RawSocket { interface: NetworkInterface::ETH0 };
    assert_eq!(socket.interface, NetworkInterface::ETH0);
    assert_eq!(network_interface_to_string(socket.interface), "eth0");
}
