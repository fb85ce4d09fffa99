//! What the kernel says about an interface.

use ek_ek::vrrp::interface::{index_of, mac_of, Interface, Unreadable};

#[test]
fn an_index_is_read_and_a_useless_one_is_refused() {
    assert_eq!(index_of("2\n"), Some(2));
    assert_eq!(index_of("  17  "), Some(17));
    // Zero means every interface to netlink, so it is not an index.
    assert_eq!(index_of("0\n"), None);
    assert_eq!(index_of(""), None);
    assert_eq!(index_of("eth0"), None);
    assert_eq!(index_of("-1"), None);
}

#[test]
fn a_hardware_address_is_read_and_a_useless_one_is_refused() {
    assert_eq!(
        mac_of("02:42:ac:1c:00:0b\n"),
        Some([0x02, 0x42, 0xAC, 0x1C, 0x00, 0x0B])
    );
    // An interface with no hardware address of its own writes this.
    assert_eq!(mac_of("00:00:00:00:00:00"), None);
    // Too few and too many parts, which is the boundary either side.
    assert_eq!(mac_of("02:42:ac:1c:00"), None);
    assert_eq!(mac_of("02:42:ac:1c:00:0b:0c"), None);
    assert_eq!(mac_of("02:42:ac:1c:00:zz"), None);
    assert_eq!(mac_of(""), None);
}

#[test]
fn an_interface_is_read_out_of_its_two_files() {
    assert_eq!(
        Interface::read("eth0", "2\n", "02:42:ac:1c:00:0b\n"),
        Ok(Interface {
            name: "eth0".to_owned(),
            index: 2,
            mac: [0x02, 0x42, 0xAC, 0x1C, 0x00, 0x0B],
        })
    );
    // The index is what is looked at first.
    assert_eq!(
        Interface::read("eth0", "0", "00:00:00:00:00:00"),
        Err(Unreadable::Index)
    );
    assert_eq!(
        Interface::read("eth0", "2", "00:00:00:00:00:00"),
        Err(Unreadable::Address)
    );
    assert_eq!(
        ek_ek::vrrp::interface::file("eth0", Unreadable::Index),
        "/sys/class/net/eth0/ifindex"
    );
    assert_eq!(
        ek_ek::vrrp::interface::file("eth0", Unreadable::Address),
        "/sys/class/net/eth0/address"
    );
}

#[test]
fn a_name_that_begins_at_the_root_is_a_path_of_its_own() {
    for name in ["eth0", "/tmp/eth0", "eth0/", "", "/", "../x"] {
        let whole = std::path::PathBuf::from("/sys/class/net")
            .join(name)
            .join("ifindex");
        assert_eq!(
            Some(ek_ek::vrrp::interface::file(name, Unreadable::Index).as_str()),
            whole.to_str(),
            "{name:?}"
        );
    }
    assert_eq!(
        ek_ek::vrrp::interface::file("/tmp/eth0", Unreadable::Address),
        "/tmp/eth0/address"
    );
}

#[test]
fn a_file_nobody_can_understand_is_named_with_what_it_holds() {
    assert_eq!(
        ek_ek::vrrp::interface::unreadable("eth0", Unreadable::Index, "two\n"),
        "/sys/class/net/eth0/ifindex holds \"two\\n\", which is not readable"
    );
}
