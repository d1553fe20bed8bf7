use netchat::buffers::chat::ChatBuffer;
use netchat::buffers::{
    Buffer, GattCharacteristic, PERMISSION_WRITE, PROPERTY_WRITE_WITHOUT_RESPONSE,
};
use netchat::transport::ble::{
    BleError, BleTransport, BleTransportConfig, CentralEvent, GattService, PeripheralRequest, Step,
};
use netchat::transport::wifi_direct::{
    dotted_text, find_mac, mac_of_path, peer_name, Argument, InterfaceStep, Source,
    WifiDirectConfig, WifiDirectError, WifiDirectTransport,
};
use netchat::SERVICE_UUID;

fn text(text: &str) -> String {
    text.to_string()
}

fn characteristic(uuid: u128) -> GattCharacteristic {
    GattCharacteristic { uuid, properties: 0, permissions: 0, value: vec![], descriptors: vec![] }
}

fn ble_config(uuids: &[u128]) -> BleTransportConfig {
    BleTransportConfig {
        name: text("node"),
        service_uuid: 7,
        characteristics: uuids.iter().map(|uuid| characteristic(*uuid)).collect(),
    }
}

fn ble() -> BleTransport {
    BleTransport::new(&ble_config(&[21, 22])).unwrap()
}

#[test]
fn service_identifier_is_well_formed() {
    let id = uuid::Uuid::parse_str(SERVICE_UUID).unwrap();
    assert_eq!(id.as_u128(), 0x95ebaece_3ea2_4b13_b2ac_c48d6799a9a6);
}

#[test]
fn chat_buffer_is_offered_for_writing() {
    let id = uuid::Uuid::parse_str("16fe48d4-6b5c-44c1-a331-d6c0ea61d714").unwrap();
    assert_eq!(ChatBuffer::UUID, id.as_u128());
    let offered = ChatBuffer::characteristics();
    assert_eq!(offered.uuid, id.as_u128());
    assert_eq!(offered.properties, PROPERTY_WRITE_WITHOUT_RESPONSE);
    assert_eq!(offered.permissions, PERMISSION_WRITE);
    assert!(offered.value.is_empty());
    assert!(offered.descriptors.is_empty());
}

#[test]
fn first_characteristic_is_the_channel() {
    let link = ble();
    assert_eq!(link.channel_uuid, 21);
    assert_eq!(link.service_uuid, 7);
    assert_eq!(link.name, "node");
}

#[test]
fn link_without_characteristics_is_refused() {
    let error = BleTransport::new(&ble_config(&[])).unwrap_err();
    assert_eq!(error, BleError::NoCharacteristic);
    assert_eq!(error.text(), "transport requires at least one characteristic");
}

#[test]
fn broadcast_over_bluetooth_is_refused() {
    let error = ble().broadcast().unwrap_err();
    assert_eq!(error, BleError::NoBroadcastChannel);
    assert_eq!(error.text(), "ble transport has no broadcast channel");
}

#[test]
fn service_offers_all_characteristics() {
    let service = GattService::primary(ble_config(&[21, 22]));
    assert_eq!(service.uuid, 7);
    assert!(service.primary);
    assert_eq!(service.characteristics.len(), 2);
    assert_eq!(service.characteristics[1].uuid, 22);
}

#[test]
fn advertises_and_scans_for_its_service() {
    let advert = ble().advertise();
    assert_eq!(advert.local_name, "node");
    assert_eq!(advert.service_uuids, vec![7]);
    assert_eq!(ble().scan(), vec![7]);
}

fn write(char_uuid: u128, expects_reply: bool) -> Option<PeripheralRequest> {
    Some(PeripheralRequest::Write {
        client_id: text("dev"),
        char_uuid,
        value: vec![1, 2],
        expects_reply,
    })
}

#[test]
fn writes_to_the_channel_are_delivered() {
    match ble().on_request(write(21, true)) {
        Step::Deliver { peer, data, reply } => {
            assert_eq!(peer, "dev");
            assert_eq!(data, vec![1, 2]);
            assert!(reply);
        }
        other => panic!("unexpected {:?}", other),
    }
    assert!(matches!(ble().on_request(write(21, false)), Step::Deliver { reply: false, .. }));
}

#[test]
fn requests_off_the_channel_are_ignored() {
    assert!(matches!(ble().on_request(write(22, true)), Step::Ignore));
    assert!(matches!(ble().on_request(Some(PeripheralRequest::Other)), Step::Ignore));
    assert!(matches!(ble().on_request(None), Step::Stop));
}

#[test]
fn notifications_and_discoveries_are_passed_on() {
    let value = |char_uuid| {
        Some(CentralEvent::CharacteristicNotification {
            device_id: text("dev"),
            char_uuid,
            value: vec![3],
        })
    };
    match ble().on_event(value(21)) {
        Step::Deliver { peer, data, reply } => {
            assert_eq!(peer, "dev");
            assert_eq!(data, vec![3]);
            assert!(!reply);
        }
        other => panic!("unexpected {:?}", other),
    }
    assert!(matches!(ble().on_event(value(22)), Step::Ignore));
    let found = CentralEvent::DeviceDiscovered { device_id: text("new") };
    assert!(matches!(
        ble().on_event(Some(found)),
        Step::Discovered { device_id } if device_id == "new"
    ));
    assert!(matches!(ble().on_event(Some(CentralEvent::Other)), Step::Ignore));
    assert!(matches!(ble().on_event(None), Step::Stop));
}

const NEIGHBOURS: &str = "\
IP address       HW type     Flags       HW address            Mask     Device
10.0.0.5         0x1         0x0         00:00:00:00:00:00     *        p2p0
10.0.0.7         0x1         0x2         aa:bb:cc:dd:ee:07     *        p2p0

short row
10.0.0.5         0x1         0x2         aa:bb:cc:dd:ee:05     *        p2p0
010.0.0.8        0x1         0x2         aa:bb:cc:dd:ee:08     *        p2p0
10.0.0.7         0x1         0x2         aa:bb:cc:dd:ee:ff     *        p2p0
";

#[test]
fn neighbour_is_found_by_address() {
    assert_eq!(find_mac(NEIGHBOURS, &[10, 0, 0, 7]), Some(text("aa:bb:cc:dd:ee:07")));
    assert_eq!(find_mac(NEIGHBOURS, &[10, 0, 0, 5]), Some(text("aa:bb:cc:dd:ee:05")));
    assert_eq!(find_mac(NEIGHBOURS, &[10, 0, 0, 8]), None);
    assert_eq!(find_mac(NEIGHBOURS, &[10, 0, 0, 9]), None);
}

#[test]
fn heading_of_the_table_is_skipped() {
    let row = "10.0.0.7 0x1 0x2 aa:bb * p2p0";
    assert_eq!(find_mac(row, &[10, 0, 0, 7]), None);
    assert_eq!(find_mac(&format!("\n{}", row), &[10, 0, 0, 7]), Some(text("aa:bb")));
    assert_eq!(find_mac(&format!("h\r\n{}\r\n", row), &[10, 0, 0, 7]), Some(text("aa:bb")));
    assert_eq!(find_mac("h\n10.0.0.7\t1\u{2003}2 \u{a0}mac", &[10, 0, 0, 7]), Some(text("mac")));
    assert_eq!(find_mac("h\n10.0.0.7 1 2", &[10, 0, 0, 7]), None);
    assert_eq!(find_mac("", &[10, 0, 0, 7]), None);
}

#[test]
fn peer_is_named_by_hardware_address_or_address() {
    let ip = || Source::V4([10, 0, 0, 7]);
    assert_eq!(peer_name(ip(), Some(NEIGHBOURS)), "aa:bb:cc:dd:ee:07");
    assert_eq!(peer_name(ip(), Some("")), "10.0.0.7");
    assert_eq!(peer_name(ip(), None), "10.0.0.7");
    assert_eq!(peer_name(Source::V6(text("fe80::1")), Some(NEIGHBOURS)), "fe80::1");
}

#[test]
fn addresses_are_written_with_dots() {
    assert_eq!(dotted_text(&[0, 9, 10, 255]), "0.9.10.255");
    assert_eq!(dotted_text(&[100, 1, 99, 200]), "100.1.99.200");
}

#[test]
fn device_is_named_by_the_end_of_its_path() {
    assert_eq!(mac_of_path("/fi/w1/Interfaces/1/Peers/aabbcc"), Some(text("aabbcc")));
    assert_eq!(mac_of_path("aabbcc"), Some(text("aabbcc")));
    assert_eq!(mac_of_path("/fi/w1/"), None);
    assert_eq!(mac_of_path(""), None);
}

fn wifi_config() -> WifiDirectConfig {
    WifiDirectConfig { interface: text("wlan0"), name: text("node"), port: 4242 }
}

fn wifi() -> WifiDirectTransport {
    WifiDirectTransport::new(&wifi_config(), text("/fi/w1/Interfaces/1"))
}

fn shown(arguments: Vec<(String, Argument)>) -> Vec<(String, String, bool)> {
    arguments
        .into_iter()
        .map(|(name, argument)| match argument {
            Argument::Text(text) => (name, text, false),
            Argument::Path(path) => (name, path, true),
        })
        .collect()
}

#[test]
fn datagrams_go_to_everyone() {
    assert_eq!(wifi().destination(), ([255, 255, 255, 255], 4242));
}

#[test]
fn supplicant_is_told_about_interface_and_device() {
    assert_eq!(
        shown(WifiDirectTransport::interface_arguments(&wifi_config())),
        vec![
            (text("Ifname"), text("wlan0"), false),
            (text("Driver"), text("nl80211"), false)
        ]
    );
    assert_eq!(
        shown(WifiDirectTransport::device_arguments(&wifi_config())),
        vec![(text("DeviceName"), text("node"), false)]
    );
}

#[test]
fn known_interface_is_used_and_another_is_created() {
    let known = WifiDirectTransport::take_interface(&wifi_config(), Some(text("/if/1")));
    assert!(matches!(known, InterfaceStep::Use(path) if path == "/if/1"));
    match WifiDirectTransport::take_interface(&wifi_config(), None) {
        InterfaceStep::Create(arguments) => assert_eq!(
            shown(arguments),
            vec![
                (text("Ifname"), text("wlan0"), false),
                (text("Driver"), text("nl80211"), false)
            ]
        ),
        other => panic!("unexpected {:?}", other),
    }
}

#[test]
fn addresses_are_told_apart_by_their_dots() {
    assert_ne!(dotted_text(&[1, 11, 1, 1]), dotted_text(&[11, 1, 1, 1]));
    assert_ne!(dotted_text(&[1, 1, 11, 1]), dotted_text(&[1, 1, 1, 11]));
}

#[test]
fn supplicant_is_told_the_path_of_the_peer() {
    let path = "/fi/w1/Interfaces/1/Peers/aabbcc";
    assert_eq!(wifi().peer_object_path("aabbcc"), path);
    assert_eq!(mac_of_path(path), Some(text("aabbcc")));
    assert_eq!(
        shown(wifi().connect_arguments("aabbcc").unwrap()),
        vec![(text("peer"), text(path), true), (text("wps_method"), text("pbc"), false)]
    );
    assert_eq!(
        shown(wifi().disconnect_arguments("aabbcc").unwrap()),
        vec![(text("peer"), text(path), true)]
    );
}

#[test]
fn peer_without_an_object_path_is_refused() {
    for peer in ["", "aa:bb", "a//b", "a/", "10.0.0.7", "\u{e9}"] {
        assert_eq!(wifi().connect_arguments(peer).unwrap_err(), WifiDirectError::InvalidObjectPath);
        assert_eq!(
            wifi().disconnect_arguments(peer).unwrap_err(),
            WifiDirectError::InvalidObjectPath
        );
    }
    for peer in ["A_9", "a/b"] {
        assert!(wifi().connect_arguments(peer).is_ok());
    }
    let root = WifiDirectTransport::new(&wifi_config(), text("/"));
    assert!(root.connect_arguments("aabbcc").is_err());
}
