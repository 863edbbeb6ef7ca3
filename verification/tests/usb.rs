//! Choosing interface and endpoints.
use xbox_controller_macos_gip::usb::{
    configuration_to_select, find_interrupt_endpoints, Endpoint, Flow, Interface, Transfer, PID, VID,
};

fn ep(transfer: Transfer, flow: Flow, address: u8) -> Endpoint {
    Endpoint { transfer, flow, address }
}

#[test]
fn controller_identity() {
    assert_eq!((VID, PID), (0x20D6, 0x2079));
}

#[test]
fn takes_first_interface_with_both() {
    let interfaces = [
        Interface { number: 0, endpoints: vec![ep(Transfer::Interrupt, Flow::In, 0x81)] },
        Interface {
            number: 1,
            endpoints: vec![ep(Transfer::Bulk, Flow::Out, 0x01), ep(Transfer::Interrupt, Flow::In, 0x82)],
        },
        Interface {
            number: 2,
            endpoints: vec![
                ep(Transfer::Isochronous, Flow::In, 0x83),
                ep(Transfer::Interrupt, Flow::Out, 0x04),
                ep(Transfer::Interrupt, Flow::In, 0x84),
                ep(Transfer::Interrupt, Flow::In, 0x85),
                ep(Transfer::Interrupt, Flow::Out, 0x05),
            ],
        },
        Interface {
            number: 3,
            endpoints: vec![ep(Transfer::Interrupt, Flow::In, 0x86), ep(Transfer::Interrupt, Flow::Out, 0x06)],
        },
    ];
    assert_eq!(find_interrupt_endpoints(&interfaces), Some((2, 0x84, 0x04)));
    assert_eq!(interfaces[2].interrupt_endpoint(Flow::In), Some(0x84));
    assert_eq!(interfaces[1].interrupt_endpoint(Flow::Out), None);
    assert_eq!(find_interrupt_endpoints(&interfaces[..2]), None);
    assert_eq!(find_interrupt_endpoints(&interfaces[3..]), Some((3, 0x86, 0x06)));
}

#[test]
fn other_transfers_do_not_count() {
    for t in [Transfer::Control, Transfer::Isochronous, Transfer::Bulk] {
        let i = Interface { number: 0, endpoints: vec![ep(t, Flow::In, 0x81), ep(t, Flow::Out, 0x01)] };
        assert_eq!(find_interrupt_endpoints(&[i]), None);
    }
    assert_eq!(find_interrupt_endpoints(&[]), None);
}

#[test]
fn keeps_active_configuration() {
    assert_eq!(configuration_to_select(Some(3)), 3);
    assert_eq!(configuration_to_select(None), 1);
}
