use iso_8583_message::message_types::{iso_message_type_map, IsoMessageType};

const ALL: [IsoMessageType; 16] = [
    IsoMessageType::Authorization,
    IsoMessageType::AuthorizationResponse,
    IsoMessageType::AuthorizationAdvice,
    IsoMessageType::AuthorizationAdviceResponse,
    IsoMessageType::Financial,
    IsoMessageType::FinancialResponse,
    IsoMessageType::FinancialAdvice,
    IsoMessageType::FinancialAdviceResponse,
    IsoMessageType::Reversal,
    IsoMessageType::ReversalResponse,
    IsoMessageType::NetworkManagement,
    IsoMessageType::NetworkManagementResponse,
    IsoMessageType::TokenNotification,
    IsoMessageType::TokenNotificationResponse,
    IsoMessageType::TokenManagement,
    IsoMessageType::TokenManagementResponse,
];

#[test]
fn response_types() {
    assert_eq!(
        IsoMessageType::Authorization.get_response_type(),
        IsoMessageType::AuthorizationResponse
    );
    assert_eq!(
        IsoMessageType::TokenManagement.get_response_type(),
        IsoMessageType::TokenManagementResponse
    );
    assert_eq!(
        IsoMessageType::FinancialResponse.get_response_type(),
        IsoMessageType::FinancialResponse
    );
}

#[test]
fn answering_a_response_type_changes_nothing() {
    for t in ALL {
        let r = t.get_response_type();
        assert_eq!(r.get_response_type(), r);
        let mti = r.value();
        assert_eq!(&mti[2..3] == "1" || &mti[2..3] == "3", true);
    }
}

#[test]
fn mtis_of_types() {
    assert_eq!(IsoMessageType::Authorization.value(), "0100");
    assert_eq!(IsoMessageType::Reversal.value(), "0302");
    assert_eq!(IsoMessageType::NetworkManagement.value(), "0420");
    assert_eq!(IsoMessageType::TokenManagementResponse.value(), "0810");
}

#[test]
fn type_map_lists_sixteen_mtis() {
    let map = iso_message_type_map();
    assert_eq!(map.len(), 16);
    assert_eq!(map[0], ("0100", IsoMessageType::Authorization));
    assert_eq!(map[8], ("0302", IsoMessageType::TokenManagement));
    assert_eq!(map[15], ("0810", IsoMessageType::NetworkManagementResponse));
}

#[test]
fn response_mti_is_request_mti_plus_ten() {
    for t in ALL {
        let r = t.get_response_type();
        if r != t {
            let a: u32 = t.value().parse().unwrap();
            let b: u32 = r.value().parse().unwrap();
            assert_eq!(b, a + 10);
        }
    }
}
