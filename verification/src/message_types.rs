use vstd::prelude::*;

verus! {

/// The kinds of ISO 8583 messages, each with its MTI.
#[derive(Debug, Clone, Copy, PartialEq, Eq, Structural)]
pub enum IsoMessageType {
    Authorization,
    AuthorizationResponse,
    AuthorizationAdvice,
    AuthorizationAdviceResponse,
    Financial,
    FinancialResponse,
    FinancialAdvice,
    FinancialAdviceResponse,
    Reversal,
    ReversalResponse,
    NetworkManagement,
    NetworkManagementResponse,
    TokenNotification,
    TokenNotificationResponse,
    TokenManagement,
    TokenManagementResponse,
}

/// The number that a text of decimal digits writes.
pub open spec fn mti_number(text: Seq<char>) -> int
    decreases text.len(),
{
    if text.len() == 0 {
        0
    } else {
        mti_number(text.drop_last()) * 10 + (text.last() as int - 48)
    }
}

/// The MTI of every message type, and the type that answers it: each
/// request type (authorization 0100, authorization advice 0120, financial
/// 0200, financial advice 0220, reversal 0302, network management 0420, token
/// notification 0620, token management 0800) is answered by its own response
/// type, whose MTI is the request's with the third digit one higher, and each
/// response type answers itself.
pub proof fn lemma_type_table()
    ensures
            IsoMessageType::Authorization.spec_value() == "0100"@,
            IsoMessageType::AuthorizationResponse.spec_value() == "0110"@,
            IsoMessageType::Authorization.spec_response_type() == IsoMessageType::AuthorizationResponse,
            IsoMessageType::AuthorizationResponse.spec_response_type() == IsoMessageType::AuthorizationResponse,
            IsoMessageType::AuthorizationAdvice.spec_value() == "0120"@,
            IsoMessageType::AuthorizationAdviceResponse.spec_value() == "0130"@,
            IsoMessageType::AuthorizationAdvice.spec_response_type() == IsoMessageType::AuthorizationAdviceResponse,
            IsoMessageType::AuthorizationAdviceResponse.spec_response_type() == IsoMessageType::AuthorizationAdviceResponse,
            IsoMessageType::Financial.spec_value() == "0200"@,
            IsoMessageType::FinancialResponse.spec_value() == "0210"@,
            IsoMessageType::Financial.spec_response_type() == IsoMessageType::FinancialResponse,
            IsoMessageType::FinancialResponse.spec_response_type() == IsoMessageType::FinancialResponse,
            IsoMessageType::FinancialAdvice.spec_value() == "0220"@,
            IsoMessageType::FinancialAdviceResponse.spec_value() == "0230"@,
            IsoMessageType::FinancialAdvice.spec_response_type() == IsoMessageType::FinancialAdviceResponse,
            IsoMessageType::FinancialAdviceResponse.spec_response_type() == IsoMessageType::FinancialAdviceResponse,
            IsoMessageType::Reversal.spec_value() == "0302"@,
            IsoMessageType::ReversalResponse.spec_value() == "0312"@,
            IsoMessageType::Reversal.spec_response_type() == IsoMessageType::ReversalResponse,
            IsoMessageType::ReversalResponse.spec_response_type() == IsoMessageType::ReversalResponse,
            IsoMessageType::NetworkManagement.spec_value() == "0420"@,
            IsoMessageType::NetworkManagementResponse.spec_value() == "0430"@,
            IsoMessageType::NetworkManagement.spec_response_type() == IsoMessageType::NetworkManagementResponse,
            IsoMessageType::NetworkManagementResponse.spec_response_type() == IsoMessageType::NetworkManagementResponse,
            IsoMessageType::TokenNotification.spec_value() == "0620"@,
            IsoMessageType::TokenNotificationResponse.spec_value() == "0630"@,
            IsoMessageType::TokenNotification.spec_response_type() == IsoMessageType::TokenNotificationResponse,
            IsoMessageType::TokenNotificationResponse.spec_response_type() == IsoMessageType::TokenNotificationResponse,
            IsoMessageType::TokenManagement.spec_value() == "0800"@,
            IsoMessageType::TokenManagementResponse.spec_value() == "0810"@,
            IsoMessageType::TokenManagement.spec_response_type() == IsoMessageType::TokenManagementResponse,
            IsoMessageType::TokenManagementResponse.spec_response_type() == IsoMessageType::TokenManagementResponse,
{
}

impl IsoMessageType {
    /// The MTI of a message type.
    pub open spec fn spec_value(self) -> Seq<char> {
        match self {
            IsoMessageType::Authorization => "0100"@,
            IsoMessageType::AuthorizationResponse => "0110"@,
            IsoMessageType::AuthorizationAdvice => "0120"@,
            IsoMessageType::AuthorizationAdviceResponse => "0130"@,
            IsoMessageType::Financial => "0200"@,
            IsoMessageType::FinancialResponse => "0210"@,
            IsoMessageType::FinancialAdvice => "0220"@,
            IsoMessageType::FinancialAdviceResponse => "0230"@,
            IsoMessageType::Reversal => "0302"@,
            IsoMessageType::ReversalResponse => "0312"@,
            IsoMessageType::NetworkManagement => "0420"@,
            IsoMessageType::NetworkManagementResponse => "0430"@,
            IsoMessageType::TokenNotification => "0620"@,
            IsoMessageType::TokenNotificationResponse => "0630"@,
            IsoMessageType::TokenManagement => "0800"@,
            IsoMessageType::TokenManagementResponse => "0810"@,
        }
    }

    /// Whether the type is that of a response.
    pub open spec fn is_response_type(self) -> bool {
        match self {
            IsoMessageType::AuthorizationResponse | IsoMessageType::AuthorizationAdviceResponse
            | IsoMessageType::FinancialResponse | IsoMessageType::FinancialAdviceResponse
            | IsoMessageType::ReversalResponse | IsoMessageType::NetworkManagementResponse
            | IsoMessageType::TokenNotificationResponse
            | IsoMessageType::TokenManagementResponse => true,
            _ => false,
        }
    }

    /// The response type that answers a request type; a response type
    /// answers itself.
    pub open spec fn spec_response_type(self) -> IsoMessageType {
        match self {
            IsoMessageType::Authorization => IsoMessageType::AuthorizationResponse,
            IsoMessageType::AuthorizationAdvice => IsoMessageType::AuthorizationAdviceResponse,
            IsoMessageType::Financial => IsoMessageType::FinancialResponse,
            IsoMessageType::FinancialAdvice => IsoMessageType::FinancialAdviceResponse,
            IsoMessageType::Reversal => IsoMessageType::ReversalResponse,
            IsoMessageType::NetworkManagement => IsoMessageType::NetworkManagementResponse,
            IsoMessageType::TokenNotification => IsoMessageType::TokenNotificationResponse,
            IsoMessageType::TokenManagement => IsoMessageType::TokenManagementResponse,
            _ => self,
        }
    }

    /// The response type of every type is a response type, answering it again
    /// changes nothing, and a response type answers itself.
    pub proof fn lemma_response_type_is_response(self)
        ensures
            self.spec_response_type().is_response_type(),
            self.spec_response_type().spec_response_type() == self.spec_response_type(),
            self.is_response_type() ==> self.spec_response_type() == self,
    {
    }

    /// The MTI of the response to a request type is the request's MTI plus
    /// ten.
    pub proof fn lemma_response_mti_adds_ten(self)
        requires
            !self.is_response_type(),
        ensures
            mti_number(self.spec_response_type().spec_value()) == mti_number(self.spec_value()) + 10,
    {
        reveal_with_fuel(mti_number, 5);
        match self {
            IsoMessageType::Authorization => {
                reveal_strlit("0100");
                reveal_strlit("0110");
            },
            IsoMessageType::AuthorizationAdvice => {
                reveal_strlit("0120");
                reveal_strlit("0130");
            },
            IsoMessageType::Financial => {
                reveal_strlit("0200");
                reveal_strlit("0210");
            },
            IsoMessageType::FinancialAdvice => {
                reveal_strlit("0220");
                reveal_strlit("0230");
            },
            IsoMessageType::Reversal => {
                reveal_strlit("0302");
                reveal_strlit("0312");
            },
            IsoMessageType::NetworkManagement => {
                reveal_strlit("0420");
                reveal_strlit("0430");
            },
            IsoMessageType::TokenNotification => {
                reveal_strlit("0620");
                reveal_strlit("0630");
            },
            IsoMessageType::TokenManagement => {
                reveal_strlit("0800");
                reveal_strlit("0810");
            },
            _ => {},
        }
    }

    /// The MTI of a message type.
    pub fn value(&self) -> (r: &'static str)
        ensures
            r@ == self.spec_value(),
    {
        match self {
            IsoMessageType::Authorization => "0100",
            IsoMessageType::AuthorizationResponse => "0110",
            IsoMessageType::AuthorizationAdvice => "0120",
            IsoMessageType::AuthorizationAdviceResponse => "0130",
            IsoMessageType::Financial => "0200",
            IsoMessageType::FinancialResponse => "0210",
            IsoMessageType::FinancialAdvice => "0220",
            IsoMessageType::FinancialAdviceResponse => "0230",
            IsoMessageType::Reversal => "0302",
            IsoMessageType::ReversalResponse => "0312",
            IsoMessageType::NetworkManagement => "0420",
            IsoMessageType::NetworkManagementResponse => "0430",
            IsoMessageType::TokenNotification => "0620",
            IsoMessageType::TokenNotificationResponse => "0630",
            IsoMessageType::TokenManagement => "0800",
            IsoMessageType::TokenManagementResponse => "0810",
        }
    }

    /// The response type that answers this type.
    pub fn get_response_type(&self) -> (r: Self)
        ensures
            r == self.spec_response_type(),
    {
        match self {
            IsoMessageType::Authorization => IsoMessageType::AuthorizationResponse,
            IsoMessageType::AuthorizationAdvice => IsoMessageType::AuthorizationAdviceResponse,
            IsoMessageType::Financial => IsoMessageType::FinancialResponse,
            IsoMessageType::FinancialAdvice => IsoMessageType::FinancialAdviceResponse,
            IsoMessageType::Reversal => IsoMessageType::ReversalResponse,
            IsoMessageType::NetworkManagement => IsoMessageType::NetworkManagementResponse,
            IsoMessageType::TokenNotification => IsoMessageType::TokenNotificationResponse,
            IsoMessageType::TokenManagement => IsoMessageType::TokenManagementResponse,
            _ => *self,
        }
    }
}

/// The message type registered for each MTI.
pub open spec fn spec_iso_message_type_map() -> Seq<(Seq<char>, IsoMessageType)> {
    seq![
        ("0100"@, IsoMessageType::Authorization),
        ("0110"@, IsoMessageType::AuthorizationResponse),
        ("0120"@, IsoMessageType::AuthorizationAdvice),
        ("0130"@, IsoMessageType::AuthorizationAdviceResponse),
        ("0200"@, IsoMessageType::Financial),
        ("0210"@, IsoMessageType::FinancialResponse),
        ("0220"@, IsoMessageType::FinancialAdvice),
        ("0230"@, IsoMessageType::FinancialAdviceResponse),
        ("0302"@, IsoMessageType::TokenManagement),
        ("0312"@, IsoMessageType::TokenManagementResponse),
        ("0420"@, IsoMessageType::Reversal),
        ("0430"@, IsoMessageType::ReversalResponse),
        ("0620"@, IsoMessageType::TokenNotification),
        ("0630"@, IsoMessageType::TokenNotificationResponse),
        ("0800"@, IsoMessageType::NetworkManagement),
        ("0810"@, IsoMessageType::NetworkManagementResponse),
    ]
}

/// The message type registered for each MTI, as pairs.
pub fn iso_message_type_map() -> (r: Vec<(&'static str, IsoMessageType)>)
    ensures
        r@.len() == spec_iso_message_type_map().len(),
        forall|i: int|
            0 <= i < r@.len() ==> (#[trigger] r@[i]).0@ == spec_iso_message_type_map()[i].0 && r@[i].1
                == spec_iso_message_type_map()[i].1,
{
    let r = vec![
        ("0100", IsoMessageType::Authorization),
        ("0110", IsoMessageType::AuthorizationResponse),
        ("0120", IsoMessageType::AuthorizationAdvice),
        ("0130", IsoMessageType::AuthorizationAdviceResponse),
        ("0200", IsoMessageType::Financial),
        ("0210", IsoMessageType::FinancialResponse),
        ("0220", IsoMessageType::FinancialAdvice),
        ("0230", IsoMessageType::FinancialAdviceResponse),
        ("0302", IsoMessageType::TokenManagement),
        ("0312", IsoMessageType::TokenManagementResponse),
        ("0420", IsoMessageType::Reversal),
        ("0430", IsoMessageType::ReversalResponse),
        ("0620", IsoMessageType::TokenNotification),
        ("0630", IsoMessageType::TokenNotificationResponse),
        ("0800", IsoMessageType::NetworkManagement),
        ("0810", IsoMessageType::NetworkManagementResponse),
    ];
    r
}

} // verus!
