use vstd::prelude::*;

verus! {

/// The currency a price, a bid or a payment is denominated in: the platform's
/// native currency, moved by direct balance transfers, or a fungible token,
/// moved by a transfer request to the token's own contract.
pub enum Currency {
    Native,
    Token(String),
}

/// What a `Currency` is, as a mathematical value.
pub ghost enum CurrencyId {
    Native,
    Token(Seq<char>),
}

impl View for Currency {
    type V = CurrencyId;

    open spec fn view(&self) -> CurrencyId {
        match self {
            Currency::Native => CurrencyId::Native,
            Currency::Token(id) => CurrencyId::Token(id@),
        }
    }
}

impl Currency {
    /// Whether two currencies are the same.
    pub fn same(&self, other: &Currency) -> (r: bool)
        ensures
            r == (self@ == other@),
    {
        match self {
            Currency::Native => other.is_native(),
            Currency::Token(a) => match other {
                Currency::Native => false,
                Currency::Token(b) => a.eq(b),
            },
        }
    }

    pub fn is_native(&self) -> (r: bool)
        ensures
            r == (self@ == CurrencyId::Native),
    {
        match self {
            Currency::Native => true,
            Currency::Token(_) => false,
        }
    }

    /// A copy with the same value.
    pub fn duplicate(&self) -> (r: Currency)
        ensures
            r@ == self@,
    {
        match self {
            Currency::Native => Currency::Native,
            Currency::Token(id) => Currency::Token(id.clone()),
        }
    }
}

/// A transfer of funds that the ledger hands to the platform: in the native
/// currency a direct balance transfer, otherwise a transfer request to the
/// token's contract.
pub struct Payment {
    pub currency: Currency,
    pub receiver_id: String,
    pub amount: u128,
}

pub ghost struct PaymentView {
    pub currency: CurrencyId,
    pub receiver: Seq<char>,
    pub amount: u128,
}

impl View for Payment {
    type V = PaymentView;

    open spec fn view(&self) -> PaymentView {
        PaymentView { currency: self.currency@, receiver: self.receiver_id@, amount: self.amount }
    }
}

} // verus!
