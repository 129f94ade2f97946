use vstd::prelude::*;

use crate::curve::BPS_DENOMINATOR;

verus! {

/// An amount of the settlement denomination owed to an address.
#[derive(Debug, Clone, PartialEq, Eq)]
pub struct TokenPayment {
    pub amount: u128,
    pub address: String,
}

impl TokenPayment {
    /// A copy of the payment, field for field.
    pub fn duplicate(&self) -> (r: TokenPayment)
        ensures
            r == *self,
    {
        TokenPayment { amount: self.amount, address: self.address.clone() }
    }
}

/// The amount of an optional payment, zero when there is none.
pub open spec fn opt_amount(p: Option<TokenPayment>) -> int {
    match p {
        Some(t) => t.amount as int,
        None => 0,
    }
}

/// The itemized breakdown of one trade's gross amount: the protocol fee,
/// the collection royalty, the pool's swap fee and the seller's proceeds.
#[derive(Debug, Clone, PartialEq, Eq)]
pub struct QuoteSummary {
    pub fair_burn: TokenPayment,
    pub royalty: Option<TokenPayment>,
    pub swap: Option<TokenPayment>,
    pub seller_amount: u128,
}

impl QuoteSummary {
    /// The gross amount the breakdown adds up to.
    pub open spec fn total_spec(&self) -> int {
        self.fair_burn.amount + opt_amount(self.royalty) + opt_amount(self.swap)
            + self.seller_amount
    }

    pub fn total(&self) -> (r: u128)
        requires
            self.total_spec() <= u128::MAX,
        ensures
            r == self.total_spec(),
    {
        let royalty: u128 = match &self.royalty {
            Some(p) => p.amount,
            None => 0,
        };
        let swap: u128 = match &self.swap {
            Some(p) => p.amount,
            None => 0,
        };
        self.fair_burn.amount + royalty + swap + self.seller_amount
    }

    /// A copy of the breakdown, field for field.
    pub fn duplicate(&self) -> (r: QuoteSummary)
        ensures
            r == *self,
    {
        let royalty = match &self.royalty {
            Some(p) => Some(p.duplicate()),
            None => None,
        };
        let swap = match &self.swap {
            Some(p) => Some(p.duplicate()),
            None => None,
        };
        QuoteSummary {
            fair_burn: self.fair_burn.duplicate(),
            royalty,
            swap,
            seller_amount: self.seller_amount,
        }
    }

    /// The transfers that settle the breakdown, in order: protocol fee,
    /// royalty, swap fee, seller.
    pub open spec fn payouts(&self, seller_recipient: String) -> Seq<TokenPayment> {
        seq![self.fair_burn] + opt_seq(self.royalty) + opt_seq(self.swap) + seq![
            TokenPayment { amount: self.seller_amount, address: seller_recipient },
        ]
    }

    pub fn payout(&self, seller_recipient: &String) -> (r: Vec<TokenPayment>)
        ensures
            r@ == self.payouts(*seller_recipient),
    {
        let mut r: Vec<TokenPayment> = Vec::new();
        r.push(self.fair_burn.duplicate());
        if let Some(royalty) = &self.royalty {
            r.push(royalty.duplicate());
        }
        if let Some(swap) = &self.swap {
            r.push(swap.duplicate());
        }
        r.push(TokenPayment { amount: self.seller_amount, address: seller_recipient.clone() });
        assert(r@ =~= self.payouts(*seller_recipient));
        r
    }
}

/// The payment as a sequence of zero or one element.
pub open spec fn opt_seq(p: Option<TokenPayment>) -> Seq<TokenPayment> {
    match p {
        Some(t) => seq![t],
        None => Seq::empty(),
    }
}

/// `amount * bps / 10_000`, rounded down.
pub open spec fn fee_of(amount: u128, bps: u128) -> int {
    amount as int * bps as int / BPS_DENOMINATOR as int
}

/// A collection's royalty: a share of every sale's gross amount.
#[derive(Debug, Clone, PartialEq, Eq)]
pub struct RoyaltyEntry {
    pub recipient: String,
    pub share_bps: u128,
}

/// The fee parameters that apply to every trade of one collection: the
/// protocol fee and its recipient, and the collection's royalty if it
/// declares one.
#[derive(Debug, Clone, PartialEq, Eq)]
pub struct PayoutContext {
    pub fair_burn_recipient: String,
    pub fair_burn_fee_bps: u128,
    pub royalty: Option<RoyaltyEntry>,
}

/// `amount * bps / 10_000`, rounded down, for a percentage of at most 100%.
pub fn fee_amount(amount: u128, bps: u128) -> (r: u128)
    requires
        bps <= BPS_DENOMINATOR,
    ensures
        r == fee_of(amount, bps),
        r <= amount,
{
    let q = amount / BPS_DENOMINATOR;
    let rem = amount % BPS_DENOMINATOR;
    proof {
        let a = amount as int;
        let b = bps as int;
        let qi = q as int;
        let ri = rem as int;
        assert(a == 10_000 * qi + ri);
        assert(a * b == 10_000 * (qi * b) + ri * b) by (nonlinear_arith)
            requires a == 10_000 * qi + ri;
        assert((10_000 * (qi * b) + ri * b) / 10_000 == qi * b + (ri * b) / 10_000)
            by (nonlinear_arith);
        assert(qi * b <= qi * 10_000) by (nonlinear_arith)
            requires b <= 10_000, qi >= 0;
        assert(ri * b / 10_000 <= ri) by (nonlinear_arith)
            requires b <= 10_000, ri >= 0;
    }
    q * bps + rem * bps / BPS_DENOMINATOR
}

impl PayoutContext {
    /// A copy of the parameters, field for field.
    pub fn duplicate(&self) -> (r: PayoutContext)
        ensures
            r == *self,
    {
        let royalty = match &self.royalty {
            Some(e) => Some(RoyaltyEntry { recipient: e.recipient.clone(), share_bps: e.share_bps }),
            None => None,
        };
        PayoutContext {
            fair_burn_recipient: self.fair_burn_recipient.clone(),
            fair_burn_fee_bps: self.fair_burn_fee_bps,
            royalty,
        }
    }

    /// Every percentage is at most 100%.
    pub open spec fn valid(&self) -> bool {
        &&& self.fair_burn_fee_bps <= BPS_DENOMINATOR
        &&& match self.royalty {
            Some(r) => r.share_bps <= BPS_DENOMINATOR,
            None => true,
        }
    }

    /// The royalty percentage, zero when the collection declares none.
    pub open spec fn royalty_bps(&self) -> int {
        match self.royalty {
            Some(r) => r.share_bps as int,
            None => 0,
        }
    }

    /// The breakdown of `sale_amount`: each fee is its percentage of the
    /// gross amount, rounded down; a swap fee appears only when its
    /// percentage is not zero. `None` when the fees exceed the amount.
    pub open spec fn quote_spec(
        &self,
        sale_amount: u128,
        swap_fee_bps: u128,
        swap_recipient: String,
    ) -> Option<QuoteSummary> {
        let fair_burn_fee = fee_of(sale_amount, self.fair_burn_fee_bps);
        let royalty_fee = match self.royalty {
            Some(r) => fee_of(sale_amount, r.share_bps),
            None => 0,
        };
        let swap_fee = if swap_fee_bps == 0 {
            0
        } else {
            fee_of(sale_amount, swap_fee_bps)
        };
        if fair_burn_fee + royalty_fee + swap_fee <= sale_amount {
            Some(
                QuoteSummary {
                    fair_burn: TokenPayment {
                        amount: fair_burn_fee as u128,
                        address: self.fair_burn_recipient,
                    },
                    royalty: match self.royalty {
                        Some(r) => Some(
                            TokenPayment { amount: royalty_fee as u128, address: r.recipient },
                        ),
                        None => None,
                    },
                    swap: if swap_fee_bps == 0 {
                        None
                    } else {
                        Some(TokenPayment { amount: swap_fee as u128, address: swap_recipient })
                    },
                    seller_amount: (sale_amount - fair_burn_fee - royalty_fee - swap_fee) as u128,
                },
            )
        } else {
            None
        }
    }

    pub fn build_quote_summary(
        &self,
        sale_amount: u128,
        swap_fee_bps: u128,
        swap_recipient: &String,
    ) -> (r: Option<QuoteSummary>)
        ensures
            r == self.quote_spec(sale_amount, swap_fee_bps, *swap_recipient),
    {
        let fair_burn_amount = match fee_amount_checked(sale_amount, self.fair_burn_fee_bps) {
            Some(f) => f,
            None => return None,
        };
        let fair_burn = TokenPayment {
            amount: fair_burn_amount,
            address: self.fair_burn_recipient.clone(),
        };
        let royalty = match &self.royalty {
            Some(r) => match fee_amount_checked(sale_amount, r.share_bps) {
                Some(f) => Some(TokenPayment { amount: f, address: r.recipient.clone() }),
                None => {
                    proof {
                        assert(fee_of(sale_amount, self.fair_burn_fee_bps) >= 0) by (nonlinear_arith);
                    }
                    return None;
                },
            },
            None => None,
        };
        let swap = if swap_fee_bps == 0 {
            None
        } else {
            match fee_amount_checked(sale_amount, swap_fee_bps) {
                Some(f) => Some(TokenPayment { amount: f, address: swap_recipient.clone() }),
                None => {
                    proof {
                        assert(fee_of(sale_amount, self.fair_burn_fee_bps) >= 0) by (nonlinear_arith);
                        assert(opt_amount(royalty) >= 0);
                    }
                    return None;
                },
            }
        };
        if fair_burn.amount > sale_amount {
            proof {
                assert(opt_amount(royalty) >= 0);
                assert(opt_amount(swap) >= 0);
            }
            return None;
        }
        let mut remaining = sale_amount - fair_burn.amount;
        if let Some(p) = &royalty {
            if p.amount > remaining {
                proof {
                    assert(opt_amount(swap) >= 0);
                }
                return None;
            }
            remaining = remaining - p.amount;
        }
        if let Some(p) = &swap {
            if p.amount > remaining {
                return None;
            }
            remaining = remaining - p.amount;
        }
        Some(QuoteSummary { fair_burn, royalty, swap, seller_amount: remaining })
    }
}

/// `amount * bps / 10_000`, rounded down, for any percentage; `None` when
/// the fee does not fit in 128 bits.
pub fn fee_amount_checked(amount: u128, bps: u128) -> (r: Option<u128>)
    ensures
        r matches Some(f) ==> f == fee_of(amount, bps),
        r is None ==> fee_of(amount, bps) > u128::MAX,
{
    let whole = bps / BPS_DENOMINATOR;
    let part = bps % BPS_DENOMINATOR;
    let small = fee_amount(amount, part);
    proof {
        let a = amount as int;
        let w = whole as int;
        let p = part as int;
        assert(bps as int == 10_000 * w + p);
        assert(a * (bps as int) == 10_000 * (a * w) + a * p) by (nonlinear_arith)
            requires bps as int == 10_000 * w + p;
        assert((10_000 * (a * w) + a * p) / 10_000 == a * w + (a * p) / 10_000) by (nonlinear_arith);
        assert(a * w >= 0) by (nonlinear_arith)
            requires a >= 0, w >= 0;
    }
    let large = match amount.checked_mul(whole) {
        Some(l) => l,
        None => return None,
    };
    large.checked_add(small)
}

/// Conservation: when the fee percentages add up to at most 100%, every
/// sale amount has a breakdown, and the breakdown adds up to exactly the
/// sale amount.
pub proof fn lemma_quote_conserves_amount(
    ctx: PayoutContext,
    sale_amount: u128,
    swap_fee_bps: u128,
    swap_recipient: String,
)
    requires
        ctx.valid(),
        ctx.fair_burn_fee_bps + ctx.royalty_bps() + swap_fee_bps <= BPS_DENOMINATOR,
    ensures
        ctx.quote_spec(sale_amount, swap_fee_bps, swap_recipient) is Some,
        ctx.quote_spec(sale_amount, swap_fee_bps, swap_recipient).unwrap().total_spec()
            == sale_amount,
{
    let a = sale_amount as int;
    let b1 = ctx.fair_burn_fee_bps as int;
    let b2 = ctx.royalty_bps();
    let b3 = swap_fee_bps as int;
    assert(a * b1 / 10_000 + a * b2 / 10_000 + a * b3 / 10_000 <= a) by (nonlinear_arith)
        requires
            a >= 0,
            b1 >= 0,
            b2 >= 0,
            b3 >= 0,
            b1 + b2 + b3 <= 10_000,
    ;
}

} // verus!
