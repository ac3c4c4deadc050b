use vstd::prelude::*;

use crate::constant::MAX_BPS;
use crate::errors::TokenMillError;

verus! {

/// Protocol-wide fee settings: the protocol's share given to new markets, and the referral
/// share of what the protocol takes.
#[derive(Debug, Clone, Copy, PartialEq, Eq, Structural)]
pub struct TokenMillConfig {
    pub default_protocol_fee_share: u16,
    pub referral_fee_share: u16,
}

impl TokenMillConfig {
    /// Both shares are at most 100%.
    pub open spec fn wf(self) -> bool {
        self.default_protocol_fee_share <= MAX_BPS && self.referral_fee_share <= MAX_BPS
    }

    /// A configuration with these shares; refused when either is above 100%.
    pub fn initialize(protocol_fee_share: u16, referral_fee_share: u16) -> (r: Result<TokenMillConfig, TokenMillError>)
        ensures
            protocol_fee_share <= MAX_BPS && referral_fee_share <= MAX_BPS ==> r == Ok::<TokenMillConfig, TokenMillError>(
                TokenMillConfig { default_protocol_fee_share: protocol_fee_share, referral_fee_share },
            ),
            !(protocol_fee_share <= MAX_BPS && referral_fee_share <= MAX_BPS) ==> r == Err::<TokenMillConfig, TokenMillError>(
                TokenMillError::InvalidFeeShare,
            ),
    {
        if !(protocol_fee_share <= MAX_BPS && referral_fee_share <= MAX_BPS) {
            return Err(TokenMillError::InvalidFeeShare);
        }
        Ok(TokenMillConfig { default_protocol_fee_share: protocol_fee_share, referral_fee_share })
    }

    /// Replaces both shares; refused, changing nothing, when either is above 100%.
    pub fn update_default_fee_shares(&mut self, new_default_protocol_fee_share: u16, new_referral_fee_share: u16) -> (r:
        Result<(), TokenMillError>)
        ensures
            new_default_protocol_fee_share <= MAX_BPS && new_referral_fee_share <= MAX_BPS ==> r is Ok && *final(self) == (
            TokenMillConfig {
                default_protocol_fee_share: new_default_protocol_fee_share,
                referral_fee_share: new_referral_fee_share,
            }),
            !(new_default_protocol_fee_share <= MAX_BPS && new_referral_fee_share <= MAX_BPS) ==> r == Err::<
                (),
                TokenMillError,
            >(TokenMillError::InvalidFeeShare) && *final(self) == *old(self),
    {
        if !(new_default_protocol_fee_share <= MAX_BPS && new_referral_fee_share <= MAX_BPS) {
            return Err(TokenMillError::InvalidFeeShare);
        }
        self.default_protocol_fee_share = new_default_protocol_fee_share;
        self.referral_fee_share = new_referral_fee_share;
        Ok(())
    }
}

} // verus!
