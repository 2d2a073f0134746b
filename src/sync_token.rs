//! A broadcast cancellation flag: one source triggers it, and every holder
//! of a token, however many, sees it triggered.

use std::sync::atomic::{AtomicBool, Ordering};
use std::sync::Arc;
use vstd::prelude::*;

verus! {

/// The side that triggers.
pub struct TokenSource {
    token: Arc<Token>,
}

/// The shared flag, read by holders.
pub struct Token {
    is_triggered: AtomicBool,
}

impl TokenSource {
    /// The flag that this source triggers.
    pub closed spec fn shared(&self) -> Token {
        *self.token
    }

    /// A source whose flag is not triggered.
    pub fn new() -> (r: TokenSource) {
        TokenSource { token: Arc::new(Token { is_triggered: AtomicBool::new(false) }) }
    }

    /// A holder of this source's own flag.
    pub fn get_token(&self) -> (r: Arc<Token>)
        ensures
            *r == self.shared(),
    {
        self.token.clone()
    }

    /// Sets the flag. Triggering again changes nothing.
    pub fn trigger(&self) {
        self.token.is_triggered.store(true, Ordering::Relaxed)
    }
}

impl Token {
    /// Reads the flag without blocking.
    pub fn is_triggered(&self) -> bool {
        self.is_triggered.load(Ordering::Relaxed)
    }
}

} // verus!
