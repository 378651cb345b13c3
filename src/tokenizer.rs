pub use crate::types::{Token, TokenType};

use crate::scan::{scan_errors, scan_tokens, Scanner, ScannerErrorHandler};
use crate::types::views;
use vstd::prelude::*;

verus! {

/// The tokens of a text that holds no lexical fault; no token at all for a
/// text that holds one.
pub fn tokenize(chars: String) -> (r: Vec<Token>)
    requires
        chars@.len() + 1 < u32::MAX,
    ensures
        scan_errors(chars@).len() == 0 ==> views(r@) == scan_tokens(chars@),
        scan_errors(chars@).len() > 0 ==> r@.len() == 0,
{
    let scanner = Scanner::new(ScannerErrorHandler::new());
    match scanner.scan(chars) {
        Ok(tokens) => tokens,
        Err(_) => Vec::new(),
    }
}

} // verus!
