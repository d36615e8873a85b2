//! Common regex patterns for wordlist filtering.

use vstd::prelude::*;

verus! {

/// Only lowercase letters
pub const LOWERCASE_ONLY: &'static str = r"^[a-z]+$";

/// Only uppercase letters
pub const UPPERCASE_ONLY: &'static str = r"^[A-Z]+$";

/// Only letters (any case)
pub const LETTERS_ONLY: &'static str = r"^[a-zA-Z]+$";

/// Only digits
pub const DIGITS_ONLY: &'static str = r"^[0-9]+$";

/// Alphanumeric only
pub const ALPHANUMERIC: &'static str = r"^[a-zA-Z0-9]+$";

/// Contains at least one special character
pub const HAS_SPECIAL: &'static str = ".*[!@#$%^&*()_+\\-=\\[\\]{};':\"\\\\|,.<>\\/?].*";

/// Starts with letter, ends with digit
pub const LETTER_START_DIGIT_END: &'static str = r"^[a-zA-Z].*[0-9]$";

/// Common password pattern (letter + digits)
pub const COMMON_PASSWORD: &'static str = r"^[a-zA-Z]+[0-9]+$";

/// Complex password (upper, lower, digit)
pub const COMPLEX_PASSWORD: &'static str = r"^(?=.*[a-z])(?=.*[A-Z])(?=.*[0-9]).+$";

} // verus!
