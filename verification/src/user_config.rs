//! The run configuration as the operator supplies it at the prompt.
//! Reading the answers is the caller's business; assembling them, and
//! the fallback to the default list name, is verified here.
use vstd::prelude::*;
use vstd::string::StringExecFns;

verus! {

/// Host address, authentication identity, and address-list name for one
/// synchronization run; immutable once built.
pub struct UserConfig {
    pub host: String,
    pub username: String,
    pub list_name: String,
}

impl UserConfig {
    /// Builds the configuration from the three raw prompt answers; an
    /// empty list-name answer falls back to the default list `RU`.
    pub fn from_user_input(host: String, username: String, list_name: String) -> (c: UserConfig)
        ensures
            c.host@ == host@,
            c.username@ == username@,
            c.list_name@ == if list_name@.len() == 0 {
                "RU"@
            } else {
                list_name@
            },
    {
        let list_name = Self::read_input_with_default(list_name, "RU");
        UserConfig { host, username, list_name }
    }

    /// The raw answer itself, or the default where the answer is empty.
    pub fn read_input_with_default(input: String, default: &str) -> (r: String)
        ensures
            r@ == if input@.len() == 0 {
                default@
            } else {
                input@
            },
    {
        if input.as_str().is_empty() {
            String::from_str(default)
        } else {
            input
        }
    }
}

} // verus!
