use vstd::prelude::*;

verus! {

/// The RPC endpoint of the main network.
pub const DEFAULT_MAINNET_RPC_URL: &'static str = "https://api.mainnet-beta.solana.com";

/// The RPC endpoint of the test network.
pub const DEFAULT_TESTNET_RPC_URL: &'static str = "https://api.testnet.solana.com";

/// The RPC endpoint of the development network.
pub const DEFAULT_DEVNET_RPC_URL: &'static str = "https://api.devnet.solana.com";

/// The RPC endpoint of a node on this machine.
pub const DEFAULT_LOCALHOST_RPC_URL: &'static str = "http://localhost:8899";

/// The endpoint that a choice of URL stands for: the main network where
/// nothing was chosen, the endpoint of a network for its name or its
/// initial, and any other text as it is.
pub open spec fn endpoint_of(url: Option<Seq<char>>) -> Seq<char> {
    match url {
        None => DEFAULT_MAINNET_RPC_URL@,
        Some(name) => if name == "l"@ || name == "localhost"@ {
            DEFAULT_LOCALHOST_RPC_URL@
        } else if name == "d"@ || name == "devnet"@ {
            DEFAULT_DEVNET_RPC_URL@
        } else if name == "t"@ || name == "testnet"@ {
            DEFAULT_TESTNET_RPC_URL@
        } else if name == "m"@ || name == "mainnet"@ {
            DEFAULT_MAINNET_RPC_URL@
        } else {
            name
        },
    }
}

/// The characters of a choice of URL.
pub open spec fn chosen(url: Option<String>) -> Option<Seq<char>> {
    match url {
        Some(name) => Some(name@),
        None => None,
    }
}

/// Tells whether `text` reads `word`.
pub fn reads(text: &String, word: &str) -> (same: bool)
    ensures
        same == (text@ == word@),
{
    *text == word.to_owned()
}

/// The endpoint to talk to, given the URL that was chosen, if one was.
pub fn get_url(url: Option<String>) -> (endpoint: String)
    ensures
        endpoint@ == endpoint_of(chosen(url)),
{
    match url {
        None => DEFAULT_MAINNET_RPC_URL.to_owned(),
        Some(name) => {
            if reads(&name, "l") || reads(&name, "localhost") {
                DEFAULT_LOCALHOST_RPC_URL.to_owned()
            } else if reads(&name, "d") || reads(&name, "devnet") {
                DEFAULT_DEVNET_RPC_URL.to_owned()
            } else if reads(&name, "t") || reads(&name, "testnet") {
                DEFAULT_TESTNET_RPC_URL.to_owned()
            } else if reads(&name, "m") || reads(&name, "mainnet") {
                DEFAULT_MAINNET_RPC_URL.to_owned()
            } else {
                name
            }
        },
    }
}

} // verus!
