//! The wallet registry: one wallet for each network, descriptor and change
//! descriptor, made on first use and handed out again afterwards.

use std::sync::Arc;
use vstd::prelude::*;

verus! {

/// `bdk::Wallet`, opaque to the verifier.
#[verifier::external_type_specification]
#[verifier::external_body]
#[verifier::reject_recursive_types(D)]
pub struct ExWallet<D>(bdk::Wallet<D>);

/// `bdk::database::MemoryDatabase`, opaque to the verifier.
#[verifier::external_type_specification]
#[verifier::external_body]
pub struct ExMemoryDatabase(bdk::database::MemoryDatabase);

/// `tokio::sync::Mutex`, opaque to the verifier.
#[verifier::external_type_specification]
#[verifier::external_body]
#[verifier::reject_recursive_types(T)]
pub struct ExMutex<T: ?Sized>(tokio::sync::Mutex<T>);

/// `bdk::Error`, opaque to the verifier.
#[verifier::external_type_specification]
#[verifier::external_body]
pub struct ExWalletFailure(bdk::Error);

/// A wallet that keeps its data in memory, shared between its users.
pub type MemoryWallet = Arc<tokio::sync::Mutex<bdk::Wallet<bdk::database::MemoryDatabase>>>;

/// The Bitcoin network that a wallet is for.
#[derive(Clone, Copy, Debug, PartialEq, Eq, Structural)]
pub enum Network {
    Bitcoin,
    Testnet,
    Signet,
    Regtest,
}

/// Why a wallet could not be made; `message` is what the wallet library says.
#[derive(Clone, Debug, PartialEq, Eq)]
pub struct WalletError {
    pub message: String,
}

/// What identifies a wallet.
pub struct WalletKey {
    pub network: Network,
    pub descriptor: Seq<char>,
    pub change_descriptor: Option<Seq<char>>,
}

/// A registered wallet with its key, as values.
pub struct WalletRecord {
    pub key: WalletKey,
    pub wallet: MemoryWallet,
}

/// A registered wallet with its key.
pub struct WalletEntry {
    network: Network,
    descriptor: String,
    change_descriptor: Option<String>,
    wallet: MemoryWallet,
}

/// The registry of wallets.
pub struct WalletRegistry {
    entries: Vec<WalletEntry>,
}

/// The text of an optional string.
pub open spec fn text_of(s: Option<String>) -> Option<Seq<char>> {
    match s {
        Some(t) => Some(t@),
        None => None,
    }
}

/// The text of an optional reference to a string.
pub open spec fn text_of_ref(s: Option<&String>) -> Option<Seq<char>> {
    match s {
        Some(t) => Some(t@),
        None => None,
    }
}

/// What `bdk::Wallet::new` refuses a descriptor, a change descriptor and a
/// network with, given a fresh in-memory database: nothing where it makes the
/// wallet, and else the reason.
pub uninterp spec fn wallet_refusal(
    descriptor: Seq<char>,
    change_descriptor: Option<Seq<char>>,
    network: Network,
) -> Option<Seq<char>>;

/// Whether the wallet library makes a wallet for a key.
pub open spec fn wallet_owed(key: WalletKey) -> bool {
    wallet_refusal(key.descriptor, key.change_descriptor, key.network) is None
}

/// Whether a wallet is registered under this key.
pub open spec fn registered(records: Seq<WalletRecord>, key: WalletKey) -> bool {
    exists|i: int| 0 <= i < records.len() && (#[trigger] records[i]).key == key
}

/// The position of the wallet registered under this key.
pub open spec fn record_index(records: Seq<WalletRecord>, key: WalletKey) -> int {
    choose|i: int| 0 <= i < records.len() && (#[trigger] records[i]).key == key
}

/// The wallet registered under this key.
pub open spec fn wallet_of(records: Seq<WalletRecord>, key: WalletKey) -> MemoryWallet {
    records[record_index(records, key)].wallet
}

/// No key is registered twice.
pub open spec fn unique_keys(records: Seq<WalletRecord>) -> bool {
    forall|i: int, j: int|
        0 <= i < records.len() && 0 <= j < records.len() && (#[trigger] records[i]).key == (
        #[trigger] records[j]).key ==> i == j
}

/// The meaning of `register`: what is handed out, for each outcome of making the wallet.
pub open spec fn register_spec(
    records: Seq<WalletRecord>,
    key: WalletKey,
    created: Result<MemoryWallet, WalletError>,
) -> Result<MemoryWallet, WalletError> {
    if registered(records, key) {
        Ok(wallet_of(records, key))
    } else {
        created
    }
}

/// The registry after `register`: a wallet that was made joins it, unless the key
/// is registered already.
pub open spec fn enrolled(
    records: Seq<WalletRecord>,
    key: WalletKey,
    created: Result<MemoryWallet, WalletError>,
) -> Seq<WalletRecord> {
    match created {
        Ok(wallet) => if registered(records, key) {
            records
        } else {
            records.push(WalletRecord { key, wallet })
        },
        Err(_) => records,
    }
}

impl WalletEntry {
    /// The entry as values.
    pub closed spec fn record(&self) -> WalletRecord {
        WalletRecord {
            key: WalletKey {
                network: self.network,
                descriptor: self.descriptor@,
                change_descriptor: text_of(self.change_descriptor),
            },
            wallet: self.wallet,
        }
    }
}

impl View for WalletRegistry {
    type V = Seq<WalletRecord>;

    closed spec fn view(&self) -> Seq<WalletRecord> {
        Seq::new(self.entries@.len(), |i: int| self.entries@[i].record())
    }
}

/// Calls `bdk::Wallet::new` with a fresh `MemoryDatabase`.
///
/// Trusted: whether a wallet is made depends on the descriptor, the change
/// descriptor and the network alone. The library reads the descriptors,
/// checks their keys against the network, and compares their checksums with
/// those in the database, which is empty here; it reports a descriptor that
/// it cannot read, or that is not for the network, as an error. Nothing is
/// claimed of the wallet itself.
#[verifier::external_body]
fn make_wallet(descriptor: &String, change_descriptor: Option<&String>, network: Network) -> (r:
    Result<bdk::Wallet<bdk::database::MemoryDatabase>, bdk::Error>)
    ensures
        r is Ok <==> wallet_refusal(descriptor@, text_of_ref(change_descriptor), network) is None,
{
    let net = match network {
        Network::Bitcoin => bitcoin::Network::Bitcoin,
        Network::Testnet => bitcoin::Network::Testnet,
        Network::Signet => bitcoin::Network::Signet,
        Network::Regtest => bitcoin::Network::Regtest,
    };
    bdk::Wallet::new(descriptor, change_descriptor, net, bdk::database::MemoryDatabase::default())
}

/// Calls `tokio::sync::Mutex::new`.
///
/// Trusted: nothing is claimed of the result.
#[verifier::external_body]
fn guard(wallet: bdk::Wallet<bdk::database::MemoryDatabase>) -> (m: tokio::sync::Mutex<
    bdk::Wallet<bdk::database::MemoryDatabase>,
>) {
    tokio::sync::Mutex::new(wallet)
}

/// Formats a `bdk::Error` with its `Display`.
///
/// Trusted: nothing is claimed of the text.
#[verifier::external_body]
fn failure_text(failure: &bdk::Error) -> (s: String) {
    format!("{}", failure)
}

fn same_text(a: &Option<String>, b: &Option<String>) -> (r: bool)
    ensures
        r == (text_of(*a) == text_of(*b)),
{
    match (a, b) {
        (Some(x), Some(y)) => *x == *y,
        (None, None) => true,
        _ => false,
    }
}

impl WalletRegistry {
    /// The invariant of the registry.
    pub open spec fn wf(&self) -> bool {
        unique_keys(self@)
    }

    /// A registry without wallets.
    pub fn new() -> (r: WalletRegistry)
        ensures
            r@ == Seq::<WalletRecord>::empty(),
            r.wf(),
    {
        let r = WalletRegistry { entries: Vec::new() };
        assert(r@ =~= Seq::<WalletRecord>::empty());
        r
    }

    /// The number of wallets registered.
    pub fn len(&self) -> (n: usize)
        ensures
            n == self@.len(),
    {
        self.entries.len()
    }

    fn find(&self, network: Network, descriptor: &String, change_descriptor: &Option<String>) -> (r:
        Option<usize>)
        ensures
            r is Some <==> registered(
                self@,
                WalletKey {
                    network,
                    descriptor: descriptor@,
                    change_descriptor: text_of(*change_descriptor),
                },
            ),
            r matches Some(i) ==> i < self@.len() && self@[i as int].key == (WalletKey {
                network,
                descriptor: descriptor@,
                change_descriptor: text_of(*change_descriptor),
            }) && self@[i as int].wallet == self.entries@[i as int].wallet,
    {
        let ghost key = WalletKey {
            network,
            descriptor: descriptor@,
            change_descriptor: text_of(*change_descriptor),
        };
        let mut i: usize = 0;
        while i < self.entries.len()
            invariant
                i <= self.entries.len(),
                key == (WalletKey {
                    network,
                    descriptor: descriptor@,
                    change_descriptor: text_of(*change_descriptor),
                }),
                forall|j: int| 0 <= j < i ==> (#[trigger] self@[j]).key != key,
            decreases self.entries.len() - i,
        {
            let e = &self.entries[i];
            assert(self@[i as int] == self.entries@[i as int].record());
            if e.network == network && e.descriptor == *descriptor && same_text(
                &e.change_descriptor,
                change_descriptor,
            ) {
                assert(self@[i as int].key =~= key);
                return Some(i);
            }
            assert(self@[i as int].key != key);
            i += 1;
        }
        None
    }

    /// The wallet registered under a key, if there is one.
    pub fn lookup(&self, network: Network, descriptor: &str, change_descriptor: &Option<String>) -> (r:
        Option<MemoryWallet>)
        requires
            self.wf(),
        ensures
            r == if registered(
                self@,
                WalletKey {
                    network,
                    descriptor: descriptor@,
                    change_descriptor: text_of(*change_descriptor),
                },
            ) {
                Some(
                    wallet_of(
                        self@,
                        WalletKey {
                            network,
                            descriptor: descriptor@,
                            change_descriptor: text_of(*change_descriptor),
                        },
                    ),
                )
            } else {
                None
            },
    {
        let owned = descriptor.to_owned();
        match self.find(network, &owned, change_descriptor) {
            Some(i) => {
                proof {
                    let key = WalletKey {
                        network,
                        descriptor: descriptor@,
                        change_descriptor: text_of(*change_descriptor),
                    };
                    let j = record_index(self@, key);
                    assert(self@[j].key == self@[i as int].key);
                }
                Some(self.entries[i].wallet.clone())
            },
            None => None,
        }
    }

    /// Takes the outcome of making a wallet for a key.
    ///
    /// If the key is registered, the registered wallet is handed out and the
    /// outcome is set aside. Otherwise a wallet that was made is registered
    /// and handed out, and a failure is handed on.
    pub fn register(
        &mut self,
        network: Network,
        descriptor: String,
        change_descriptor: Option<String>,
        created: Result<MemoryWallet, WalletError>,
    ) -> (r: Result<MemoryWallet, WalletError>)
        requires
            old(self).wf(),
        ensures
            final(self).wf(),
            r == register_spec(
                old(self)@,
                WalletKey {
                    network,
                    descriptor: descriptor@,
                    change_descriptor: text_of(change_descriptor),
                },
                created,
            ),
            final(self)@ == enrolled(
                old(self)@,
                WalletKey {
                    network,
                    descriptor: descriptor@,
                    change_descriptor: text_of(change_descriptor),
                },
                created,
            ),
    {
        let ghost key = WalletKey {
            network,
            descriptor: descriptor@,
            change_descriptor: text_of(change_descriptor),
        };
        match self.find(network, &descriptor, &change_descriptor) {
            Some(i) => {
                proof {
                    let j = record_index(self@, key);
                    assert(self@[j].key == self@[i as int].key);
                }
                Ok(self.entries[i].wallet.clone())
            },
            None => match created {
                Ok(wallet) => {
                    let ghost before = self@;
                    let shared = wallet.clone();
                    self.entries.push(
                        WalletEntry { network, descriptor, change_descriptor, wallet },
                    );
                    proof {
                        assert(self@ =~= before.push(WalletRecord { key, wallet }));
                        assert forall|a: int, b: int|
                            0 <= a < self@.len() && 0 <= b < self@.len() && (#[trigger] self@[a]).key
                                == (#[trigger] self@[b]).key implies a == b by {
                            if a < before.len() {
                                assert(self@[a] == before[a]);
                            }
                            if b < before.len() {
                                assert(self@[b] == before[b]);
                            }
                        }
                    }
                    Ok(shared)
                },
                Err(e) => Err(e),
            },
        }
    }
}

/// The wallet for a network, a descriptor and an optional change descriptor.
///
/// A wallet that is registered under this key is handed out as it is. Otherwise
/// the wallet library is asked to make one from this descriptor, this change
/// descriptor and this network: where it makes one, the new wallet is
/// registered and handed out; where it refuses, its failure is handed on and
/// the registry stays as it was. Either way, a wallet that was handed out is
/// registered afterwards, so the next call with this key hands out the same
/// wallet.
pub fn get_wallet(
    registry: &mut WalletRegistry,
    network: Network,
    descriptor: &str,
    change_descriptor: Option<String>,
) -> (r: Result<MemoryWallet, WalletError>)
    requires
        old(registry).wf(),
    ensures
        final(registry).wf(),
        registered(
            old(registry)@,
            WalletKey {
                network,
                descriptor: descriptor@,
                change_descriptor: text_of(change_descriptor),
            },
        ) ==> final(registry)@ == old(registry)@ && r == Ok::<MemoryWallet, WalletError>(
            wallet_of(
                old(registry)@,
                WalletKey {
                    network,
                    descriptor: descriptor@,
                    change_descriptor: text_of(change_descriptor),
                },
            ),
        ),
        !registered(
            old(registry)@,
            WalletKey {
                network,
                descriptor: descriptor@,
                change_descriptor: text_of(change_descriptor),
            },
        ) ==> match r {
            Ok(wallet) => final(registry)@ == old(registry)@.push(
                WalletRecord {
                    key: WalletKey {
                        network,
                        descriptor: descriptor@,
                        change_descriptor: text_of(change_descriptor),
                    },
                    wallet,
                },
            ),
            Err(_) => final(registry)@ == old(registry)@,
        },
        !registered(
            old(registry)@,
            WalletKey {
                network,
                descriptor: descriptor@,
                change_descriptor: text_of(change_descriptor),
            },
        ) ==> (r is Ok <==> wallet_owed(
            WalletKey {
                network,
                descriptor: descriptor@,
                change_descriptor: text_of(change_descriptor),
            },
        )),
        r matches Ok(wallet) ==> registered(
            final(registry)@,
            WalletKey {
                network,
                descriptor: descriptor@,
                change_descriptor: text_of(change_descriptor),
            },
        ) && wallet_of(
            final(registry)@,
            WalletKey {
                network,
                descriptor: descriptor@,
                change_descriptor: text_of(change_descriptor),
            },
        ) == wallet,
{
    let ghost key = WalletKey {
        network,
        descriptor: descriptor@,
        change_descriptor: text_of(change_descriptor),
    };
    match registry.lookup(network, descriptor, &change_descriptor) {
        Some(wallet) => {
            return Ok(wallet);
        },
        None => {},
    }
    let owned = descriptor.to_owned();
    let created = match make_wallet(&owned, change_descriptor.as_ref(), network) {
        Ok(wallet) => Ok(Arc::new(guard(wallet))),
        Err(failure) => Err(WalletError { message: failure_text(&failure) }),
    };
    let r = registry.register(network, owned, change_descriptor, created);
    proof {
        if r is Ok {
            let n = old(registry)@.len() as int;
            assert(registry@[n].key == key);
            let j = record_index(registry@, key);
            assert(registry@[j].key == registry@[n].key);
        }
    }
    r
}

} // verus!
