//! Wallets: a PKCS#8 key pair and the address derived from its public key.
//! An address is base58 over a version byte, the key hash
//! RIPEMD-160(SHA-256(public key)), and a 4-byte checksum.

use vstd::prelude::*;
use crate::codec::copy_bytes;
use crate::transaction::address_key;
use crate::crypto::{
    base58_encode, base58_of, public_key, public_key_of, random_private_key, ripemd160,
    ripemd160_of, sha256, sha256_of,
};

verus! {

pub const VERSION: u8 = 0x00;

pub const ADDRESS_CHECKSUM_LEN: usize = 4;

/// The key hash of a public key.
pub open spec fn key_hash(pub_key: Seq<u8>) -> Seq<u8> {
    ripemd160_of(sha256_of(pub_key))
}

/// The first four bytes of the double SHA-256 of a payload.
pub open spec fn checksum_of(payload: Seq<u8>) -> Seq<u8> {
    sha256_of(sha256_of(payload)).take(ADDRESS_CHECKSUM_LEN as int)
}

/// The bytes that an address encodes for a public key.
pub open spec fn address_payload(pub_key: Seq<u8>) -> Seq<u8> {
    let p = seq![VERSION] + key_hash(pub_key);
    p + checksum_of(p)
}

pub open spec fn address_of(pub_key: Seq<u8>) -> Seq<char> {
    base58_of(address_payload(pub_key))
}

pub fn hash_encode_pub_key(pub_key: &[u8]) -> (r: Vec<u8>)
    ensures
        r@ == key_hash(pub_key@),
        r@.len() == 20,
{
    let digest = sha256(pub_key);
    ripemd160(digest.as_slice())
}

pub fn checksum(payload: &[u8]) -> (r: Vec<u8>)
    ensures
        r@ == checksum_of(payload@),
        r@.len() == ADDRESS_CHECKSUM_LEN,
{
    let first = sha256(payload);
    let second = sha256(first.as_slice());
    let mut r: Vec<u8> = Vec::new();
    let mut i: usize = 0;
    while i < ADDRESS_CHECKSUM_LEN
        invariant
            i <= ADDRESS_CHECKSUM_LEN,
            second@.len() == 32,
            r@ == second@.take(i as int),
        decreases ADDRESS_CHECKSUM_LEN - i,
    {
        r.push(second[i]);
        i = i + 1;
        assert(r@ =~= second@.take(i as int));
    }
    r
}

pub struct Wallet {
    pub personal_key: Vec<u8>,
}

impl Wallet {
    /// A wallet with a fresh random key pair; `None` if no key could be made.
    pub fn new() -> (r: Option<Wallet>) {
        match random_private_key() {
            Some(key) => Some(Wallet { personal_key: key }),
            None => None,
        }
    }

    /// A wallet over an existing PKCS#8 document.
    pub fn from_key(pkcs8: Vec<u8>) -> (r: Wallet)
        ensures
            r.personal_key@ == pkcs8@,
    {
        Wallet { personal_key: pkcs8 }
    }

    pub fn get_personal_key(&self) -> (r: Vec<u8>)
        ensures
            r@ == self.personal_key@,
    {
        copy_bytes(self.personal_key.as_slice())
    }

    /// The public key of the wallet's key pair.
    pub fn get_public_key(&self) -> (r: Option<Vec<u8>>)
        ensures
            r matches Some(k) ==> public_key_of(self.personal_key@) == Some(k@),
    {
        public_key(self.personal_key.as_slice())
    }

    /// The wallet's address, which locks outputs to the key hash of its public
    /// key; `None` when no key pair could be read from its key.
    pub fn get_address(&self) -> (r: Option<String>)
        ensures
            r matches Some(a) ==> (public_key_of(self.personal_key@) matches Some(pk) && a@ == address_of(pk)
                && address_key(a@) == Some(key_hash(pk))),
    {
        let pk = match self.get_public_key() {
            Some(pk) => pk,
            None => return None,
        };
        let pub_key_hash = hash_encode_pub_key(pk.as_slice());
        let mut payload: Vec<u8> = Vec::new();
        payload.push(VERSION);
        let mut i: usize = 0;
        while i < pub_key_hash.len()
            invariant
                i <= pub_key_hash@.len(),
                payload@ == seq![VERSION] + pub_key_hash@.take(i as int),
            decreases pub_key_hash@.len() - i,
        {
            payload.push(pub_key_hash[i]);
            i = i + 1;
            assert(payload@ =~= seq![VERSION] + pub_key_hash@.take(i as int));
        }
        assert(pub_key_hash@.take(pub_key_hash@.len() as int) =~= pub_key_hash@);
        let sum = checksum(payload.as_slice());
        let ghost p = payload@;
        let mut j: usize = 0;
        while j < sum.len()
            invariant
                j <= sum@.len(),
                payload@ == p + sum@.take(j as int),
            decreases sum@.len() - j,
        {
            payload.push(sum[j]);
            j = j + 1;
            assert(payload@ =~= p + sum@.take(j as int));
        }
        assert(sum@.take(sum@.len() as int) =~= sum@);
        assert(payload@ == address_payload(pk@));
        assert(sum@.len() == 4);
        assert(payload@.subrange(1, payload@.len() - ADDRESS_CHECKSUM_LEN) =~= key_hash(pk@));
        let a = base58_encode(payload.as_slice());
        Some(a)
    }
}

pub struct WalletEntry {
    pub address: String,
    pub wallet: Wallet,
}

/// Wallets by address; no address occurs twice.
pub struct WalletMap {
    pub wallets: Vec<WalletEntry>,
}

impl WalletMap {
    /// The addresses and keys, in order of creation.
    pub open spec fn entries(&self) -> Seq<(Seq<char>, Seq<u8>)> {
        self.wallets@.map_values(|e: WalletEntry| (e.address@, e.wallet.personal_key@))
    }

    /// No address occurs twice, and each is the address of its key's public key.
    pub open spec fn wf(&self) -> bool {
        &&& forall|i: int, j: int|
            0 <= i < j < self.wallets@.len() ==> #[trigger] self.wallets@[i].address@
                != #[trigger] self.wallets@[j].address@
        &&& forall|i: int|
            0 <= i < self.wallets@.len() ==> (public_key_of(#[trigger] self.wallets@[i].wallet.personal_key@) matches Some(pk)
                && self.wallets@[i].address@ == address_of(pk))
    }

    /// An empty map.
    pub fn new() -> (r: Self)
        ensures
            r.wf(),
            r.entries().len() == 0,
    {
        WalletMap { wallets: Vec::new() }
    }

    fn position(&self, address: &String) -> (r: Option<usize>)
        ensures
            match r {
                Some(i) => i < self.wallets@.len() && self.wallets@[i as int].address@ == address@,
                None => forall|i: int|
                    0 <= i < self.wallets@.len() ==> self.wallets@[i].address@ != address@,
            },
    {
        let mut i: usize = 0;
        while i < self.wallets.len()
            invariant
                i <= self.wallets@.len(),
                forall|j: int| 0 <= j < i ==> self.wallets@[j].address@ != address@,
            decreases self.wallets@.len() - i,
        {
            if self.wallets[i].address == *address {
                return Some(i);
            }
            i = i + 1;
        }
        None
    }

    /// Adds a wallet under its address; `None`, with the map unchanged, when no
    /// key pair could be read from its key or the address is already present.
    pub fn add_wallet(&mut self, wallet: Wallet) -> (r: Option<String>)
        requires
            old(self).wf(),
        ensures
            final(self).wf(),
            match r {
                Some(a) => {
                    &&& public_key_of(wallet.personal_key@) matches Some(pk) && a@ == address_of(pk)
                    &&& forall|i: int| 0 <= i < old(self).entries().len() ==> old(self).entries()[i].0 != a@
                    &&& final(self).entries() == old(self).entries().push((a@, wallet.personal_key@))
                },
                None => final(self).entries() == old(self).entries(),
            },
    {
        let address = match wallet.get_address() {
            Some(a) => a,
            None => return None,
        };
        match self.position(&address) {
            Some(_) => None,
            None => {
                let result = address.clone();
                self.wallets.push(WalletEntry { address, wallet });
                assert(self.entries() =~= old(self).entries().push((result@, self.wallets@.last().wallet.personal_key@)));
                Some(result)
            },
        }
    }

    /// Creates a wallet with a fresh key and adds it.
    pub fn create_wallet(&mut self) -> (r: Option<String>)
        requires
            old(self).wf(),
        ensures
            final(self).wf(),
            r.is_some() ==> final(self).entries().len() == old(self).entries().len() + 1,
            r.is_none() ==> final(self).entries() == old(self).entries(),
            r matches Some(a) ==> final(self).entries().last().0 == a@,
            r matches Some(a) ==> (public_key_of(final(self).entries().last().1) matches Some(pk) && a@
                == address_of(pk)),
    {
        match Wallet::new() {
            Some(w) => self.add_wallet(w),
            None => None,
        }
    }

    /// The wallet stored under an address.
    pub fn get_wallet(&self, address: &str) -> (r: Option<&Wallet>)
        requires
            self.wf(),
        ensures
            match r {
                Some(w) => (exists|i: int|
                    0 <= i < self.entries().len() && self.entries()[i] == (address@, w.personal_key@))
                    && (public_key_of(w.personal_key@) matches Some(pk) && address@ == address_of(pk)),
                None => forall|i: int|
                    0 <= i < self.entries().len() ==> self.entries()[i].0 != address@,
            },
    {
        let key = address.to_owned();
        match self.position(&key) {
            Some(i) => {
                assert(self.entries()[i as int] == (address@, self.wallets@[i as int].wallet.personal_key@));
                Some(&self.wallets[i].wallet)
            },
            None => {
                assert forall|i: int| 0 <= i < self.entries().len() implies self.entries()[i].0 != address@ by {
                    assert(self.entries()[i].0 == self.wallets@[i].address@);
                }
                None
            },
        }
    }

    /// The addresses, in order of creation.
    pub fn get_addresses(&self) -> (r: Vec<String>)
        ensures
            r@.len() == self.entries().len(),
            forall|i: int| 0 <= i < r@.len() ==> r@[i]@ == self.entries()[i].0,
    {
        let mut r: Vec<String> = Vec::new();
        let mut i: usize = 0;
        while i < self.wallets.len()
            invariant
                i <= self.wallets@.len(),
                r@.len() == i,
                forall|j: int| 0 <= j < i ==> r@[j]@ == self.wallets@[j].address@,
            decreases self.wallets@.len() - i,
        {
            r.push(self.wallets[i].address.clone());
            i = i + 1;
        }
        r
    }
}

} // verus!
