//! Content digests (MD5, SHA-256) fed chunk by chunk, and their lower-case
//! hexadecimal rendering.

use vstd::prelude::*;
use crate::duplicates::HashAlgorithm;

verus! {

/// A running MD5 computation (`md5::Md5` of the `md-5` crate), opaque:
/// what it holds is known only through `md5_absorbed`.
#[verifier::external_body]
pub struct Md5State {
    inner: md5::Md5,
}

/// A running SHA-256 computation (`sha2::Sha256`), opaque: what it holds
/// is known only through `sha256_absorbed`.
#[verifier::external_body]
pub struct Sha256State {
    inner: sha2::Sha256,
}

/// The bytes an MD5 computation has absorbed so far.
pub uninterp spec fn md5_absorbed(h: Md5State) -> Seq<u8>;

/// The bytes a SHA-256 computation has absorbed so far.
pub uninterp spec fn sha256_absorbed(h: Sha256State) -> Seq<u8>;

/// The MD5 digest of a byte string, as `md5::Digest::finalize` gives it.
pub uninterp spec fn md5_digest(data: Seq<u8>) -> Seq<u8>;

/// The SHA-256 digest of a byte string, as `sha2::Digest::finalize` gives it.
pub uninterp spec fn sha256_digest(data: Seq<u8>) -> Seq<u8>;

/// `md5::Digest::new`: a computation that has absorbed nothing.
#[verifier::external_body]
fn md5_start() -> (h: Md5State)
    ensures
        md5_absorbed(h) == Seq::<u8>::empty(),
{
    Md5State { inner: <md5::Md5 as md5::Digest>::new() }
}

/// `md5::Digest::update`: appends `data` to what the computation has absorbed.
#[verifier::external_body]
fn md5_feed(h: &mut Md5State, data: &[u8])
    ensures
        md5_absorbed(*final(h)) == md5_absorbed(*old(h)) + data@,
{
    md5::Digest::update(&mut h.inner, data);
}

/// `md5::Digest::finalize`: the 16-byte MD5 digest of everything absorbed.
#[verifier::external_body]
fn md5_finish(h: Md5State) -> (d: Vec<u8>)
    ensures
        d@ == md5_digest(md5_absorbed(h)),
        d@.len() == 16,
{
    md5::Digest::finalize(h.inner).to_vec()
}

/// `sha2::Digest::new` for SHA-256: a computation that has absorbed nothing.
#[verifier::external_body]
fn sha256_start() -> (h: Sha256State)
    ensures
        sha256_absorbed(h) == Seq::<u8>::empty(),
{
    Sha256State { inner: <sha2::Sha256 as sha2::Digest>::new() }
}

/// `sha2::Digest::update`: appends `data` to what the computation has absorbed.
#[verifier::external_body]
fn sha256_feed(h: &mut Sha256State, data: &[u8])
    ensures
        sha256_absorbed(*final(h)) == sha256_absorbed(*old(h)) + data@,
{
    sha2::Digest::update(&mut h.inner, data);
}

/// `sha2::Digest::finalize` for SHA-256: the 32-byte digest of everything absorbed.
#[verifier::external_body]
fn sha256_finish(h: Sha256State) -> (d: Vec<u8>)
    ensures
        d@ == sha256_digest(sha256_absorbed(h)),
        d@.len() == 32,
{
    sha2::Digest::finalize(h.inner).to_vec()
}

/// The digest that `algo` computes of `data`.
pub open spec fn digest_of(algo: HashAlgorithm, data: Seq<u8>) -> Seq<u8> {
    match algo {
        HashAlgorithm::Md5 => md5_digest(data),
        HashAlgorithm::Sha256 => sha256_digest(data),
    }
}

/// Length in bytes of the digest that `algo` computes.
pub open spec fn digest_len(algo: HashAlgorithm) -> nat {
    match algo {
        HashAlgorithm::Md5 => 16,
        HashAlgorithm::Sha256 => 32,
    }
}

/// The lower-case hexadecimal digit for a value below 16.
pub open spec fn hex_digit(v: u8) -> char {
    if v < 10 {
        ((v + 48) as u8) as char
    } else {
        ((v + 87) as u8) as char
    }
}

/// Lower-case hexadecimal rendering, two digits per byte (the `{:x}` format of a digest).
pub open spec fn hex_lower(data: Seq<u8>) -> Seq<char>
    decreases data.len(),
{
    if data.len() == 0 {
        Seq::empty()
    } else {
        hex_lower(data.drop_last()) + seq![hex_digit(data.last() / 16), hex_digit(data.last() % 16)]
    }
}

proof fn lemma_hex_lower_len(data: Seq<u8>)
    ensures
        hex_lower(data).len() == 2 * data.len(),
    decreases data.len(),
{
    if data.len() > 0 {
        lemma_hex_lower_len(data.drop_last());
    }
}

fn hex_digit_char(v: u8) -> (c: char)
    requires
        v < 16,
    ensures
        c == hex_digit(v),
{
    if v < 10 {
        ((v + 48) as u8) as char
    } else {
        ((v + 87) as u8) as char
    }
}

/// Renders `data` as lower-case hexadecimal.
pub fn to_hex_lower(data: &[u8]) -> (s: String)
    ensures
        s@ == hex_lower(data@),
        s@.len() == 2 * data@.len(),
{
    let mut s = String::new();
    let mut i: usize = 0;
    while i < data.len()
        invariant
            i <= data.len(),
            s@ == hex_lower(data@.take(i as int)),
        decreases data.len() - i,
    {
        let b = data[i];
        crate::text::push_char(&mut s, hex_digit_char(b / 16));
        crate::text::push_char(&mut s, hex_digit_char(b % 16));
        assert(data@.take(i + 1).drop_last() == data@.take(i as int));
        i = i + 1;
    }
    assert(data@.take(data@.len() as int) == data@);
    proof {
        lemma_hex_lower_len(data@);
    }
    s
}

/// A running content digest with the algorithm chosen at start.
pub struct ContentHasher {
    state: HasherState,
}

enum HasherState {
    Md5(Md5State),
    Sha256(Sha256State),
}

impl ContentHasher {
    /// The algorithm this hasher computes.
    pub closed spec fn algorithm(&self) -> HashAlgorithm {
        match self.state {
            HasherState::Md5(_) => HashAlgorithm::Md5,
            HasherState::Sha256(_) => HashAlgorithm::Sha256,
        }
    }

    /// The bytes fed to this hasher so far.
    pub closed spec fn absorbed(&self) -> Seq<u8> {
        match self.state {
            HasherState::Md5(h) => md5_absorbed(h),
            HasherState::Sha256(h) => sha256_absorbed(h),
        }
    }

    /// A hasher for `algo` that has absorbed nothing.
    pub fn new(algo: HashAlgorithm) -> (h: ContentHasher)
        ensures
            h.algorithm() == algo,
            h.absorbed() == Seq::<u8>::empty(),
    {
        match algo {
            HashAlgorithm::Md5 => ContentHasher { state: HasherState::Md5(md5_start()) },
            HashAlgorithm::Sha256 => ContentHasher { state: HasherState::Sha256(sha256_start()) },
        }
    }

    /// Feeds the next chunk of content.
    pub fn update(&mut self, chunk: &[u8])
        ensures
            final(self).algorithm() == old(self).algorithm(),
            final(self).absorbed() == old(self).absorbed() + chunk@,
    {
        match &mut self.state {
            HasherState::Md5(h) => md5_feed(h, chunk),
            HasherState::Sha256(h) => sha256_feed(h, chunk),
        }
    }

    /// The lower-case hexadecimal digest of everything fed.
    pub fn finish(self) -> (hex: String)
        ensures
            hex@ == hex_lower(digest_of(self.algorithm(), self.absorbed())),
            hex@.len() == 2 * digest_len(self.algorithm()),
    {
        let digest = match self.state {
            HasherState::Md5(h) => md5_finish(h),
            HasherState::Sha256(h) => sha256_finish(h),
        };
        to_hex_lower(digest.as_slice())
    }
}

}
