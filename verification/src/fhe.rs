//! The homomorphic layer: thin trusted wrappers around the FHE library.
//!
//! Every ciphertext of the protocol is carried together with two ghost
//! values: the plaintext it decrypts to and the identity of the key pair
//! it belongs to.  The wrappers below state, for each homomorphic
//! operation, what the operation's result decrypts to in terms of those
//! plaintexts — the correctness promise of the FHE scheme — and that it
//! belongs to the same key pair as its operands.  Decryption demands the
//! matching key pair, so verified code can never read a ciphertext under
//! a foreign key.  Everything computed *on* the ciphertexts is verified
//! against these contracts; only the wrappers themselves are trusted.
//!
//! Keys travel inside handles that carry the pair identity; the handles
//! can only be built here, so the identity cannot be forged.  The
//! homomorphic operations — the trivial encryption included, which the
//! library runs through its evaluation machinery — require the
//! evaluation key to be installed in the library's thread-local runtime
//! first; the `ServerKeyInstalled` witness can only be obtained by
//! installing it, and names the installed pair.  The witness describes
//! the thread it was produced on; this crate drives the protocol on one
//! thread.

use vstd::prelude::*;

use rand::seq::SliceRandom;

verus! {

/// An encrypted boolean.  Relies on tfhe's `FheBool`.
#[verifier::external_type_specification]
#[verifier::external_body]
pub struct ExFheBool(tfhe::FheBool);

/// An opaque 16-bit ciphertext.  tfhe's `FheUint16` is an alias of the
/// generic `FheUint`, whose trait bound is not public in this version,
/// so the generic type cannot be declared to the verifier; the struct
/// holds it opaquely instead.
#[verifier::external_body]
pub struct ActCt {
    inner: tfhe::FheUint16,
}

/// An opaque 32-bit ciphertext, held like [`ActCt`].
#[verifier::external_body]
pub struct TsCt {
    inner: tfhe::FheUint32,
}

/// An opaque holder of tfhe's `ClientKey`: the raw secret key can only
/// be touched by the wrappers of this module.
#[verifier::external_body]
pub struct ClientKeyCt {
    inner: tfhe::ClientKey,
}

/// An opaque holder of tfhe's `ServerKey`.
#[verifier::external_body]
pub struct ServerKeyCt {
    inner: tfhe::ServerKey,
}

/// An opaque holder of tfhe's `PublicKey`.
#[verifier::external_body]
pub struct PublicKeyCt {
    inner: tfhe::PublicKey,
}

/// The client key of one generated key pair, with the pair's ghost
/// identity.  Only [`fhe_generate_keys`] builds one, and the raw key
/// inside cannot be read or exported.
pub struct ClientKeyHandle {
    pub key: ClientKeyCt,
    pub kid: Ghost<int>,
}

/// The server (evaluation) key of one key pair, with the pair's ghost
/// identity.
pub struct ServerKeyHandle {
    pub key: ServerKeyCt,
    pub kid: Ghost<int>,
}

/// The public (encryption) key of one key pair, with the pair's ghost
/// identity.
pub struct PublicKeyHandle {
    pub key: PublicKeyCt,
    pub kid: Ghost<int>,
}

/// An encrypted activity index together with the ghost plaintext it
/// decrypts to and the key pair it belongs to.
pub struct EncAct {
    pub ct: ActCt,
    pub val: Ghost<u16>,
    pub kid: Ghost<int>,
}

/// An encrypted timestamp together with the ghost plaintext it decrypts
/// to and the key pair it belongs to.
pub struct EncTs {
    pub ct: TsCt,
    pub val: Ghost<u32>,
    pub kid: Ghost<int>,
}

/// An encrypted boolean together with the ghost truth value it decrypts
/// to and the key pair it belongs to.
pub struct EncBool {
    pub ct: tfhe::FheBool,
    pub val: Ghost<bool>,
    pub kid: Ghost<int>,
}

/// A token only this module can mint: its field is private, so no
/// witness can be forged outside.
pub struct InstallToken {
    ok: bool,
}

/// Witness that the server key of the named pair has been installed in
/// this thread's FHE runtime; homomorphic operations are only reachable
/// through it.
pub struct ServerKeyInstalled {
    pub token: InstallToken,
    pub kid: Ghost<int>,
}

/// Relies on tfhe's `generate_keys` with the default configuration: a
/// fresh client/server key pair.  Both handles carry the same pair
/// identity; nothing relates it to any other pair's.
#[verifier::external_body]
pub fn fhe_generate_keys() -> (r: (ClientKeyHandle, ServerKeyHandle))
    ensures
        r.0.kid@ == r.1.kid@,
{
    let (ck, sk) = tfhe::generate_keys(tfhe::ConfigBuilder::default().build());
    (
        ClientKeyHandle { key: ClientKeyCt { inner: ck }, kid: Ghost(vstd::pervasive::arbitrary()) },
        ServerKeyHandle { key: ServerKeyCt { inner: sk }, kid: Ghost(vstd::pervasive::arbitrary()) },
    )
}

/// Relies on `PublicKey::new`: derives the public encryption key of a
/// client key; it belongs to the same pair.
#[verifier::external_body]
pub fn fhe_public_key(ck: &ClientKeyHandle) -> (r: PublicKeyHandle)
    ensures
        r.kid@ == ck.kid@,
{
    PublicKeyHandle {
        key: PublicKeyCt { inner: tfhe::PublicKey::new(&ck.key.inner) },
        kid: Ghost(vstd::pervasive::arbitrary()),
    }
}

/// Relies on `ServerKey::clone`; the copy belongs to the same pair.
#[verifier::external_body]
pub fn clone_server_key(sk: &ServerKeyHandle) -> (r: ServerKeyHandle)
    ensures
        r.kid@ == sk.kid@,
{
    ServerKeyHandle {
        key: ServerKeyCt { inner: sk.key.inner.clone() },
        kid: Ghost(vstd::pervasive::arbitrary()),
    }
}

/// Relies on `PublicKey::clone`; the copy belongs to the same pair.
#[verifier::external_body]
pub fn clone_public_key(pk: &PublicKeyHandle) -> (r: PublicKeyHandle)
    ensures
        r.kid@ == pk.kid@,
{
    PublicKeyHandle {
        key: PublicKeyCt { inner: pk.key.inner.clone() },
        kid: Ghost(vstd::pervasive::arbitrary()),
    }
}

/// Relies on tfhe's `set_server_key`: installs the evaluation key in
/// this thread's FHE runtime, making homomorphic operations available.
/// The witness names the installed pair.
#[verifier::external_body]
pub fn install_server_key(sk: ServerKeyHandle) -> (r: ServerKeyInstalled)
    ensures
        r.kid@ == sk.kid@,
{
    tfhe::set_server_key(sk.key.inner);
    ServerKeyInstalled { token: InstallToken { ok: true }, kid: Ghost(vstd::pervasive::arbitrary()) }
}

/// Relies on `FheUint16::encrypt` under the client key: the ciphertext
/// decrypts to the encrypted value and belongs to the key's pair.
#[verifier::external_body]
pub fn encrypt_act_client(v: u16, ck: &ClientKeyHandle) -> (r: EncAct)
    ensures
        r.val@ == v,
        r.kid@ == ck.kid@,
{
    EncAct {
        ct: ActCt {
            inner: <tfhe::FheUint16 as tfhe::prelude::FheEncrypt<u16, tfhe::ClientKey>>::encrypt(
                v,
                &ck.key.inner,
            ),
        },
        val: Ghost(vstd::pervasive::arbitrary()),
        kid: Ghost(vstd::pervasive::arbitrary()),
    }
}

/// Relies on `FheUint16::encrypt_trivial`: a trivial ciphertext of the
/// value, used only in the debug mode that disables confidentiality.
/// The library builds it through its evaluation machinery and panics
/// when no server key is installed, so the witness is required; the
/// result is readable under any key, and is conservatively assigned to
/// the installed pair.
#[verifier::external_body]
pub fn encrypt_act_trivial(v: u16, w: &ServerKeyInstalled) -> (r: EncAct)
    ensures
        r.val@ == v,
        r.kid@ == w.kid@,
{
    EncAct {
        ct: ActCt {
            inner: <tfhe::FheUint16 as tfhe::prelude::FheTrivialEncrypt<u16>>::encrypt_trivial(v),
        },
        val: Ghost(vstd::pervasive::arbitrary()),
        kid: Ghost(vstd::pervasive::arbitrary()),
    }
}

/// Relies on `FheUint16::encrypt` under the public key.
#[verifier::external_body]
pub fn encrypt_act_public(v: u16, pk: &PublicKeyHandle) -> (r: EncAct)
    ensures
        r.val@ == v,
        r.kid@ == pk.kid@,
{
    EncAct {
        ct: ActCt {
            inner: <tfhe::FheUint16 as tfhe::prelude::FheEncrypt<u16, tfhe::PublicKey>>::encrypt(
                v,
                &pk.key.inner,
            ),
        },
        val: Ghost(vstd::pervasive::arbitrary()),
        kid: Ghost(vstd::pervasive::arbitrary()),
    }
}

/// Relies on `FheUint32::encrypt` under the client key.
#[verifier::external_body]
pub fn encrypt_ts_client(v: u32, ck: &ClientKeyHandle) -> (r: EncTs)
    ensures
        r.val@ == v,
        r.kid@ == ck.kid@,
{
    EncTs {
        ct: TsCt {
            inner: <tfhe::FheUint32 as tfhe::prelude::FheEncrypt<u32, tfhe::ClientKey>>::encrypt(
                v,
                &ck.key.inner,
            ),
        },
        val: Ghost(vstd::pervasive::arbitrary()),
        kid: Ghost(vstd::pervasive::arbitrary()),
    }
}

/// Relies on `FheUint32::encrypt_trivial`, as [`encrypt_act_trivial`]:
/// the witness is required because the library panics without an
/// installed server key.
#[verifier::external_body]
pub fn encrypt_ts_trivial(v: u32, w: &ServerKeyInstalled) -> (r: EncTs)
    ensures
        r.val@ == v,
        r.kid@ == w.kid@,
{
    EncTs {
        ct: TsCt {
            inner: <tfhe::FheUint32 as tfhe::prelude::FheTrivialEncrypt<u32>>::encrypt_trivial(v),
        },
        val: Ghost(vstd::pervasive::arbitrary()),
        kid: Ghost(vstd::pervasive::arbitrary()),
    }
}

/// Relies on `FheUint16::decrypt` under the matching client key: the
/// plaintext the protocol tracked for this ciphertext.  The ciphertext
/// must belong to this key's pair — the `requires` demands it, and
/// verified code can meet it only for ciphertexts produced under this
/// pair's client, public or server key.
#[verifier::external_body]
pub fn decrypt_act(a: &EncAct, ck: &ClientKeyHandle) -> (r: u16)
    requires
        a.kid@ == ck.kid@,
    ensures
        r == a.val@,
{
    <tfhe::FheUint16 as tfhe::prelude::FheDecrypt<u16>>::decrypt(&a.ct.inner, &ck.key.inner)
}

/// Relies on `FheUint16::clone`.
#[verifier::external_body]
pub fn clone_act(a: &EncAct) -> (r: EncAct)
    ensures
        r.val@ == a.val@,
        r.kid@ == a.kid@,
{
    EncAct {
        ct: ActCt { inner: a.ct.inner.clone() },
        val: Ghost(vstd::pervasive::arbitrary()),
        kid: Ghost(vstd::pervasive::arbitrary()),
    }
}

/// Relies on `FheUint32::clone`.
#[verifier::external_body]
pub fn clone_ts(a: &EncTs) -> (r: EncTs)
    ensures
        r.val@ == a.val@,
        r.kid@ == a.kid@,
{
    EncTs {
        ct: TsCt { inner: a.ct.inner.clone() },
        val: Ghost(vstd::pervasive::arbitrary()),
        kid: Ghost(vstd::pervasive::arbitrary()),
    }
}

/// Relies on `FheOrd::le` of an encrypted 32-bit value and a clear one:
/// the encrypted truth of `a <= y`.  The operand must belong to the
/// installed pair; the result does too.
#[verifier::external_body]
pub fn fhe_le_plain(a: &EncTs, y: u32, w: &ServerKeyInstalled) -> (r: EncBool)
    requires
        a.kid@ == w.kid@,
    ensures
        r.val@ == (a.val@ <= y),
        r.kid@ == w.kid@,
{
    EncBool {
        ct: tfhe::prelude::FheOrd::le(&a.ct.inner, y),
        val: Ghost(vstd::pervasive::arbitrary()),
        kid: Ghost(vstd::pervasive::arbitrary()),
    }
}

/// Relies on `FheOrd::ge` of an encrypted 16-bit value and a clear one:
/// the encrypted truth of `a >= y`.
#[verifier::external_body]
pub fn fhe_ge_plain_act(a: &EncAct, y: u16, w: &ServerKeyInstalled) -> (r: EncBool)
    requires
        a.kid@ == w.kid@,
    ensures
        r.val@ == (a.val@ >= y),
        r.kid@ == w.kid@,
{
    EncBool {
        ct: tfhe::prelude::FheOrd::ge(&a.ct.inner, y),
        val: Ghost(vstd::pervasive::arbitrary()),
        kid: Ghost(vstd::pervasive::arbitrary()),
    }
}

/// Relies on `FheBool`'s `Not`: the encrypted negation.
#[verifier::external_body]
pub fn fhe_not(a: &EncBool, w: &ServerKeyInstalled) -> (r: EncBool)
    requires
        a.kid@ == w.kid@,
    ensures
        r.val@ == !a.val@,
        r.kid@ == w.kid@,
{
    EncBool {
        ct: !&a.ct,
        val: Ghost(vstd::pervasive::arbitrary()),
        kid: Ghost(vstd::pervasive::arbitrary()),
    }
}

/// Relies on `FheBool`'s `BitOr`: the encrypted disjunction of operands
/// of the installed pair.
#[verifier::external_body]
pub fn fhe_or(a: &EncBool, b: &EncBool, w: &ServerKeyInstalled) -> (r: EncBool)
    requires
        a.kid@ == w.kid@,
        b.kid@ == w.kid@,
    ensures
        r.val@ == (a.val@ || b.val@),
        r.kid@ == w.kid@,
{
    EncBool {
        ct: &a.ct | &b.ct,
        val: Ghost(vstd::pervasive::arbitrary()),
        kid: Ghost(vstd::pervasive::arbitrary()),
    }
}

/// Relies on `FheBool`'s `BitAnd`: the encrypted conjunction of
/// operands of the installed pair.
#[verifier::external_body]
pub fn fhe_and(a: &EncBool, b: &EncBool, w: &ServerKeyInstalled) -> (r: EncBool)
    requires
        a.kid@ == w.kid@,
        b.kid@ == w.kid@,
    ensures
        r.val@ == (a.val@ && b.val@),
        r.kid@ == w.kid@,
{
    EncBool {
        ct: &a.ct & &b.ct,
        val: Ghost(vstd::pervasive::arbitrary()),
        kid: Ghost(vstd::pervasive::arbitrary()),
    }
}

/// Relies on `IfThenElse::select` on `FheBool`: the first activity
/// ciphertext when the condition holds, the second otherwise, without
/// revealing which.  All operands must belong to the installed pair.
#[verifier::external_body]
pub fn fhe_select_act(c: &EncBool, a: &EncAct, b: &EncAct, w: &ServerKeyInstalled) -> (r: EncAct)
    requires
        c.kid@ == w.kid@,
        a.kid@ == w.kid@,
        b.kid@ == w.kid@,
    ensures
        r.val@ == (if c.val@ {
            a.val@
        } else {
            b.val@
        }),
        r.kid@ == w.kid@,
{
    EncAct {
        ct: ActCt { inner: tfhe::prelude::IfThenElse::select(&c.ct, &a.ct.inner, &b.ct.inner) },
        val: Ghost(vstd::pervasive::arbitrary()),
        kid: Ghost(vstd::pervasive::arbitrary()),
    }
}

/// Relies on rand's `SliceRandom::shuffle` with the thread generator:
/// the result is a permutation of the input.
#[verifier::external_body]
pub fn shuffle_vec<T>(v: &mut Vec<T>)
    ensures
        final(v)@.to_multiset() == old(v)@.to_multiset(),
{
    v.shuffle(&mut rand::rng());
}

} // verus!
