//! The certificate chain and private key of the listeners.

use base64::engine::general_purpose::STANDARD;
use base64::Engine;
use rustls_pki_types::{CertificateDer, PrivateKeyDer};
use vstd::prelude::*;
use vstd::string::*;

use crate::text::{from_chars, to_chars, trim, trimmed};

verus! {

/// What `STANDARD.decode` of `base64` makes of a text: the bytes, or the text of its
/// error.
pub uninterp spec fn standard_base64(text: Seq<char>) -> Result<Seq<u8>, Seq<char>>;

/// `STANDARD.decode` of `base64` decodes the standard alphabet with padding. A name
/// stands for the result. The error is handed on as its text.
#[verifier::external_body]
fn decode_standard(text: &str) -> (r: Result<Vec<u8>, String>)
    ensures
        match r {
            Ok(bytes) => standard_base64(text@) == Ok::<Seq<u8>, Seq<char>>(bytes@),
            Err(e) => standard_base64(text@) == Err::<Seq<u8>, Seq<char>>(e@),
        },
{
    STANDARD.decode(text).map_err(|e| e.to_string())
}

/// Why there is no usable certificate chain and key.
#[derive(Debug)]
pub enum TlsError {
    /// Exactly one of the two environment variables is set.
    HalfSet,
    CertNotBase64(String),
    KeyNotBase64(String),
    CertPathUnset,
    KeyPathUnset,
    CertsUnreadable(String),
    NoCerts,
    KeyUnreadable(String),
    NoKey,
    InvalidPair(String),
}

pub enum TlsErrorView {
    HalfSet,
    CertNotBase64(Seq<char>),
    KeyNotBase64(Seq<char>),
    CertPathUnset,
    KeyPathUnset,
    CertsUnreadable(Seq<char>),
    NoCerts,
    KeyUnreadable(Seq<char>),
    NoKey,
    InvalidPair(Seq<char>),
}

impl View for TlsError {
    type V = TlsErrorView;

    open spec fn view(&self) -> TlsErrorView {
        match self {
            TlsError::HalfSet => TlsErrorView::HalfSet,
            TlsError::CertNotBase64(s) => TlsErrorView::CertNotBase64(s@),
            TlsError::KeyNotBase64(s) => TlsErrorView::KeyNotBase64(s@),
            TlsError::CertPathUnset => TlsErrorView::CertPathUnset,
            TlsError::KeyPathUnset => TlsErrorView::KeyPathUnset,
            TlsError::CertsUnreadable(s) => TlsErrorView::CertsUnreadable(s@),
            TlsError::NoCerts => TlsErrorView::NoCerts,
            TlsError::KeyUnreadable(s) => TlsErrorView::KeyUnreadable(s@),
            TlsError::NoKey => TlsErrorView::NoKey,
            TlsError::InvalidPair(s) => TlsErrorView::InvalidPair(s@),
        }
    }
}

impl TlsErrorView {
    /// What is wrong, in words.
    pub open spec fn text(self) -> Seq<char> {
        match self {
            TlsErrorView::HalfSet =>
                "both DNS_RS_TLS_CERT_B64 and DNS_RS_TLS_KEY_B64 must be set together, or neither"@,
            TlsErrorView::CertNotBase64(s) => "DNS_RS_TLS_CERT_B64 is not valid base64: "@ + s,
            TlsErrorView::KeyNotBase64(s) => "DNS_RS_TLS_KEY_B64 is not valid base64: "@ + s,
            TlsErrorView::CertPathUnset => "server.tls_cert is not set"@,
            TlsErrorView::KeyPathUnset => "server.tls_key is not set"@,
            TlsErrorView::CertsUnreadable(s) => "failed to parse certificate chain: "@ + s,
            TlsErrorView::NoCerts => "no certificates found"@,
            TlsErrorView::KeyUnreadable(s) => "failed to parse private key: "@ + s,
            TlsErrorView::NoKey => "no private key found"@,
            TlsErrorView::InvalidPair(s) => "invalid TLS certificate/key pair: "@ + s,
        }
    }
}

fn with_cause(text: &str, cause: &String) -> (r: String)
    ensures
        r@ == text@ + cause@,
{
    let mut r: String = text.to_owned();
    r.append(cause.as_str());
    r
}

impl TlsError {
    /// What is wrong, in words.
    pub fn message(&self) -> (r: String)
        ensures
            r@ == self@.text(),
    {
        match self {
            TlsError::HalfSet =>
                "both DNS_RS_TLS_CERT_B64 and DNS_RS_TLS_KEY_B64 must be set together, or neither".to_owned(),
            TlsError::CertNotBase64(s) => with_cause("DNS_RS_TLS_CERT_B64 is not valid base64: ", s),
            TlsError::KeyNotBase64(s) => with_cause("DNS_RS_TLS_KEY_B64 is not valid base64: ", s),
            TlsError::CertPathUnset => "server.tls_cert is not set".to_owned(),
            TlsError::KeyPathUnset => "server.tls_key is not set".to_owned(),
            TlsError::CertsUnreadable(s) => with_cause("failed to parse certificate chain: ", s),
            TlsError::NoCerts => "no certificates found".to_owned(),
            TlsError::KeyUnreadable(s) => with_cause("failed to parse private key: ", s),
            TlsError::NoKey => "no private key found".to_owned(),
            TlsError::InvalidPair(s) => with_cause("invalid TLS certificate/key pair: ", s),
        }
    }
}

/// Where the certificate chain and the key come from.
pub enum TlsSource {
    /// These are the contents of the one and the other.
    Contents(Vec<u8>, Vec<u8>),
    /// They are in the files at these paths.
    Files(String, String),
}

pub enum TlsSourceView {
    Contents(Seq<u8>, Seq<u8>),
    Files(Seq<char>, Seq<char>),
}

impl View for TlsSource {
    type V = TlsSourceView;

    open spec fn view(&self) -> TlsSourceView {
        match self {
            TlsSource::Contents(cert, key) => TlsSourceView::Contents(cert@, key@),
            TlsSource::Files(cert, key) => TlsSourceView::Files(cert@, key@),
        }
    }
}

pub open spec fn text_in(s: Option<&str>) -> Option<Seq<char>> {
    match s {
        Some(s) => Some(s@),
        None => None,
    }
}

pub open spec fn path_in(s: Option<String>) -> Option<Seq<char>> {
    match s {
        Some(s) => Some(s@),
        None => None,
    }
}

/// Both parts as they were decoded, or the error of the first that could not be.
pub open spec fn both_decoded(
    cert: Result<Seq<u8>, Seq<char>>,
    key: Result<Seq<u8>, Seq<char>>,
) -> Result<TlsSourceView, TlsErrorView> {
    match (cert, key) {
        (Err(e), _) => Err(TlsErrorView::CertNotBase64(e)),
        (Ok(_), Err(e)) => Err(TlsErrorView::KeyNotBase64(e)),
        (Ok(cert), Ok(key)) => Ok(TlsSourceView::Contents(cert, key)),
    }
}

/// Both paths, or what is missing.
pub open spec fn both_paths(cert: Option<Seq<char>>, key: Option<Seq<char>>) -> Result<
    TlsSourceView,
    TlsErrorView,
> {
    match (cert, key) {
        (None, _) => Err(TlsErrorView::CertPathUnset),
        (Some(_), None) => Err(TlsErrorView::KeyPathUnset),
        (Some(cert), Some(key)) => Ok(TlsSourceView::Files(cert, key)),
    }
}

/// Where the certificate chain and the key come from: if both environment
/// variables are set, out of these, which hold them base64-encoded, possibly with
/// white space around it; if neither is, out of the files at the configured paths.
pub open spec fn tls_source(
    cert_env: Option<Seq<char>>,
    key_env: Option<Seq<char>>,
    cert_path: Option<Seq<char>>,
    key_path: Option<Seq<char>>,
) -> Result<TlsSourceView, TlsErrorView> {
    match (cert_env, key_env) {
        (Some(cert), Some(key)) => both_decoded(
            standard_base64(trim(cert)),
            standard_base64(trim(key)),
        ),
        (None, None) => both_paths(cert_path, key_path),
        _ => Err(TlsErrorView::HalfSet),
    }
}

pub open spec fn outcome(r: Result<TlsSource, TlsError>) -> Result<TlsSourceView, TlsErrorView> {
    match r {
        Ok(s) => Ok(s@),
        Err(e) => Err(e@),
    }
}

pub open spec fn bytes_or_text(r: Result<Vec<u8>, String>) -> Result<Seq<u8>, Seq<char>> {
    match r {
        Ok(b) => Ok(b@),
        Err(e) => Err(e@),
    }
}

/// Puts the two decoded parts together.
pub fn decoded_material(cert: Result<Vec<u8>, String>, key: Result<Vec<u8>, String>) -> (r: Result<
    TlsSource,
    TlsError,
>)
    ensures
        outcome(r) == both_decoded(bytes_or_text(cert), bytes_or_text(key)),
{
    match cert {
        Err(e) => Err(TlsError::CertNotBase64(e)),
        Ok(cert) => match key {
            Err(e) => Err(TlsError::KeyNotBase64(e)),
            Ok(key) => Ok(TlsSource::Contents(cert, key)),
        },
    }
}

/// Finds out where the certificate chain and the key come from, by the values of
/// the two environment variables that may hold them and the configured paths.
pub fn resolve_tls_material(
    cert_env: Option<&str>,
    key_env: Option<&str>,
    cert_path: &Option<String>,
    key_path: &Option<String>,
) -> (r: Result<TlsSource, TlsError>)
    ensures
        outcome(r) == tls_source(
            text_in(cert_env),
            text_in(key_env),
            path_in(*cert_path),
            path_in(*key_path),
        ),
{
    match (cert_env, key_env) {
        (Some(cert), Some(key)) => {
            let cert_chars: Vec<char> = to_chars(cert);
            let key_chars: Vec<char> = to_chars(key);
            let cert_text: String = from_chars(trimmed(cert_chars.as_slice()));
            let key_text: String = from_chars(trimmed(key_chars.as_slice()));
            decoded_material(
                decode_standard(cert_text.as_str()),
                decode_standard(key_text.as_str()),
            )
        },
        (None, None) => match cert_path {
            None => Err(TlsError::CertPathUnset),
            Some(cert) => match key_path {
                None => Err(TlsError::KeyPathUnset),
                Some(key) => Ok(TlsSource::Files(cert.clone(), key.clone())),
            },
        },
        _ => Err(TlsError::HalfSet),
    }
}

/// The certificates in a PEM file, or the text of the error of reading it.
pub uninterp spec fn pem_certs(pem: Seq<u8>) -> Result<Seq<Seq<u8>>, Seq<char>>;

/// How a private key is encoded.
#[derive(Debug, Clone, Copy, PartialEq, Eq, Structural)]
pub enum KeyKind {
    Pkcs1,
    Sec1,
    Pkcs8,
}

/// A private key in DER.
pub struct PrivateKey {
    pub kind: KeyKind,
    pub der: Vec<u8>,
}

#[verifier::ext_equal]
pub struct KeyView {
    pub kind: KeyKind,
    pub der: Seq<u8>,
}

impl View for PrivateKey {
    type V = KeyView;

    open spec fn view(&self) -> KeyView {
        KeyView { kind: self.kind, der: self.der@ }
    }
}

/// The first private key in a PEM file, if it has one, or the text of the error of
/// reading it.
pub uninterp spec fn pem_key(pem: Seq<u8>) -> Result<Option<KeyView>, Seq<char>>;

pub open spec fn ders(certs: Seq<Vec<u8>>) -> Seq<Seq<u8>> {
    certs.map_values(|c: Vec<u8>| c@)
}

/// `certs` of `rustls_pemfile` gives the certificates in a PEM file, in DER. A name
/// stands for the result. The error is handed on as its text.
#[verifier::external_body]
fn read_certs(pem: &[u8]) -> (r: Result<Vec<Vec<u8>>, String>)
    ensures
        match r {
            Ok(certs) => pem_certs(pem@) == Ok::<Seq<Seq<u8>>, Seq<char>>(ders(certs@)),
            Err(e) => pem_certs(pem@) == Err::<Seq<Seq<u8>>, Seq<char>>(e@),
        },
{
    rustls_pemfile::certs(&mut std::io::Cursor::new(pem))
        .map(|c| c.map(|c| c.to_vec()).map_err(|e| e.to_string()))
        .collect()
}

/// `private_key` of `rustls_pemfile` gives the first private key in a PEM file, if
/// there is one: its bytes in DER, and how the label in the file says that they are
/// encoded. A name stands for the result. The error is handed on as its text; so is
/// a kind of key beyond the three that `rustls_pemfile` gives.
#[verifier::external_body]
fn read_key(pem: &[u8]) -> (r: Result<Option<PrivateKey>, String>)
    ensures
        match r {
            Ok(Some(key)) => pem_key(pem@) == Ok::<Option<KeyView>, Seq<char>>(Some(key@)),
            Ok(None) => pem_key(pem@) == Ok::<Option<KeyView>, Seq<char>>(None),
            Err(e) => pem_key(pem@) == Err::<Option<KeyView>, Seq<char>>(e@),
        },
{
    let read = rustls_pemfile::private_key(&mut std::io::Cursor::new(pem));
    let key = |k: PrivateKeyDer<'static>| Ok(PrivateKey {
        kind: match &k {
            PrivateKeyDer::Pkcs1(_) => KeyKind::Pkcs1,
            PrivateKeyDer::Sec1(_) => KeyKind::Sec1,
            PrivateKeyDer::Pkcs8(_) => KeyKind::Pkcs8,
            _ => return Err("unsupported private key".to_string()),
        },
        der: k.secret_der().to_vec(),
    });
    read.map_err(|e| e.to_string())?.map(key).transpose()
}

/// The certificate chain, which must have a certificate.
pub fn check_certs(read: Result<Vec<Vec<u8>>, String>) -> (r: Result<Vec<Vec<u8>>, TlsError>)
    ensures
        match read {
            Err(cause) => r matches Err(e) && e@ == TlsErrorView::CertsUnreadable(cause@),
            Ok(certs) => if certs@.len() == 0 {
                r matches Err(e) && e@ == TlsErrorView::NoCerts
            } else {
                r == Ok::<Vec<Vec<u8>>, TlsError>(certs)
            },
        },
{
    match read {
        Err(e) => Err(TlsError::CertsUnreadable(e)),
        Ok(certs) => if certs.len() == 0 {
            Err(TlsError::NoCerts)
        } else {
            Ok(certs)
        },
    }
}

/// The private key, which must be there.
pub fn check_key(read: Result<Option<PrivateKey>, String>) -> (r: Result<PrivateKey, TlsError>)
    ensures
        match read {
            Err(cause) => r matches Err(e) && e@ == TlsErrorView::KeyUnreadable(cause@),
            Ok(None) => r matches Err(e) && e@ == TlsErrorView::NoKey,
            Ok(Some(key)) => r == Ok::<PrivateKey, TlsError>(key),
        },
{
    match read {
        Err(e) => Err(TlsError::KeyUnreadable(e)),
        Ok(None) => Err(TlsError::NoKey),
        Ok(Some(key)) => Ok(key),
    }
}

/// Reads a certificate chain.
pub fn load_certs(pem: &[u8]) -> (r: Result<Vec<Vec<u8>>, TlsError>)
    ensures
        match pem_certs(pem@) {
            Err(cause) => r matches Err(e) && e@ == TlsErrorView::CertsUnreadable(cause),
            Ok(certs) => if certs.len() == 0 {
                r matches Err(e) && e@ == TlsErrorView::NoCerts
            } else {
                r matches Ok(v) && ders(v@) == certs
            },
        },
{
    check_certs(read_certs(pem))
}

/// Reads a private key.
pub fn load_key(pem: &[u8]) -> (r: Result<PrivateKey, TlsError>)
    ensures
        match pem_key(pem@) {
            Err(cause) => r matches Err(e) && e@ == TlsErrorView::KeyUnreadable(cause),
            Ok(None) => r matches Err(e) && e@ == TlsErrorView::NoKey,
            Ok(Some(key)) => r matches Ok(v) && v@ == key,
        },
{
    check_key(read_key(pem))
}

/// A certificate chain with its private key, ready for use by a TLS server.
#[verifier::external_type_specification]
#[verifier::external_body]
pub struct ExCertifiedKey(rustls::sign::CertifiedKey);

/// The certificates that a certified key presents, in DER, its own first.
pub uninterp spec fn chain_of(key: rustls::sign::CertifiedKey) -> Seq<Seq<u8>>;

/// The private key that a certified key signs with.
pub uninterp spec fn key_of(key: rustls::sign::CertifiedKey) -> KeyView;

/// The text of the error that `rustls` has with a certificate chain and a key, if it
/// has one.
pub uninterp spec fn pair_error(certs: Seq<Seq<u8>>, key: KeyView) -> Option<Seq<char>>;

/// `CertifiedKey::from_der` of `rustls` puts a certificate chain and a key together,
/// here with the `ring` provider: the result presents exactly that chain and signs
/// with that key. A name stands for whether it fails and with which text.
#[verifier::external_body]
fn certify(certs: &Vec<Vec<u8>>, key: &PrivateKey) -> (r: Result<rustls::sign::CertifiedKey, String>)
    ensures
        match r {
            Ok(k) => {
                &&& pair_error(ders(certs@), key@) is None
                &&& chain_of(k) == ders(certs@)
                &&& key_of(k) == key@
            },
            Err(e) => pair_error(ders(certs@), key@) == Some(e@),
        },
{
    let chain = certs.iter().map(|c| CertificateDer::from(c.clone())).collect();
    let der = key.der.clone();
    let key = match key.kind {
        KeyKind::Pkcs1 => PrivateKeyDer::Pkcs1(der.into()),
        KeyKind::Sec1 => PrivateKeyDer::Sec1(der.into()),
        KeyKind::Pkcs8 => PrivateKeyDer::Pkcs8(der.into()),
    };
    rustls::sign::CertifiedKey::from_der(chain, key, &rustls::crypto::ring::default_provider())
        .map_err(|e| e.to_string())
}

/// Reads what a server's configuration is made of: a certificate chain and the
/// private key that belongs to it, both in PEM. The result presents the whole chain
/// and signs with the key.
pub fn load_server_config(cert_pem: &[u8], key_pem: &[u8]) -> (r: Result<
    rustls::sign::CertifiedKey,
    TlsError,
>)
    ensures
        match (pem_certs(cert_pem@), pem_key(key_pem@)) {
            (Err(cause), _) => r matches Err(e) && e@ == TlsErrorView::CertsUnreadable(cause),
            (Ok(certs), key) => if certs.len() == 0 {
                r matches Err(e) && e@ == TlsErrorView::NoCerts
            } else {
                match key {
                    Err(cause) => r matches Err(e) && e@ == TlsErrorView::KeyUnreadable(cause),
                    Ok(None) => r matches Err(e) && e@ == TlsErrorView::NoKey,
                    Ok(Some(key)) => match pair_error(certs, key) {
                        Some(cause) => r matches Err(e) && e@ == TlsErrorView::InvalidPair(cause),
                        None => r matches Ok(k) && chain_of(k) == certs && key_of(k) == key,
                    },
                }
            },
        },
{
    let certs: Vec<Vec<u8>> = match load_certs(cert_pem) {
        Ok(certs) => certs,
        Err(e) => {
            return Err(e);
        },
    };
    let key: PrivateKey = match load_key(key_pem) {
        Ok(key) => key,
        Err(e) => {
            return Err(e);
        },
    };
    match certify(&certs, &key) {
        Ok(certified) => Ok(certified),
        Err(e) => Err(TlsError::InvalidPair(e)),
    }
}

/// Where certificate and key come from. If both are in the environment, from there, in
/// base64 and with white space around it or not, whatever paths are configured. If neither
/// is, out of the configured files. One without the other is refused.
pub proof fn law_where_certificates_come_from(
    cert: Seq<char>,
    key: Seq<char>,
    cert_path: Option<Seq<char>>,
    key_path: Option<Seq<char>>,
)
    ensures
        match (standard_base64(trim(cert)), standard_base64(trim(key))) {
            (Ok(c), Ok(k)) => tls_source(Some(cert), Some(key), cert_path, key_path) == Ok::<
                TlsSourceView,
                TlsErrorView,
            >(TlsSourceView::Contents(c, k)),
            (Ok(_), Err(e)) => tls_source(Some(cert), Some(key), cert_path, key_path) == Err::<
                TlsSourceView,
                TlsErrorView,
            >(TlsErrorView::KeyNotBase64(e)),
            (Err(e), _) => tls_source(Some(cert), Some(key), cert_path, key_path) == Err::<
                TlsSourceView,
                TlsErrorView,
            >(TlsErrorView::CertNotBase64(e)),
        },
        tls_source(Some(cert), None, cert_path, key_path) == Err::<TlsSourceView, TlsErrorView>(
            TlsErrorView::HalfSet,
        ),
        tls_source(None, Some(key), cert_path, key_path) == Err::<TlsSourceView, TlsErrorView>(
            TlsErrorView::HalfSet,
        ),
        tls_source(None, None, Some(cert), Some(key)) == Ok::<TlsSourceView, TlsErrorView>(
            TlsSourceView::Files(cert, key),
        ),
        tls_source(None, None, None, key_path) == Err::<TlsSourceView, TlsErrorView>(
            TlsErrorView::CertPathUnset,
        ),
        tls_source(None, None, Some(cert), None) == Err::<TlsSourceView, TlsErrorView>(
            TlsErrorView::KeyPathUnset,
        ),
{
}

} // verus!
