use vstd::prelude::*;
use vstd::arithmetic::power2::{lemma2_to64, pow2};
use vstd::string::StringSliceAdditionalSpecFns;

use base64::Engine;

verus! {

/// The repository key: the encryption key and the two halves of the MAC
/// key, as the decrypted master-key record carries them.
#[derive(Clone, Debug)]
pub struct Key {
    pub encrypt: Vec<u8>,
    pub k: Vec<u8>,
    pub r: Vec<u8>,
}

/// A key file as it sits in the backend: the key-derivation parameters, the
/// encrypted master-key record, and the salt, the strings still in their
/// transport encoding.
#[derive(Clone, Debug)]
pub struct KeyFile {
    pub kdf: String,
    pub n: u32,
    pub r: u32,
    pub p: u32,
    pub data: String,
    pub salt: String,
}

/// The errors of reading and deriving keys.
#[derive(Clone, Copy, PartialEq, Eq, Structural, Debug)]
pub enum KeyError {
    InvalidScryptParams,
    InvalidBase64,
    InvalidKeyFile,
    InvalidMasterKey,
}

impl Key {
    /// Split a 64-byte derived key: 32 bytes of encryption key, then the two
    /// 16-byte MAC key halves.
    pub fn from_slice(data: &[u8]) -> (res: Key)
        requires
            data@.len() == 64,
        ensures
            res.encrypt@ == data@.subrange(0, 32),
            res.k@ == data@.subrange(32, 48),
            res.r@ == data@.subrange(48, 64),
    {
        let encrypt = vstd::slice::slice_to_vec(vstd::slice::slice_subrange(data, 0, 32));
        let k = vstd::slice::slice_to_vec(vstd::slice::slice_subrange(data, 32, 48));
        let r = vstd::slice::slice_to_vec(vstd::slice::slice_subrange(data, 48, 64));
        Key { encrypt, k, r }
    }

    /// Assemble a key from its three parts.
    pub fn from_keys(encrypt: Vec<u8>, k: Vec<u8>, r: Vec<u8>) -> (res: Key)
        ensures
            res.encrypt == encrypt,
            res.k == k,
            res.r == r,
    {
        Key { encrypt, k, r }
    }
}

/// The floor of the base-two logarithm.
pub open spec fn floor_log2(x: int) -> int
    decreases x,
{
    if x < 2 {
        0
    } else {
        1 + floor_log2(x / 2)
    }
}

/// The base-two logarithm of a power-of-two cost parameter, rounded down.
pub fn log_2(x: u32) -> (r: u8)
    requires
        x > 0,
    ensures
        r == floor_log2(x as int),
        r <= 31,
{
    let mut v: u32 = x;
    let mut r: u8 = 0;
    proof {
        lemma2_to64();
    }
    while v > 1
        invariant
            v >= 1,
            r <= 31,
            floor_log2(x as int) == r + floor_log2(v as int),
            pow2(r as nat) * v <= x,
        decreases v,
    {
        proof {
            lemma2_to64();
            assert(pow2((r + 1) as nat) == 2 * pow2(r as nat)) by {
                vstd::arithmetic::power2::lemma_pow2_adds(r as nat, 1);
            }
            assert(pow2((r + 1) as nat) <= pow2(r as nat) * v) by (nonlinear_arith)
                requires
                    v >= 2,
                    pow2((r + 1) as nat) == 2 * pow2(r as nat),
                    pow2(r as nat) >= 0,
            ;
            if r == 31 {
                assert(pow2(32) == 0x100000000);
                assert(false);
            }
            assert(pow2((r + 1) as nat) * (v as int / 2) <= pow2(r as nat) * v)
                by (nonlinear_arith)
                requires
                    pow2((r + 1) as nat) == 2 * pow2(r as nat),
                    v >= 2,
                    pow2(r as nat) >= 0,
            ;
        }
        v = v / 2;
        r = r + 1;
    }
    r
}

/// The conditions under which scrypt's `Params::new` accepts a parameter
/// triple, as its source checks them on a 64-bit machine.
pub open spec fn scrypt_params_ok(log_n: u8, r: u32, p: u32) -> bool {
    &&& r > 0
    &&& p > 0
    &&& (log_n as int) < 64
    &&& (r as int) * 128 * pow2(log_n as nat) <= usize::MAX
    &&& (p as int) * ((r as int) * 128) <= usize::MAX
    &&& (r as int) * (p as int) < 0x40000000
}

/// The 64-byte key that the scrypt derivation yields: a function of the
/// password, the salt and the cost parameters alone.
pub uninterp spec fn scrypt_of(passwd: Seq<u8>, salt: Seq<u8>, log_n: u8, r: u32, p: u32) -> Seq<
    u8,
>;

/// Relies on scrypt's `Params::new` (which accepts exactly the parameter
/// triples of `scrypt_params_ok`) and `scrypt::scrypt` (which cannot fail on
/// a 64-byte output buffer, and whose result depends on its inputs alone).
#[verifier::external_body]
fn scrypt_derive(passwd: &[u8], salt: &[u8], log_n: u8, r: u32, p: u32) -> (res: Option<Vec<u8>>)
    requires
        (r as int) * (p as int) <= u32::MAX,
    ensures
        match res {
            Some(key) => scrypt_params_ok(log_n, r, p) && key@ == scrypt_of(
                passwd@,
                salt@,
                log_n,
                r,
                p,
            ) && key@.len() == 64,
            None => !scrypt_params_ok(log_n, r, p),
        },
{
    let params = match scrypt::Params::new(log_n, r, p) {
        Ok(p) => p,
        Err(_) => return None,
    };
    let mut out = vec![0u8; 64];
    match scrypt::scrypt(passwd, salt, &params, &mut out) {
        Ok(()) => Some(out),
        Err(_) => None,
    }
}

/// What base64's standard-alphabet decoder makes of a text: a function of
/// the characters alone; `None` where the text is not valid base64.
pub uninterp spec fn b64_of(s: Seq<char>) -> Option<Seq<u8>>;

/// Relies on base64's standard-alphabet decode: deterministic in the text.
#[verifier::external_body]
fn b64_decode(s: &str) -> (r: Option<Vec<u8>>)
    ensures
        match r {
            Some(v) => b64_of(s@) == Some(v@),
            None => b64_of(s@) is None,
        },
{
    base64::engine::general_purpose::STANDARD.decode(s).ok()
}

/// The fields of a decrypted master-key record, in order the `encrypt`
/// string and the `k` and `r` strings of its `mac` object: what serde_json
/// parses out of the bytes, a function of the bytes alone.
pub uninterp spec fn master_key_fields_of(data: Seq<u8>) -> Option<(Seq<char>, Seq<char>, Seq<
    char,
>)>;

/// Relies on serde_json's `from_slice` and `Value` accessors: parsing is
/// deterministic in the input bytes.
#[verifier::external_body]
fn parse_master_key(data: &[u8]) -> (r: Option<(String, String, String)>)
    ensures
        match r {
            Some(t) => master_key_fields_of(data@) == Some((t.0@, t.1@, t.2@)),
            None => master_key_fields_of(data@) is None,
        },
{
    let v: serde_json::Value = serde_json::from_slice(data).ok()?;
    let encrypt = v.get("encrypt")?.as_str()?.to_string();
    let k = v.get("mac")?.get("k")?.as_str()?.to_string();
    let r = v.get("mac")?.get("r")?.as_str()?.to_string();
    Some((encrypt, k, r))
}

/// The fields of a key file, in order `kdf`, `N`, `r`, `p`, `data`, `salt`:
/// what serde_json parses out of the bytes, a function of the bytes alone.
pub uninterp spec fn key_file_fields_of(data: Seq<u8>) -> Option<(Seq<char>, u32, u32, u32, Seq<
    char,
>, Seq<char>)>;

/// Relies on serde_json's `from_slice` and `Value` accessors: parsing is
/// deterministic in the input bytes.
#[verifier::external_body]
fn parse_key_file(data: &[u8]) -> (r: Option<(String, u32, u32, u32, String, String)>)
    ensures
        match r {
            Some(t) => key_file_fields_of(data@) == Some((t.0@, t.1, t.2, t.3, t.4@, t.5@)),
            None => key_file_fields_of(data@) is None,
        },
{
    let v: serde_json::Value = serde_json::from_slice(data).ok()?;
    let kdf = v.get("kdf")?.as_str()?.to_string();
    let n = u32::try_from(v.get("N")?.as_u64()?).ok()?;
    let r = u32::try_from(v.get("r")?.as_u64()?).ok()?;
    let p = u32::try_from(v.get("p")?.as_u64()?).ok()?;
    let data_field = v.get("data")?.as_str()?.to_string();
    let salt = v.get("salt")?.as_str()?.to_string();
    Some((kdf, n, r, p, data_field, salt))
}

impl KeyFile {
    /// Read a key file from its serialized form.
    pub fn parse(data: &Vec<u8>) -> (res: Result<KeyFile, KeyError>)
        ensures
            match key_file_fields_of(data@) {
                Some(t) => match res {
                    Ok(kf) => kf.kdf@ == t.0 && kf.n == t.1 && kf.r == t.2 && kf.p == t.3
                        && kf.data@ == t.4 && kf.salt@ == t.5,
                    Err(_) => false,
                },
                None => res == Err::<KeyFile, KeyError>(KeyError::InvalidKeyFile),
            },
    {
        match parse_key_file(data.as_slice()) {
            Some((kdf, n, r, p, data_field, salt)) => Ok(KeyFile {
                kdf,
                n,
                r,
                p,
                data: data_field,
                salt,
            }),
            None => Err(KeyError::InvalidKeyFile),
        }
    }

    /// Generate a key using the key derivation function from the key file
    /// and a given password.
    pub fn kdf_key(&self, passwd: &str) -> (res: Result<Key, KeyError>)
        requires
            self.n > 0,
        ensures
            ({
                let ln = floor_log2(self.n as int) as u8;
                match res {
                    Ok(key) => {
                        &&& b64_of(self.salt@) is Some
                        &&& scrypt_params_ok(ln, self.r, self.p)
                        &&& {
                            let derived = scrypt_of(
                                passwd.spec_bytes(),
                                b64_of(self.salt@).unwrap(),
                                ln,
                                self.r,
                                self.p,
                            );
                            key.encrypt@ == derived.subrange(0, 32) && key.k@ == derived.subrange(
                                32,
                                48,
                            ) && key.r@ == derived.subrange(48, 64)
                        }
                    },
                    Err(e) => e == KeyError::InvalidBase64 && b64_of(self.salt@) is None || e
                        == KeyError::InvalidScryptParams && b64_of(self.salt@) is Some
                        && !scrypt_params_ok(ln, self.r, self.p),
                }
            }),
    {
        let log_n = log_2(self.n);
        let salt = match b64_decode(self.salt.as_str()) {
            Some(s) => s,
            None => {
                return Err(KeyError::InvalidBase64);
            },
        };
        // the parameter check multiplies r and p in 32 bits; an oversized
        // product is invalid anyway
        proof {
            assert((self.r as int) * (self.p as int) <= (u32::MAX as int) * (u32::MAX as int))
                by (nonlinear_arith)
                requires
                    0 <= self.r as int <= u32::MAX as int,
                    0 <= self.p as int <= u32::MAX as int,
            ;
            assert((u32::MAX as int) * (u32::MAX as int) <= u64::MAX as int) by (nonlinear_arith);
        }
        let rp: u64 = (self.r as u64) * (self.p as u64);
        if rp > (u32::MAX as u64) {
            proof {
                assert(!scrypt_params_ok(floor_log2(self.n as int) as u8, self.r, self.p));
            }
            return Err(KeyError::InvalidScryptParams);
        }
        match scrypt_derive(passwd.as_bytes(), salt.as_slice(), log_n, self.r, self.p) {
            Some(derived) => Ok(Key::from_slice(derived.as_slice())),
            None => Err(KeyError::InvalidScryptParams),
        }
    }

    /// Assemble the repository key out of a decrypted master-key record: the
    /// crypto layer decrypts the key file's `data` field and hands the
    /// plaintext here.
    pub fn key_from_data(dec_data: &Vec<u8>) -> (res: Result<Key, KeyError>)
        ensures
            match master_key_fields_of(dec_data@) {
                Some(t) => match res {
                    Ok(key) => b64_of(t.0) is Some && b64_of(t.1) is Some && b64_of(t.2) is Some
                        && key.encrypt@ == b64_of(t.0).unwrap() && key.k@ == b64_of(t.1).unwrap()
                        && key.r@ == b64_of(t.2).unwrap(),
                    Err(e) => e == KeyError::InvalidBase64 && (b64_of(t.0) is None || b64_of(
                        t.1,
                    ) is None || b64_of(t.2) is None),
                },
                None => res == Err::<Key, KeyError>(KeyError::InvalidMasterKey),
            },
    {
        let (encrypt_s, k_s, r_s) = match parse_master_key(dec_data.as_slice()) {
            Some(t) => t,
            None => {
                return Err(KeyError::InvalidMasterKey);
            },
        };
        let encrypt = match b64_decode(encrypt_s.as_str()) {
            Some(v) => v,
            None => {
                return Err(KeyError::InvalidBase64);
            },
        };
        let k = match b64_decode(k_s.as_str()) {
            Some(v) => v,
            None => {
                return Err(KeyError::InvalidBase64);
            },
        };
        let r = match b64_decode(r_s.as_str()) {
            Some(v) => v,
            None => {
                return Err(KeyError::InvalidBase64);
            },
        };
        Ok(Key::from_keys(encrypt, k, r))
    }

    /// The key-derivation step of unlocking with a password: the derived key
    /// together with the still-encrypted master-key record.  The crypto
    /// layer decrypts that record with the derived key and feeds the
    /// plaintext to `key_from_data`.
    pub fn key_from_password(&self, passwd: &str) -> (res: Result<(Key, Vec<u8>), KeyError>)
        requires
            self.n > 0,
        ensures
            ({
                let ln = floor_log2(self.n as int) as u8;
                match res {
                    Ok(pair) => {
                        &&& b64_of(self.salt@) is Some
                        &&& scrypt_params_ok(ln, self.r, self.p)
                        &&& b64_of(self.data@) == Some(pair.1@)
                        &&& {
                            let derived = scrypt_of(
                                passwd.spec_bytes(),
                                b64_of(self.salt@).unwrap(),
                                ln,
                                self.r,
                                self.p,
                            );
                            pair.0.encrypt@ == derived.subrange(0, 32) && pair.0.k@
                                == derived.subrange(32, 48) && pair.0.r@ == derived.subrange(
                                48,
                                64,
                            )
                        }
                    },
                    Err(e) => e == KeyError::InvalidBase64 && (b64_of(self.salt@) is None || b64_of(
                        self.data@,
                    ) is None) || e == KeyError::InvalidScryptParams && b64_of(self.salt@) is Some
                        && !scrypt_params_ok(ln, self.r, self.p),
                }
            }),
    {
        let key = match self.kdf_key(passwd) {
            Ok(k) => k,
            Err(e) => {
                return Err(e);
            },
        };
        match b64_decode(self.data.as_str()) {
            Some(data) => Ok((key, data)),
            None => Err(KeyError::InvalidBase64),
        }
    }
}

} // verus!
