use vstd::prelude::*;
use vstd::string::StringExecFns;
use vstd::string::StringSliceAdditionalSpecFns;

verus! {

/// A 32-bit atom standing for a collection or bucket name.
pub type StoreFSTAtom = u32;

pub const ATOM_OFFSET_BASIS: u32 = 2166136261;

pub const ATOM_PRIME: u32 = 16777619;

/// The compact hash folded over `s`, starting from state `h`.
pub open spec fn atom_fold(h: u32, s: Seq<u8>) -> u32
    decreases s.len(),
{
    if s.len() == 0 {
        h
    } else {
        atom_fold((h ^ (s[0] as u32)).wrapping_mul(ATOM_PRIME), s.drop_first())
    }
}

/// The atom of a name: a stable, deterministic 32-bit hash of its bytes.
pub open spec fn atom_of(s: Seq<u8>) -> u32 {
    atom_fold(ATOM_OFFSET_BASIS, s)
}

/// Folds a name into its atom.
pub fn to_compact(name: &str) -> (r: StoreFSTAtom)
    ensures
        r == atom_of(name.spec_bytes()),
{
    let bytes = name.as_bytes();
    let mut h: u32 = ATOM_OFFSET_BASIS;
    let mut i: usize = 0;
    assert(bytes@.subrange(0, bytes@.len() as int) =~= bytes@);
    while i < bytes.len()
        invariant
            0 <= i <= bytes@.len(),
            atom_of(bytes@) == atom_fold(h, bytes@.subrange(i as int, bytes@.len() as int)),
        decreases bytes@.len() - i,
    {
        assert(bytes@.subrange(i as int, bytes@.len() as int).drop_first() =~= bytes@.subrange(
            i + 1,
            bytes@.len() as int,
        ));
        h = (h ^ (bytes[i] as u32)).wrapping_mul(ATOM_PRIME);
        i = i + 1;
    }
    assert(bytes@.subrange(i as int, bytes@.len() as int) =~= Seq::<u8>::empty());
    h
}


/// Lower-case hexadecimal digit of `d`.
pub open spec fn hex_digit(d: nat) -> char {
    if d < 10 {
        ((d + 48) as u8) as char
    } else {
        ((d + 87) as u8) as char
    }
}

/// Lower-case hexadecimal text of `n`, without padding.
pub open spec fn hex_text(n: nat) -> Seq<char>
    decreases n,
{
    if n < 16 {
        seq![hex_digit(n)]
    } else {
        hex_text(n / 16).push(hex_digit(n % 16))
    }
}

/// Value of a hexadecimal digit of either case, if byte `c` is one.
pub open spec fn hex_value_of(c: u8) -> Option<nat> {
    if 48 <= c <= 57 {
        Some((c - 48) as nat)
    } else if 97 <= c <= 102 {
        Some((c - 87) as nat)
    } else if 65 <= c <= 70 {
        Some((c - 55) as nat)
    } else {
        None
    }
}

pub open spec fn all_hex(s: Seq<u8>) -> bool {
    forall|i: int| 0 <= i < s.len() ==> (#[trigger] hex_value_of(s[i])) is Some
}

/// The number that hexadecimal text `s` writes.
pub open spec fn hex_number(s: Seq<u8>) -> nat
    decreases s.len(),
{
    if s.len() == 0 {
        0
    } else {
        hex_number(s.drop_last()) * 16 + hex_value_of(s.last()).unwrap_or(0)
    }
}

/// A name that reads back as an atom: one to eight hexadecimal digits
/// whose number fits 32 bits.
pub open spec fn atom_name(s: Seq<u8>) -> bool {
    1 <= s.len() <= 8 && all_hex(s) && hex_number(s) < 0x1_0000_0000
}

/// Relies on std's `{:x}` formatting of a `u32`: lower-case digits, no
/// padding, no prefix.
#[verifier::external_body]
fn hex_of(a: u32) -> (r: String)
    ensures
        r@ == hex_text(a as nat),
{
    format!("{:x}", a)
}

/// Relies on radix's `RadixNum::from_str` and `as_decimal` in base 16: one
/// to eight hexadecimal digits (either case) give the number they write.
#[verifier::external_body]
fn parse_hex(s: &str) -> (r: Option<usize>)
    requires
        1 <= s.spec_bytes().len() <= 8,
        all_hex(s.spec_bytes()),
    ensures
        r is Some && r.unwrap() as nat == hex_number(s.spec_bytes()),
{
    match radix::RadixNum::from_str(s, 16) {
        Ok(n) => n.as_decimal().ok(),
        Err(_) => None,
    }
}

/// Tells whether byte `c` is a hexadecimal digit.
fn is_hex_digit(c: u8) -> (r: bool)
    ensures
        r == (hex_value_of(c) is Some),
{
    (48 <= c && c <= 57) || (97 <= c && c <= 102) || (65 <= c && c <= 70)
}

/// Reads back an atom from its hexadecimal name (as found on disk): `None`
/// where the name is not one.
pub fn atom_from_hex(name: &str) -> (r: Option<StoreFSTAtom>)
    ensures
        r == (if atom_name(name.spec_bytes()) {
            Some(hex_number(name.spec_bytes()) as u32)
        } else {
            None
        }),
{
    let bytes = name.as_bytes();
    let n = bytes.len();
    if n < 1 || n > 8 {
        return None;
    }
    let mut i: usize = 0;
    while i < n
        invariant
            n == bytes@.len(),
            bytes@ == name.spec_bytes(),
            0 <= i <= n,
            forall|q: int| 0 <= q < i ==> (#[trigger] hex_value_of(bytes@[q])) is Some,
        decreases n - i,
    {
        if !is_hex_digit(bytes[i]) {
            return None;
        }
        i = i + 1;
    }
    match parse_hex(name) {
        Some(v) => {
            if v > 0xffff_ffff {
                None
            } else {
                Some(v as u32)
            }
        },
        None => None,
    }
}

/// The three kinds of graph files, told apart by their extension.
#[derive(Clone, Copy, PartialEq, Eq, Structural, Debug)]
pub enum StoreFSTPathMode {
    Permanent,
    Temporary,
    Backup,
}

pub open spec fn extension_of(mode: StoreFSTPathMode) -> Seq<char> {
    match mode {
        StoreFSTPathMode::Permanent => seq!['.', 'f', 's', 't'],
        StoreFSTPathMode::Temporary => seq!['.', 'f', 's', 't', '.', 't', 'm', 'p'],
        StoreFSTPathMode::Backup => seq!['.', 'f', 's', 't', '.', 'b', 'c', 'k'],
    }
}

impl StoreFSTPathMode {
    pub fn extension(&self) -> (r: &'static str)
        ensures
            r@ == extension_of(*self),
    {
        match self {
            StoreFSTPathMode::Permanent => {
                proof {
                    reveal_strlit(".fst");
                }
                ".fst"
            },
            StoreFSTPathMode::Temporary => {
                proof {
                    reveal_strlit(".fst.tmp");
                }
                ".fst.tmp"
            },
            StoreFSTPathMode::Backup => {
                proof {
                    reveal_strlit(".fst.bck");
                }
                ".fst.bck"
            },
        }
    }
}

/// The extension of a kind of graph file, as bytes.
pub open spec fn extension_bytes(mode: StoreFSTPathMode) -> Seq<u8> {
    match mode {
        StoreFSTPathMode::Permanent => seq![46u8, 102, 115, 116],
        StoreFSTPathMode::Temporary => seq![46u8, 102, 115, 116, 46, 116, 109, 112],
        StoreFSTPathMode::Backup => seq![46u8, 102, 115, 116, 46, 98, 99, 107],
    }
}

/// A file name that holds a bucket name followed by the extension.
pub open spec fn names_bucket(mode: StoreFSTPathMode, name: Seq<u8>) -> bool {
    let ext = extension_bytes(mode);
    name.len() > ext.len() && name.subrange(name.len() - ext.len(), name.len() as int) == ext
}

impl StoreFSTPathMode {
    /// Length of the bucket name in a file name of this kind (the name
    /// without its extension); `None` for a file of another kind.
    pub fn bucket_name_len(&self, file_name: &[u8]) -> (r: Option<usize>)
        ensures
            r is Some <==> names_bucket(*self, file_name@),
            r matches Some(n) ==> n == file_name@.len() - extension_bytes(*self).len(),
    {
        let ext: Vec<u8> = match self {
            StoreFSTPathMode::Permanent => vec![46u8, 102, 115, 116],
            StoreFSTPathMode::Temporary => vec![46u8, 102, 115, 116, 46, 116, 109, 112],
            StoreFSTPathMode::Backup => vec![46u8, 102, 115, 116, 46, 98, 99, 107],
        };
        proof {
            assert(ext@ =~= extension_bytes(*self));
        }
        if file_name.len() <= ext.len() {
            return None;
        }
        let start = file_name.len() - ext.len();
        let mut k: usize = 0;
        while k < ext.len()
            invariant
                ext@ == extension_bytes(*self),
                start + ext@.len() == file_name@.len(),
                file_name@.len() <= usize::MAX,
                0 <= k <= ext@.len(),
                forall|q: int| 0 <= q < k ==> file_name@[start + q] == ext@[q],
            decreases ext@.len() - k,
        {
            if file_name[start + k] != ext[k] {
                proof {
                    let tail = file_name@.subrange(start as int, file_name@.len() as int);
                    assert(tail[k as int] != ext@[k as int]);
                }
                return None;
            }
            k = k + 1;
        }
        proof {
            assert(file_name@.subrange(start as int, file_name@.len() as int) =~= ext@);
        }
        Some(start)
    }
}

/// Identifies one graph: the atoms of its collection and bucket.
#[derive(Clone, Copy, PartialEq, Eq, Structural, Debug, Hash)]
pub struct StoreFSTKey {
    pub collection_hash: StoreFSTAtom,
    pub bucket_hash: StoreFSTAtom,
}

impl StoreFSTKey {
    pub open spec fn from_atom_spec(collection_hash: StoreFSTAtom, bucket_hash: StoreFSTAtom) -> StoreFSTKey {
        StoreFSTKey { collection_hash, bucket_hash }
    }

    pub fn from_atom(collection_hash: StoreFSTAtom, bucket_hash: StoreFSTAtom) -> (r: StoreFSTKey)
        ensures
            r == StoreFSTKey::from_atom_spec(collection_hash, bucket_hash),
    {
        StoreFSTKey { collection_hash, bucket_hash }
    }

    pub fn from_str(collection_str: &str, bucket_str: &str) -> (r: StoreFSTKey)
        ensures
            r.collection_hash == atom_of(collection_str.spec_bytes()),
            r.bucket_hash == atom_of(bucket_str.spec_bytes()),
    {
        StoreFSTKey { collection_hash: to_compact(collection_str), bucket_hash: to_compact(bucket_str) }
    }

    /// Display form of the key: `<collection>/<bucket>`, each atom in hexadecimal.
    pub fn to_text(&self) -> (r: String)
        ensures
            r@ == seq!['<'] + hex_text(self.collection_hash as nat) + seq!['>', '/', '<'] + hex_text(
                self.bucket_hash as nat,
            ) + seq!['>'],
    {
        proof {
            reveal_strlit("<");
            reveal_strlit(">/<");
            reveal_strlit(">");
        }
        let s = String::from_str("<");
        let s = s.concat(hex_of(self.collection_hash).as_str());
        let s = s.concat(">/<");
        let s = s.concat(hex_of(self.bucket_hash).as_str());
        s.concat(">")
    }
}

/// Path of a collection directory, or of a bucket file of the given kind,
/// relative to the store's root.
pub open spec fn path_of(mode: StoreFSTPathMode, collection: u32, bucket: Option<u32>) -> Seq<
    char,
> {
    match bucket {
        None => hex_text(collection as nat),
        Some(b) => hex_text(collection as nat) + seq!['/'] + hex_text(b as nat) + extension_of(mode),
    }
}

pub struct StoreFSTBuilder;

impl StoreFSTBuilder {
    /// `<collection>` for a collection, `<collection>/<bucket><extension>`
    /// for a bucket, atoms written in lower-case hexadecimal.
    pub fn path(mode: StoreFSTPathMode, collection_hash: StoreFSTAtom, bucket_hash: Option<
        StoreFSTAtom,
    >) -> (r: String)
        ensures
            r@ == path_of(mode, collection_hash, bucket_hash),
    {
        let p = hex_of(collection_hash);
        match bucket_hash {
            None => p,
            Some(b) => {
                proof {
                    reveal_strlit("/");
                }
                let p = p.concat("/");
                let p = p.concat(hex_of(b).as_str());
                p.concat(mode.extension())
            },
        }
    }
}

} // verus!
