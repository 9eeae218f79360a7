//! Building history/data keys from their textual form: a repository path
//! and a 40-digit hexadecimal node hash.
use crate::key::{Key, Node};
use vstd::prelude::*;
use vstd::string::StringSliceAdditionalSpecFns;

verus! {

#[derive(PartialEq, Eq, Structural, Clone, Copy, Debug)]
pub enum KeyError {
    /// The hash is not 40 hexadecimal digits.
    InvalidHash,
    /// The path has an empty, `.` or `..` component.
    InvalidPath,
}

/// The value of a hexadecimal digit (either case).
pub open spec fn hex_value(c: u8) -> Option<u8> {
    if 48 <= c <= 57 {
        Some((c - 48) as u8)
    } else if 97 <= c <= 102 {
        Some((c - 87) as u8)
    } else if 65 <= c <= 70 {
        Some((c - 55) as u8)
    } else {
        None
    }
}

fn hex_digit(c: u8) -> (r: Option<u8>)
    ensures
        r == hex_value(c),
{
    if 48 <= c && c <= 57 {
        Some(c - 48)
    } else if 97 <= c && c <= 102 {
        Some(c - 87)
    } else if 65 <= c && c <= 70 {
        Some(c - 55)
    } else {
        None
    }
}

pub open spec fn is_hash_text(s: Seq<u8>) -> bool {
    s.len() == 40 && forall|i: int| 0 <= i < 40 ==> (#[trigger] hex_value(s[i])) is Some
}

/// The byte that digits `2i` and `2i + 1` of `s` spell.
pub open spec fn hash_byte(s: Seq<u8>, i: int) -> u8 {
    (hex_value(s[2 * i])->Some_0 * 16 + hex_value(s[2 * i + 1])->Some_0) as u8
}

/// Parses a 40-digit hexadecimal hash.
pub fn parse_node(hash: &str) -> (r: Result<Node, KeyError>)
    ensures
        match r {
            Ok(n) => is_hash_text(hash.spec_bytes()) && forall|i: int|
                0 <= i < 20 ==> n.bytes@[i] == hash_byte(hash.spec_bytes(), i),
            Err(e) => !is_hash_text(hash.spec_bytes()) && e == KeyError::InvalidHash,
        },
{
    let s = hash.as_bytes();
    if s.len() != 40 {
        return Err(KeyError::InvalidHash);
    }
    let mut out: [u8; 20] = [0u8; 20];
    let mut i: usize = 0;
    while i < 20
        invariant
            i <= 20,
            s@ == hash.spec_bytes(),
            s@.len() == 40,
            out@.len() == 20,
            forall|j: int| 0 <= j < 2 * i ==> (#[trigger] hex_value(s@[j])) is Some,
            forall|j: int| 0 <= j < i ==> out@[j] == hash_byte(s@, j),
        decreases 20 - i,
    {
        let hi = hex_digit(s[2 * i]);
        let lo = hex_digit(s[2 * i + 1]);
        match (hi, lo) {
            (Some(h), Some(l)) => {
                assert(h < 16 && l < 16);
                let b: u8 = h * 16 + l;
                out[i] = b;
            },
            _ => {
                assert(!is_hash_text(s@)) by {
                    if hi is None {
                        assert(hex_value(s@[2 * i as int]) is None);
                    } else {
                        assert(hex_value(s@[2 * i as int + 1]) is None);
                    }
                };
                return Err(KeyError::InvalidHash);
            },
        }
        proof {
            assert forall|j: int| 0 <= j < 2 * (i + 1) implies (#[trigger] hex_value(s@[j])) is Some by {
                if j >= 2 * i {
                    assert(j == 2 * i || j == 2 * i + 1);
                }
            };
        }
        i = i + 1;
    }
    Ok(Node { bytes: out })
}

/// Whether a slash-separated component starts at `i` and equals `.` or
/// `..`, or is empty.
pub open spec fn bad_component_at(p: Seq<u8>, i: int) -> bool {
    (i == 0 || p[i - 1] == 47) && (i == p.len() || p[i] == 47 || (p[i] == 46 && (i + 1 == p.len() || p[i
        + 1] == 47 || (p[i + 1] == 46 && (i + 2 == p.len() || p[i + 2] == 47)))))
}

/// A path is empty, or a slash-separated list of components none of which
/// is empty, `.` or `..`.
pub open spec fn valid_path(p: Seq<u8>) -> bool {
    p.len() == 0 || forall|i: int| 0 <= i <= p.len() ==> !#[trigger] bad_component_at(p, i)
}

fn path_ok(p: &[u8]) -> (r: bool)
    ensures
        r == valid_path(p@),
{
    let n = p.len();
    if n == 0 {
        return true;
    }
    let mut i: usize = 0;
    while i < n
        invariant
            n == p@.len(),
            n > 0,
            i <= n,
            forall|j: int| 0 <= j < i ==> !#[trigger] bad_component_at(p@, j),
        decreases n - i,
    {
        let starts = i == 0 || p[i - 1] == 47;
        let bad = starts && (p[i] == 47 || (p[i] == 46 && (i + 1 == n || p[i + 1] == 47 || (p[i + 1]
            == 46 && (i + 2 == n || p[i + 2] == 47)))));
        if bad {
            assert(bad_component_at(p@, i as int));
            return false;
        }
        i = i + 1;
    }
    if p[n - 1] == 47 {
        assert(bad_component_at(p@, n as int));
        return false;
    }
    assert(!bad_component_at(p@, n as int));
    true
}

fn copy_str_bytes(b: &[u8]) -> (r: Vec<u8>)
    ensures
        r@ == b@,
{
    let mut v: Vec<u8> = Vec::new();
    let mut i: usize = 0;
    while i < b.len()
        invariant
            i <= b@.len(),
            v@ == b@.take(i as int),
        decreases b@.len() - i,
    {
        v.push(b[i]);
        i = i + 1;
        assert(v@ =~= b@.take(i as int));
    }
    assert(b@.take(b@.len() as int) =~= b@);
    v
}

/// The key for `path` at node `hash`; an empty path names the root.
pub fn make_key(path: &str, hash: &str) -> (r: Result<Key, KeyError>)
    ensures
        match r {
            Ok(k) => valid_path(path.spec_bytes()) && is_hash_text(hash.spec_bytes()) && k.name@ == path.spec_bytes()
                && forall|i: int| 0 <= i < 20 ==> k.node.bytes@[i] == hash_byte(hash.spec_bytes(), i),
            Err(KeyError::InvalidPath) => !valid_path(path.spec_bytes()),
            Err(KeyError::InvalidHash) => valid_path(path.spec_bytes()) && !is_hash_text(hash.spec_bytes()),
        },
{
    let p = path.as_bytes();
    if !path_ok(p) {
        return Err(KeyError::InvalidPath);
    }
    let node = parse_node(hash)?;
    Ok(Key::new(copy_str_bytes(p), node))
}

/// The bytes of a valid path.
pub fn parse_path(path: &str) -> (r: Result<Vec<u8>, KeyError>)
    ensures
        match r {
            Ok(b) => valid_path(path.spec_bytes()) && b@ == path.spec_bytes(),
            Err(e) => !valid_path(path.spec_bytes()) && e == KeyError::InvalidPath,
        },
{
    let p = path.as_bytes();
    if !path_ok(p) {
        return Err(KeyError::InvalidPath);
    }
    Ok(copy_str_bytes(p))
}

/// The lowercase hexadecimal digit for `v < 16`.
pub open spec fn hex_digit_of(v: u8) -> u8 {
    if v < 10 {
        (v + 48) as u8
    } else {
        (v + 87) as u8
    }
}

/// The 40 lowercase hexadecimal digits of a node hash, as ASCII bytes.
pub fn node_hex(n: &Node) -> (r: Vec<u8>)
    ensures
        r@.len() == 40,
        forall|i: int|
            0 <= i < 20 ==> r@[2 * i] == hex_digit_of(n.bytes@[i] / 16) && r@[2 * i + 1] == hex_digit_of(
                n.bytes@[i] % 16,
            ),
{
    let mut out: Vec<u8> = Vec::new();
    let mut i: usize = 0;
    while i < 20
        invariant
            i <= 20,
            n.bytes@.len() == 20,
            out@.len() == 2 * i,
            forall|j: int|
                0 <= j < i ==> out@[2 * j] == hex_digit_of(n.bytes@[j] / 16) && out@[2 * j + 1] == hex_digit_of(
                    n.bytes@[j] % 16,
                ),
        decreases 20 - i,
    {
        let b = n.bytes[i];
        let hi = b / 16;
        let lo = b % 16;
        out.push(if hi < 10 { hi + 48 } else { hi + 87 });
        out.push(if lo < 10 { lo + 48 } else { lo + 87 });
        i = i + 1;
    }
    out
}

/// Decoding the digits of a hash gives the hash back.
pub proof fn law_hex_round_trip(b: u8)
    ensures
        hex_value(hex_digit_of(b / 16)) == Some(b / 16),
        hex_value(hex_digit_of(b % 16)) == Some(b % 16),
        ((b / 16) * 16 + b % 16) as u8 == b,
{
}

} // verus!
