use vstd::prelude::*;

verus! {

/// The digest algorithms that can be selected.
#[derive(Clone, Copy, Debug, PartialEq, Eq, Structural)]
pub enum HashAlgorithm {
    Sha256,
    Sha384,
    Sha512,
    Sha512_256,
}

/// The number of bytes in a digest made by `alg`.
pub open spec fn output_len(alg: HashAlgorithm) -> nat {
    match alg {
        HashAlgorithm::Sha256 => 32,
        HashAlgorithm::Sha384 => 48,
        HashAlgorithm::Sha512 => 64,
        HashAlgorithm::Sha512_256 => 32,
    }
}

/// The algorithm that an upper-case name selects, if any.
pub open spec fn algorithm_named(name: Seq<char>) -> Option<HashAlgorithm> {
    if name == "SHA256"@ {
        Some(HashAlgorithm::Sha256)
    } else if name == "SHA384"@ {
        Some(HashAlgorithm::Sha384)
    } else if name == "SHA512"@ {
        Some(HashAlgorithm::Sha512)
    } else if name == "SHA512_256"@ {
        Some(HashAlgorithm::Sha512_256)
    } else {
        None
    }
}

/// The upper-case form of a string, as `str::to_uppercase` gives it.
pub uninterp spec fn upper_of(s: Seq<char>) -> Seq<char>;

/// Relies on `str::to_uppercase`: the result depends on the characters alone.
#[verifier::external_body]
fn uppercase(s: &str) -> (r: String)
    ensures
        r@ == upper_of(s@),
{
    s.to_uppercase()
}

/// Whether two strings hold the same characters.
fn same_chars(a: &str, b: &str) -> (r: bool)
    ensures
        r == (a@ == b@),
{
    let n = a.unicode_len();
    if n != b.unicode_len() {
        return false;
    }
    let mut i: usize = 0;
    while i < n
        invariant
            n == a@.len(),
            n == b@.len(),
            i <= n,
            a@.subrange(0, i as int) == b@.subrange(0, i as int),
        decreases n - i,
    {
        if a.get_char(i) != b.get_char(i) {
            return false;
        }
        assert(a@.subrange(0, i + 1) == a@.subrange(0, i as int).push(a@[i as int]));
        assert(b@.subrange(0, i + 1) == b@.subrange(0, i as int).push(b@[i as int]));
        i = i + 1;
    }
    assert(a@ == a@.subrange(0, n as int));
    assert(b@ == b@.subrange(0, n as int));
    true
}

/// The algorithm that an upper-case name selects: `SHA256`, `SHA384`,
/// `SHA512` or `SHA512_256`; `None` for any other name.
pub fn algorithm_from_upper(name: &str) -> (r: Option<HashAlgorithm>)
    ensures
        r == algorithm_named(name@),
{
    if same_chars(name, "SHA256") {
        Some(HashAlgorithm::Sha256)
    } else if same_chars(name, "SHA384") {
        Some(HashAlgorithm::Sha384)
    } else if same_chars(name, "SHA512") {
        Some(HashAlgorithm::Sha512)
    } else if same_chars(name, "SHA512_256") {
        Some(HashAlgorithm::Sha512_256)
    } else {
        None
    }
}

/// The algorithm that a name selects, ignoring case.
pub fn parse_algorithm(name: &str) -> (r: Option<HashAlgorithm>)
    ensures
        r == algorithm_named(upper_of(name@)),
{
    let upper = uppercase(name);
    algorithm_from_upper(upper.as_str())
}

/// The algorithm used where none is named.
pub fn default_algorithm() -> (r: HashAlgorithm)
    ensures
        r == HashAlgorithm::Sha256,
{
    HashAlgorithm::Sha256
}

/// The number of bytes in a digest made by `alg`.
pub fn digest_len(alg: HashAlgorithm) -> (r: usize)
    ensures
        r == output_len(alg),
{
    match alg {
        HashAlgorithm::Sha256 => 32,
        HashAlgorithm::Sha384 => 48,
        HashAlgorithm::Sha512 => 64,
        HashAlgorithm::Sha512_256 => 32,
    }
}

} // verus!
