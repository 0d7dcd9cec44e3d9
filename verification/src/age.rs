//! The name/age dataset behind `train age` and `over18`: reading `name<TAB>age`
//! rows, name fingerprints and codes, and the random vocabulary of exact ages.
use vstd::prelude::*;
use vstd::string::StringSliceAdditionalSpecFns;
use vstd::utf8::encode_utf8;
use crate::bytes::{be_bytes, be_value, push_all, push_ascii, push_be};
use crate::crypto::{sha256, sha256_spec};
use crate::hex::{ascii_bytes, hex_encode, hex_spec};
use crate::order::{find_position, sorted_strict, str_lt};
use crate::text::{
    char_views, decimal, lowercase_spec, parse_usize_spec, split_once_spec, split_spec,
    trim_spec,
};

verus! {

pub const MAX_AGE: usize = 120;

pub const ADULT_AGE: usize = 18;

/// What `over18` makes of the age typed in for a name it does not know.
#[derive(Clone, Copy, Debug, PartialEq, Eq, Structural)]
pub enum AgeAnswer {
    /// Nothing was typed.
    Skip,
    /// Not an integer between 0 and `MAX_AGE`.
    Invalid,
    Age(usize),
}

pub open spec fn age_answer_spec(line: Seq<char>) -> AgeAnswer {
    let t = trim_spec(line);
    if t.len() == 0 {
        AgeAnswer::Skip
    } else {
        match parse_usize_spec(t) {
            Some(age) => if age > MAX_AGE {
                AgeAnswer::Invalid
            } else {
                AgeAnswer::Age(age)
            },
            None => AgeAnswer::Invalid,
        }
    }
}

/// An accepted answer is an age from 0 to `MAX_AGE`, and every such age, written
/// in decimal, is read back as itself; a written age above `MAX_AGE` is refused.
pub proof fn typed_ages_read_back(line: Seq<char>, age: usize)
    ensures
        age_answer_spec(line) matches AgeAnswer::Age(a) ==> a <= MAX_AGE,
        age <= MAX_AGE ==> age_answer_spec(decimal(age as nat)) == AgeAnswer::Age(age),
        age > MAX_AGE ==> age_answer_spec(decimal(age as nat)) == AgeAnswer::Invalid,
{
    let d = decimal(age as nat);
    crate::text::lemma_decimal_digits(age as nat);
    assert(crate::text::is_digit(d[0]));
    assert(crate::text::is_digit(d[d.len() - 1]));
    crate::text::lemma_leading_space_char(d, 0);
    crate::text::lemma_trailing_space_char(d, 0);
    assert(d.subrange(0, d.len() as int) == d);
    assert(trim_spec(d) == d);
    crate::text::lemma_parse_decimal(age);
}

/// Reads the age typed in for an unknown name: blank skips, and anything but an
/// integer from 0 to `MAX_AGE` is refused.
pub fn parse_age_answer(line: &str) -> (r: AgeAnswer)
    ensures
        r == age_answer_spec(line@),
{
    let t = crate::text::trim(line);
    if t.as_str().unicode_len() == 0 {
        return AgeAnswer::Skip;
    }
    match crate::text::parse_usize(t.as_str()) {
        Some(age) => if age > MAX_AGE {
            AgeAnswer::Invalid
        } else {
            AgeAnswer::Age(age)
        },
        None => AgeAnswer::Invalid,
    }
}

/// The SHA-256 digest of the trimmed, lowercased name.
pub open spec fn name_digest_spec(name: Seq<char>) -> Seq<u8> {
    sha256_spec(encode_utf8(lowercase_spec(trim_spec(name))))
}

/// The stored fingerprint of a name: its digest in lowercase hex.
pub open spec fn fingerprint_spec(name: Seq<char>) -> Seq<char> {
    hex_spec(name_digest_spec(name))
}

/// The 64-bit code a name is fed to phi2 with: the first eight digest bytes,
/// big-endian.
pub open spec fn name_code_spec(name: Seq<char>) -> nat {
    be_value(name_digest_spec(name).take(8))
}

/// A stored fingerprint: 64 bytes, each a lowercase hex digit.
pub open spec fn valid_fingerprint_spec(bytes: Seq<u8>) -> bool {
    bytes.len() == 64 && forall|i: int|
        0 <= i < bytes.len() ==> (48 <= #[trigger] bytes[i] <= 57 || 97 <= bytes[i] <= 102)
}

pub fn name_digest(name: &str) -> (r: [u8; 32])
    ensures
        r@ == name_digest_spec(name@),
{
    let trimmed = crate::text::trim(name);
    let lower = crate::text::to_lowercase(trimmed.as_str());
    sha256(lower.as_str().as_bytes())
}

/// The name's SHA-256 fingerprint in lowercase hex; names are trimmed and
/// lowercased first.
pub fn fingerprint_name(name: &str) -> (r: String)
    ensures
        r@ == fingerprint_spec(name@),
{
    let digest = name_digest(name);
    hex_encode(&digest)
}

/// The integer that `encode_name` scales into the unit interval.
pub fn name_code(name: &str) -> (r: u64)
    ensures
        r as nat == name_code_spec(name@),
{
    let digest = name_digest(name);
    crate::bytes::be_u64_prefix(&digest)
}

/// Whether a stored fingerprint has the form `fingerprint_name` writes.
pub fn valid_fingerprint(fingerprint: &str) -> (r: bool)
    ensures
        r == valid_fingerprint_spec(fingerprint.spec_bytes()),
{
    let bytes = fingerprint.as_bytes();
    if bytes.len() != 64 {
        return false;
    }
    let mut i: usize = 0;
    while i < bytes.len()
        invariant
            i <= bytes@.len() == 64,
            bytes@ == fingerprint.spec_bytes(),
            forall|k: int| 0 <= k < i ==> (48 <= #[trigger] bytes@[k] <= 57 || 97 <= bytes@[k] <= 102),
        decreases bytes@.len() - i,
    {
        let b = bytes[i];
        if !((48 <= b && b <= 57) || (97 <= b && b <= 102)) {
            return false;
        }
        i = i + 1;
    }
    true
}

/// Every fingerprint of a name passes `valid_fingerprint`: the lowercase hex of a
/// 32-byte digest is 64 lowercase hex digits.
pub proof fn fingerprints_are_valid(digest: Seq<u8>)
    requires
        digest.len() == 32,
    ensures
        valid_fingerprint_spec(ascii_bytes(hex_spec(digest))),
{
    crate::hex::lemma_hex_spec_len(digest);
    let e = ascii_bytes(hex_spec(digest));
    assert forall|i: int| 0 <= i < e.len() implies (48 <= #[trigger] e[i] <= 57 || 97 <= e[i]
        <= 102) by {
        let j = i / 2;
        let d = if i == 2 * j {
            digest[j] / 16
        } else {
            digest[j] % 16
        };
        assert(hex_spec(digest)[i] == crate::hex::hex_digit(d as nat));
        crate::hex::lemma_hex_digit_byte(d as nat);
    }
}

/// A problem found in a dataset, with its line number (0 for the whole dataset).
#[derive(Debug)]
pub struct AgeDataError {
    pub line: usize,
    pub message: String,
}

impl AgeDataError {
    pub fn new(line: usize, message: &str) -> (r: Self)
        ensures
            r.line == line,
            r.message@ == message@,
    {
        AgeDataError { line, message: message.to_owned() }
    }

    /// The error as it is shown: `line N: message`, or the bare message for
    /// line 0.
    pub fn to_string(&self) -> (r: String)
        ensures
            r@ == (if self.line == 0 {
                self.message@
            } else {
                "line "@ + decimal(self.line as nat) + ": "@ + self.message@
            }),
    {
        if self.line == 0 {
            return self.message.clone();
        }
        let mut out = String::new();
        out.push('l');
        out.push('i');
        out.push('n');
        out.push('e');
        out.push(' ');
        crate::text::push_decimal(self.line, &mut out);
        out.push(':');
        out.push(' ');
        let ghost head = out@;
        let m = crate::text::chars_of(self.message.as_str());
        let mut i: usize = 0;
        while i < m.len()
            invariant
                i <= m@.len(),
                m@ == self.message@,
                out@ == head + m@.take(i as int),
            decreases m@.len() - i,
        {
            out.push(m[i]);
            proof {
                assert(m@.take(i + 1) == m@.take(i as int).push(m@[i as int]));
            }
            i = i + 1;
        }
        proof {
            reveal_strlit("line ");
            reveal_strlit(": ");
            assert(m@.take(i as int) == m@);
            assert(head == "line "@ + decimal(self.line as nat) + ": "@);
        }
        out
    }
}

/// How one line of a dataset reads: `None` for a blank line, `Ok((name, age))`
/// for a row, `Err(message)` for a malformed one.
pub open spec fn parse_row_spec(raw: Seq<char>) -> Option<Result<(Seq<char>, usize), Seq<char>>> {
    let line = trim_spec(raw);
    if line.len() == 0 {
        None
    } else {
        match split_once_spec(line, '\t') {
            None => Some(Err("expected name<TAB>age"@)),
            Some((name_part, age_part)) => {
                let name = trim_spec(name_part);
                match parse_usize_spec(trim_spec(age_part)) {
                    None => Some(Err("age must be an integer"@)),
                    Some(age) => if name.len() == 0 {
                        Some(Err("name cannot be empty"@))
                    } else if age > MAX_AGE {
                        Some(Err("age must be between 0 and 120"@))
                    } else {
                        Some(Ok((name, age)))
                    },
                }
            },
        }
    }
}

/// Reads the lines from index `k` on into the ages gathered so far; an error
/// carries the 1-based number of its line.
pub open spec fn scan_rows(lines: Seq<Seq<char>>, k: nat, ages: Map<Seq<char>, usize>) -> Result<
    Map<Seq<char>, usize>,
    (nat, Seq<char>),
>
    decreases lines.len() - k,
{
    if k >= lines.len() {
        Ok(ages)
    } else {
        match parse_row_spec(lines[k as int]) {
            None => scan_rows(lines, k + 1, ages),
            Some(Err(message)) => Err((k + 1, message)),
            Some(Ok((name, age))) => if ages.contains_key(name) && ages[name] != age {
                Err((k + 1, "the same name has conflicting ages"@))
            } else {
                scan_rows(lines, k + 1, ages.insert(name, age))
            },
        }
    }
}

/// The ages of a dataset by name, or the first problem found in it.
pub open spec fn parse_samples_spec(source: Seq<char>) -> Result<Map<Seq<char>, usize>, (nat, Seq<char>)> {
    match scan_rows(split_spec(source, '\n'), 0, Map::empty()) {
        Err(e) => Err(e),
        Ok(ages) => if ages.dom() == Set::<Seq<char>>::empty() {
            Err((0, "the dataset is empty"@))
        } else {
            Ok(ages)
        },
    }
}

/// One named person of a dataset, without the name itself.
#[derive(Clone, Debug)]
pub struct AgeSample {
    pub name_code: u64,
    pub name_fingerprint: String,
    pub age: usize,
}

/// `samples` lists the people of `ages` in the order of their names.
pub open spec fn samples_describe(samples: Seq<AgeSample>, ages: Map<Seq<char>, usize>) -> bool {
    exists|names: Seq<Seq<char>>|
        #[trigger] sorted_strict(names) && names.len() == samples.len() && names.to_set()
            == ages.dom() && forall|i: int|
            0 <= i < samples.len() ==> {
                &&& ages[names[i]] == (#[trigger] samples[i]).age
                &&& samples[i].name_code == name_code_spec(names[i])
                &&& samples[i].name_fingerprint@ == fingerprint_spec(names[i])
            }
}

/// The ages gathered so far, held as names in sorted order beside their ages.
pub open spec fn ages_held(names: Seq<Seq<char>>, ages: Seq<usize>, m: Map<Seq<char>, usize>) -> bool {
    &&& sorted_strict(names)
    &&& names.len() == ages.len()
    &&& names.to_set() == m.dom()
    &&& forall|i: int| 0 <= i < names.len() ==> m[#[trigger] names[i]] == ages[i]
}

pub proof fn lemma_ages_lookup(names: Seq<Seq<char>>, ages: Seq<usize>, m: Map<Seq<char>, usize>, i: int)
    requires
        ages_held(names, ages, m),
        0 <= i < names.len(),
    ensures
        m.contains_key(names[i]),
        m[names[i]] == ages[i],
{
    assert(names.to_set().contains(names[i]));
}

/// Parses `name<TAB>age` rows. Blank lines are skipped; a name given twice must
/// have one age; the samples come sorted by name, one per name.
pub fn parse_samples(source: &str) -> (r: Result<Vec<AgeSample>, AgeDataError>)
    ensures
        r is Ok <==> parse_samples_spec(source@) is Ok,
        r matches Err(e) ==> parse_samples_spec(source@) == Err::<Map<Seq<char>, usize>, _>(
            (e.line as nat, e.message@),
        ),
        r matches Ok(samples) ==> samples_describe(samples@, parse_samples_spec(source@)->Ok_0),
{
    let lines = crate::text::split_char(source, '\n');
    let ghost lv = char_views(lines@);
    let mut names: Vec<String> = Vec::new();
    let mut ages: Vec<usize> = Vec::new();
    let ghost mut m: Map<Seq<char>, usize> = Map::empty();
    proof {
        assert(char_views(names@).to_set() =~= m.dom());
    }
    let mut k: usize = 0;
    while k < lines.len()
        invariant
            k <= lines@.len(),
            lv == char_views(lines@),
            lv == split_spec(source@, '\n'),
            ages_held(char_views(names@), ages@, m),
            scan_rows(lv, 0, Map::empty()) == scan_rows(lv, k as nat, m),
        decreases lines@.len() - k,
    {
        proof {
            assert(lv[k as int] == lines@[k as int]@);
        }
        let line = crate::text::trim(lines[k].as_str());
        if line.as_str().is_empty() {
            k = k + 1;
            continue;
        }
        let split = crate::text::split_once_char(line.as_str(), '\t');
        let (name_part, age_part) = match split {
            Some(parts) => parts,
            None => {
                return Err(AgeDataError::new(k + 1, "expected name<TAB>age"));
            },
        };
        let name = crate::text::trim(name_part.as_str());
        let age_text = crate::text::trim(age_part.as_str());
        let age = match crate::text::parse_usize(age_text.as_str()) {
            Some(age) => age,
            None => {
                return Err(AgeDataError::new(k + 1, "age must be an integer"));
            },
        };
        if name.as_str().is_empty() {
            return Err(AgeDataError::new(k + 1, "name cannot be empty"));
        }
        if age > MAX_AGE {
            return Err(AgeDataError::new(k + 1, "age must be between 0 and 120"));
        }
        let ghost nv = char_views(names@);
        let (position, found) = find_position(&names, name.as_str());
        if found {
            proof {
                lemma_ages_lookup(nv, ages@, m, position as int);
                assert(nv[position as int] == name@);
            }
            if ages[position] != age {
                return Err(AgeDataError::new(k + 1, "the same name has conflicting ages"));
            }
            proof {
                assert(m.insert(name@, age) =~= m);
            }
        } else {
            proof {
                assert forall|j: int| 0 <= j < position implies str_lt(#[trigger] nv[j], name@) by {
                    assert(nv[j] == names@[j]@);
                }
                assert forall|j: int| position <= j < nv.len() implies str_lt(name@, #[trigger] nv[j]) by {
                    assert(nv[j] == names@[j]@);
                }
                crate::order::lemma_insert_sorted(nv, position as int, name@);
                assert(!m.contains_key(name@)) by {
                    if m.contains_key(name@) {
                        assert(nv.to_set().contains(name@));
                    }
                }
            }
            let ghost name_view = name@;
            let ghost old_ages = ages@;
            names.insert(position, name);
            ages.insert(position, age);
            proof {
                let new_m = m.insert(name_view, age);
                let nn = char_views(names@);
                assert(nn =~= nv.insert(position as int, name_view));
                assert(nn.to_set() =~= new_m.dom());
                assert forall|i: int| 0 <= i < nn.len() implies new_m[#[trigger] nn[i]]
                    == ages@[i] by {
                    if i < position {
                        assert(nn[i] == nv[i]);
                        lemma_ages_lookup(nv, old_ages, m, i);
                        crate::order::lemma_str_lt_asymmetric(nv[i], name_view);
                    } else if i > position {
                        assert(nn[i] == nv[i - 1]);
                        lemma_ages_lookup(nv, old_ages, m, i - 1);
                        crate::order::lemma_str_lt_asymmetric(name_view, nv[i - 1]);
                    }
                }
                m = new_m;
            }
        }
        k = k + 1;
    }
    proof {
        assert(scan_rows(lv, k as nat, m) == Ok::<_, (nat, Seq<char>)>(m));
    }
    if names.len() == 0 {
        proof {
            assert(m.dom() =~= Set::<Seq<char>>::empty());
        }
        return Err(AgeDataError::new(0, "the dataset is empty"));
    }
    let mut samples: Vec<AgeSample> = Vec::new();
    let mut i: usize = 0;
    while i < names.len()
        invariant
            i <= names@.len(),
            ages_held(char_views(names@), ages@, m),
            samples@.len() == i,
            forall|j: int|
                0 <= j < i ==> {
                    &&& (#[trigger] samples@[j]).age == ages@[j]
                    &&& samples@[j].name_code == name_code_spec(names@[j]@)
                    &&& samples@[j].name_fingerprint@ == fingerprint_spec(names@[j]@)
                },
        decreases names@.len() - i,
    {
        let sample = AgeSample {
            name_code: name_code(names[i].as_str()),
            name_fingerprint: fingerprint_name(names[i].as_str()),
            age: ages[i],
        };
        samples.push(sample);
        i = i + 1;
    }
    proof {
        let nv = char_views(names@);
        assert(m.dom() != Set::<Seq<char>>::empty()) by {
            assert(nv.to_set().contains(nv[0]));
        }
        assert forall|j: int| 0 <= j < samples@.len() implies {
            &&& m[nv[j]] == (#[trigger] samples@[j]).age
            &&& samples@[j].name_code == name_code_spec(nv[j])
            &&& samples@[j].name_fingerprint@ == fingerprint_spec(nv[j])
        } by {
            assert(nv[j] == names@[j]@);
        }
        assert(sorted_strict(nv));
    }
    Ok(samples)
}

/// The 64-bit value that becomes the random vocabulary token of an exact age:
/// the first eight bytes, big-endian, of the SHA-256 digest of the token domain,
/// the seed and the age's eight big-endian bytes.
pub open spec fn age_token_code_spec(seed: Seq<u8>, age: nat) -> nat {
    be_value(sha256_spec(ascii_bytes("phi-age-vocabulary-token-v1"@) + seed
        + be_bytes(age, 8)).take(8))
}

/// The integer behind `random_age_token` for `seed` and `age`.
pub fn random_age_token_code(seed: &[u8; 32], age: usize) -> (r: u64)
    ensures
        r as nat == age_token_code_spec(seed@, age as nat),
{
    let mut data: Vec<u8> = Vec::new();
    push_ascii(&mut data, "phi-age-vocabulary-token-v1");
    push_all(&mut data, seed);
    push_be(&mut data, age as u128, 8);
    let digest = sha256(data.as_slice());
    crate::bytes::be_u64_prefix(&digest)
}

/// The seed of a training run's random age vocabulary: the bytes read from the
/// system's random source when there are any, otherwise the SHA-256 digest of a
/// fallback domain, the process id, a per-process counter and the time in
/// nanoseconds, each big-endian.
pub open spec fn random_seed_spec(urandom: Option<Seq<u8>>, pid: u32, counter: u64, nanos: u128) -> Seq<u8> {
    match urandom {
        Some(bytes) => bytes,
        None => sha256_spec(ascii_bytes("phi-age-vocabulary-fallback-seed-v1"@)
            + be_bytes(pid as nat, 4) + be_bytes(counter as nat, 8) + be_bytes(nanos as nat, 16)),
    }
}

pub fn random_seed(urandom: Option<[u8; 32]>, pid: u32, counter: u64, nanos: u128) -> (r: [u8; 32])
    ensures
        r@ == random_seed_spec(
            match urandom {
                Some(bytes) => Some(bytes@),
                None => None,
            },
            pid,
            counter,
            nanos,
        ),
{
    match urandom {
        Some(bytes) => bytes,
        None => {
            let mut data: Vec<u8> = Vec::new();
            push_ascii(&mut data, "phi-age-vocabulary-fallback-seed-v1");
            push_be(&mut data, pid as u128, 4);
            push_be(&mut data, counter as u128, 8);
            push_be(&mut data, nanos, 16);
            sha256(data.as_slice())
        },
    }
}

} // verus!
