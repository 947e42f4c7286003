//! File permission modes, owners and groups as install commands take them.
use vstd::prelude::*;

use crate::chars::chars_of;

verus! {

/// Why a mode, user or group is refused; each holds the text given.
#[derive(Debug)]
pub enum FileError {
    /// Not an octal permission mode.
    InvalidMode(String),
    /// No such group.
    UnknownGroup(String),
    /// The group lookup failed.
    InvalidGroup(String),
    /// No such user.
    UnknownUser(String),
    /// The user lookup failed.
    InvalidUser(String),
}

/// A string with every leading `0o` removed.
pub open spec fn strip_octal_prefix(s: Seq<char>) -> Seq<char>
    decreases s.len(),
{
    if s.len() >= 2 && s[0] == '0' && s[1] == 'o' {
        strip_octal_prefix(s.skip(2))
    } else {
        s
    }
}

/// An octal digit.
pub open spec fn octal_digit(c: char) -> bool {
    '0' <= c && c <= '7'
}

/// The value of a run of octal digits.
pub open spec fn octal_value(s: Seq<char>) -> nat
    decreases s.len(),
{
    if s.len() == 0 {
        0
    } else {
        octal_value(s.drop_last()) * 8 + (s.last() as nat - '0' as nat) as nat
    }
}

/// A number's digits after an optional `+`.
pub open spec fn unsigned_body(s: Seq<char>) -> Seq<char> {
    if s.len() > 0 && s[0] == '+' {
        s.drop_first()
    } else {
        s
    }
}

/// The value of a base-8 number in the form `u32::from_str_radix` reads: an
/// optional `+` and at least one octal digit, within `u32`.
pub open spec fn octal_number(s: Seq<char>) -> Option<nat> {
    let body = unsigned_body(s);
    if body.len() > 0 && (forall|i: int| 0 <= i < body.len() ==> octal_digit(#[trigger] body[i]))
        && octal_value(body) <= u32::MAX {
        Some(octal_value(body))
    } else {
        None
    }
}

/// The permission bits `nix::sys::stat::Mode` knows: owner, group and other
/// access, set-user-id, set-group-id and sticky.
pub open spec fn mode_bits_known(bits: u32) -> bool {
    bits < 0o10000
}

/// The mode a string gives: its octal value, after any leading `0o`s, when
/// that is a number whose bits are all known mode bits.
pub open spec fn mode_spec(s: Seq<char>) -> Option<u32> {
    match octal_number(strip_octal_prefix(s)) {
        Some(v) => if mode_bits_known(v as u32) {
            Some(v as u32)
        } else {
            None
        },
        None => None,
    }
}

/// Calls `nix::sys::stat::Mode::from_bits` and keeps the bits: the flags
/// that type declares are, on Linux, the twelve bits below `0o10000`, and
/// `from_bits` gives `None` when any other bit is set.
#[verifier::external_body]
fn mode_from_bits(bits: u32) -> (r: Option<u32>)
    ensures
        r == (if mode_bits_known(bits) {
            Some(bits)
        } else {
            None
        }),
{
    nix::sys::stat::Mode::from_bits(bits).map(|m| m.bits())
}

/// The value of octal digits never shrinks as digits are added.
proof fn lemma_octal_prefix_le(s: Seq<char>, j: int)
    requires
        0 <= j <= s.len(),
    ensures
        octal_value(s.take(j)) <= octal_value(s),
    decreases s.len(),
{
    if j < s.len() {
        assert(s.drop_last().take(j) =~= s.take(j));
        lemma_octal_prefix_le(s.drop_last(), j);
    } else {
        assert(s.take(j) =~= s);
    }
}

/// Read an octal number as `u32::from_str_radix(s, 8)` does.
fn parse_octal(cs: &Vec<char>, start: usize) -> (r: Option<u32>)
    requires
        start <= cs@.len(),
    ensures
        match r {
            Some(v) => octal_number(cs@.skip(start as int)) == Some(v as nat),
            None => octal_number(cs@.skip(start as int)) is None,
        },
{
    let ghost s = cs@.skip(start as int);
    let mut i = start;
    if i < cs.len() && cs[i] == '+' {
        i = i + 1;
    }
    let ghost body = cs@.skip(i as int);
    assert(body =~= unsigned_body(s));
    if i == cs.len() {
        return None;
    }
    let mut acc: u64 = 0;
    let mut k = i;
    while k < cs.len()
        invariant
            i <= k <= cs@.len(),
            i < cs@.len(),
            s == cs@.skip(start as int),
            body == cs@.skip(i as int),
            body == unsigned_body(s),
            acc == octal_value(body.take(k - i)),
            acc <= u32::MAX,
            forall|q: int| 0 <= q < k - i ==> octal_digit(#[trigger] body[q]),
        decreases cs@.len() - k,
    {
        let c = cs[k];
        if !('0' <= c && c <= '7') {
            assert(!octal_digit(body[k - i]));
            return None;
        }
        assert(body.take(k + 1 - i).drop_last() =~= body.take(k - i));
        assert(body.take(k + 1 - i).last() == c);
        let d = (c as u32 - '0' as u32) as u64;
        acc = acc * 8 + d;
        assert(acc == octal_value(body.take(k + 1 - i)));
        if acc > 0xFFFF_FFFF {
            proof {
                lemma_octal_prefix_le(body, k + 1 - i);
            }
            return None;
        }
        k = k + 1;
    }
    assert(body.take(k - i) =~= body);
    Some(acc as u32)
}

/// Parse a permission mode such as `0755` or `0o644`.
pub fn parse_mode(s: &str) -> (r: Result<u32, FileError>)
    ensures
        match r {
            Ok(m) => mode_spec(s@) == Some(m),
            Err(e) => mode_spec(s@) is None && (e matches FileError::InvalidMode(t) && t@ == s@),
        },
{
    let cs = chars_of(s);
    let mut i: usize = 0;
    assert(cs@.skip(0) =~= cs@);
    while cs.len() - i >= 2 && cs[i] == '0' && cs[i + 1] == 'o'
        invariant
            i <= cs@.len(),
            strip_octal_prefix(cs@) == strip_octal_prefix(cs@.skip(i as int)),
        decreases cs@.len() - i,
    {
        assert(cs@.skip(i as int).skip(2) =~= cs@.skip(i + 2));
        i = i + 2;
    }
    assert(!(cs@.skip(i as int).len() >= 2 && cs@.skip(i as int)[0] == '0' && cs@.skip(i as int)[1]
        == 'o')) by {
        if cs@.skip(i as int).len() >= 2 {
            assert(cs@.skip(i as int)[0] == cs@[i as int]);
            assert(cs@.skip(i as int)[1] == cs@[i + 1]);
        }
    }
    match parse_octal(&cs, i) {
        Some(v) => match mode_from_bits(v) {
            Some(m) => Ok(m),
            None => Err(FileError::InvalidMode(String::from_str(s))),
        },
        None => Err(FileError::InvalidMode(String::from_str(s))),
    }
}

/// The outcome of looking up a group or user by name: found with its id,
/// not found, or a failed lookup.
#[derive(Clone, Copy, PartialEq, Eq, Structural, Debug)]
pub enum Lookup {
    Found(u32),
    Missing,
    Failed,
}

/// Calls `nix::unistd::Group::from_name` and keeps the group id. A name
/// holding a NUL character cannot be passed to the C library, and
/// `from_name` reports such a group as not found; claimed of that case only.
/// What comes back for any other name depends on the system's group
/// database, so nothing is claimed of it.
#[verifier::external_body]
fn lookup_group(name: &str) -> (r: Lookup)
    ensures
        name@.contains('\0') ==> r == Lookup::Missing,
{
    match nix::unistd::Group::from_name(name) {
        Ok(Some(g)) => Lookup::Found(g.gid.as_raw()),
        Ok(None) => Lookup::Missing,
        Err(_) => Lookup::Failed,
    }
}

/// Calls `nix::unistd::User::from_name` and keeps the user id. A name
/// holding a NUL character cannot be passed to the C library, and
/// `from_name` reports such a user as not found; claimed of that case only.
/// What comes back for any other name depends on the system's user
/// database, so nothing is claimed of it.
#[verifier::external_body]
fn lookup_user(name: &str) -> (r: Lookup)
    ensures
        name@.contains('\0') ==> r == Lookup::Missing,
{
    match nix::unistd::User::from_name(name) {
        Ok(Some(u)) => Lookup::Found(u.uid.as_raw()),
        Ok(None) => Lookup::Missing,
        Err(_) => Lookup::Failed,
    }
}

/// The group id a lookup gives, or why there is none.
pub fn group_from_lookup(name: &str, found: Lookup) -> (r: Result<u32, FileError>)
    ensures
        match found {
            Lookup::Found(id) => r == Ok::<u32, FileError>(id),
            Lookup::Missing => r matches Err(FileError::UnknownGroup(t)) && t@ == name@,
            Lookup::Failed => r matches Err(FileError::InvalidGroup(t)) && t@ == name@,
        },
{
    match found {
        Lookup::Found(id) => Ok(id),
        Lookup::Missing => Err(FileError::UnknownGroup(String::from_str(name))),
        Lookup::Failed => Err(FileError::InvalidGroup(String::from_str(name))),
    }
}

/// The user id a lookup gives, or why there is none.
pub fn user_from_lookup(name: &str, found: Lookup) -> (r: Result<u32, FileError>)
    ensures
        match found {
            Lookup::Found(id) => r == Ok::<u32, FileError>(id),
            Lookup::Missing => r matches Err(FileError::UnknownUser(t)) && t@ == name@,
            Lookup::Failed => r matches Err(FileError::InvalidUser(t)) && t@ == name@,
        },
{
    match found {
        Lookup::Found(id) => Ok(id),
        Lookup::Missing => Err(FileError::UnknownUser(String::from_str(name))),
        Lookup::Failed => Err(FileError::InvalidUser(String::from_str(name))),
    }
}

/// Look up a group by name: its id, or an unknown or invalid group error
/// naming it. A name holding a NUL character names no group.
pub fn group(name: &str) -> (r: Result<u32, FileError>)
    ensures
        name@.contains('\0') ==> (r matches Err(FileError::UnknownGroup(t)) && t@ == name@),
        match r {
            Ok(_) => true,
            Err(FileError::UnknownGroup(t)) => t@ == name@,
            Err(FileError::InvalidGroup(t)) => t@ == name@,
            Err(_) => false,
        },
{
    let found = lookup_group(name);
    group_from_lookup(name, found)
}

/// Look up a user by name: its id, or an unknown or invalid user error
/// naming it. A name holding a NUL character names no user.
pub fn user(name: &str) -> (r: Result<u32, FileError>)
    ensures
        name@.contains('\0') ==> (r matches Err(FileError::UnknownUser(t)) && t@ == name@),
        match r {
            Ok(_) => true,
            Err(FileError::UnknownUser(t)) => t@ == name@,
            Err(FileError::InvalidUser(t)) => t@ == name@,
            Err(_) => false,
        },
{
    let found = lookup_user(name);
    user_from_lookup(name, found)
}

/// A leading `0o` changes nothing: `0o755` is the mode `755` is.
pub proof fn lemma_mode_prefix_ignored(s: Seq<char>)
    ensures
        mode_spec(seq!['0', 'o'] + s) == mode_spec(s),
{
    let t = seq!['0', 'o'] + s;
    assert(t.skip(2) =~= s);
}

} // verus!
