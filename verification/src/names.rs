//! Names of users, and the age of what was heard of them.
use crate::clock::{MILLISECOND, SECOND};
use crate::fixed::format_fixed;
use crate::text::{joined, numbered, same_text, trim_text};
use vstd::prelude::*;

verus! {

/// The name of a user of whom nothing else is known.
pub const UNKNOWN_USER: &'static str = "user";

/// The name of the user as the system knows it, and the host where it is another word.
pub open spec fn local_name(
    user: Option<Seq<char>>,
    username: Option<Seq<char>>,
    hostname: Option<Seq<char>>,
) -> Seq<char> {
    let name = match user {
        Some(name) => name,
        None => match username {
            Some(name) => name,
            None => UNKNOWN_USER@,
        },
    };
    match hostname {
        Some(host) => if host.len() == 0 || host == name {
            name
        } else {
            name + seq!['@'] + host
        },
        None => name,
    }
}

/// What an optional string holds.
pub open spec fn held(text: Option<String>) -> Option<Seq<char>> {
    match text {
        Some(t) => Some(t@),
        None => None,
    }
}

/// The name of the user, from the variables USER, USERNAME and HOSTNAME of the environment.
pub fn build_local_name(
    user: Option<String>,
    username: Option<String>,
    hostname: Option<String>,
) -> (name: String)
    ensures
        name@ == local_name(held(user), held(username), held(hostname)),
{
    let name = match user {
        Some(name) => name,
        None => match username {
            Some(name) => name,
            None => UNKNOWN_USER.to_string(),
        },
    };
    match hostname {
        Some(host) => {
            if host.as_str().is_empty() || same_text(host.as_str(), name.as_str()) {
                name
            } else {
                let mut full = name;
                full.push('@');
                full.append(host.as_str());
                assert(full@ =~= local_name(held(user), held(username), held(hostname)));
                full
            }
        },
        None => name,
    }
}

/// A name fit to be shown: without white space around it, where something is left.
pub fn normalize_display_name(value: String) -> (name: Option<String>)
    ensures
        match name {
            Some(n) => crate::text::trim(value@).len() > 0 && n@ == crate::text::trim(value@),
            None => crate::text::trim(value@).len() == 0,
        },
{
    let name = trim_text(value.as_str());
    if name.as_str().is_empty() {
        None
    } else {
        Some(name)
    }
}

// ---------------------------------------------------------------------------
// Ages

/// The seconds in a stretch of time, in single precision, as a bit pattern: what
/// [`std::time::Duration::as_secs_f32`] returns. How it rounds is not stated.
pub uninterp spec fn seconds_single(time: u64) -> u32;

/// [`std::time::Duration::as_secs_f32`] on a stretch of time that is given in nanoseconds: a
/// function of the time alone. The number is handed on by its bit pattern.
#[verifier::external_body]
fn seconds_of(time: u64) -> (bits: u32)
    ensures
        bits == seconds_single(time),
{
    std::time::Duration::from_nanos(time).as_secs_f32().to_bits()
}

/// An age in words, `seconds` being its seconds in single precision: milliseconds below a second,
/// seconds with one decimal below a minute, minutes above.
pub open spec fn age_text(age: u64, seconds: u32) -> Seq<char> {
    if age < SECOND {
        crate::text::decimal((age / MILLISECOND) as nat) + seq!['m', 's']
    } else if age < 60 * SECOND {
        crate::fixed::fixed_text(seconds, 1) + seq!['s']
    } else {
        crate::text::decimal((age / SECOND / 60) as nat) + seq!['m']
    }
}

/// An age in words, from its seconds in single precision.
pub fn describe_age(age: u64, seconds: u32) -> (text: String)
    ensures
        text@ == age_text(age, seconds),
{
    proof {
        reveal_strlit("");
        reveal_strlit("ms");
        reveal_strlit("s");
        reveal_strlit("m");
        assert("ms"@ =~= seq!['m', 's']);
        assert("s"@ =~= seq!['s']);
        assert("m"@ =~= seq!['m']);
        assert(forall|s: Seq<char>| #![trigger ""@ + s] ""@ + s =~= s);
    }
    if age < SECOND {
        numbered("", age / MILLISECOND, "ms")
    } else if age < 60 * SECOND {
        joined(format_fixed(seconds, 1).as_str(), "s")
    } else {
        numbered("", age / SECOND / 60, "m")
    }
}

/// An age in words.
pub fn format_age(age: u64) -> (text: String)
    ensures
        text@ == age_text(age, seconds_single(age)),
{
    describe_age(age, seconds_of(age))
}

/// The name is the first one that the system gives, or the word for an unknown user where it gives
/// none; a host that is empty, missing or the same word adds nothing, and any other stands behind
/// the name and an at sign.
pub proof fn law_local_name(
    user: Option<Seq<char>>,
    username: Option<Seq<char>>,
    name: Seq<char>,
    host: Seq<char>,
)
    ensures
        local_name(Some(name), username, None) == name,
        local_name(None, Some(name), None) == name,
        local_name(None, None, None) == UNKNOWN_USER@,
        local_name(user, username, Some(seq![])) == local_name(user, username, None),
        local_name(user, username, Some(local_name(user, username, None))) == local_name(
            user,
            username,
            None,
        ),
        host.len() > 0 && host != local_name(user, username, None) ==> local_name(
            user,
            username,
            Some(host),
        ) == local_name(user, username, None) + seq!['@'] + host,
{
}

/// An age is told in whole milliseconds below a second, in whole minutes from a minute on, and in
/// seconds with one decimal between the two.
pub proof fn law_age_told(age: u64, seconds: u32, n: nat)
    ensures
        n < 1000 && n * 1_000_000 <= age < (n + 1) * 1_000_000 ==> age_text(age, seconds)
            == crate::text::decimal(n) + seq!['m', 's'],
        1_000_000_000 <= age < 60_000_000_000 ==> age_text(age, seconds)
            == crate::fixed::fixed_text(seconds, 1) + seq!['s'],
        n >= 1 && n * 60_000_000_000 <= age < (n + 1) * 60_000_000_000 ==> age_text(age, seconds)
            == crate::text::decimal(n) + seq!['m'],
{
    if n < 1000 && n * 1_000_000 <= age < (n + 1) * 1_000_000 {
        assert(age / 1_000_000 == n);
    }
    if n >= 1 && n * 60_000_000_000 <= age < (n + 1) * 60_000_000_000 {
        assert(age / 1_000_000_000 / 60 == n);
    }
}

/// An optional text holds what is in it, be that nothing, and is missing only where there is none.
pub proof fn law_held(text: String)
    ensures
        held(Some(text)) == Some(text@),
        held(None) is None,
{
}

} // verus!
