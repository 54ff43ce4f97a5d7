//! Names and paths of temporary sockets.

use vstd::prelude::*;
use vstd::string::StringExecFns;

use crate::text::append_hex;

verus! {

/// How many digits of base sixteen a random number is written with.
pub const SUFFIX_DIGITS: u8 = 16;

/// The byte between a directory and a name in it, a slash.
pub const SEPARATOR: u8 = 47;

/// The name of a socket with a number appended: an underscore and sixteen digits of base
/// sixteen.
pub open spec fn suffixed(name: Seq<char>, number: u64) -> Seq<char> {
    name + "_"@ + crate::text::hex(number as nat, SUFFIX_DIGITS as nat)
}

/// Appends a number to the name of a socket, as `<name>_<xxxxxxxxxxxxxxxx>`.
pub fn with_number(name: &str, number: u64) -> (socket: String)
    ensures
        socket@ == suffixed(name@, number),
{
    let mut socket: String = name.to_owned();
    socket.append("_");
    append_hex(&mut socket, number, SUFFIX_DIGITS);
    socket
}

/// A random number, by `rand::random::<u64>`. Nothing is claimed of it.
#[verifier::external_body]
fn random_number() -> (number: u64) {
    rand::random::<u64>()
}

/// Appends a random number to the name of a socket, as `<name>_<xxxxxxxxxxxxxxxx>`.
pub fn with_random(name: &str) -> (socket: String)
    ensures
        exists|number: u64| socket@ == #[trigger] suffixed(name@, number),
{
    let number: u64 = random_number();
    with_number(name, number)
}

/// The path of a name in a directory, as `<dir>/<name>`.
pub fn joined(dir: &[u8], name: &[u8]) -> (path: Vec<u8>)
    requires
        dir.len() + 1 + name.len() <= isize::MAX,
    ensures
        path@ == dir@ + seq![SEPARATOR] + name@,
        path@ == dir@ + seq![47u8] + name@,
{
    let mut path: Vec<u8> = Vec::with_capacity(dir.len() + 1 + name.len());
    path.extend_from_slice(dir);
    path.push(SEPARATOR);
    path.extend_from_slice(name);
    assert(path@ =~= dir@ + seq![SEPARATOR] + name@);
    path
}

/// Law: the name of a socket with a number begins with the name and is seventeen characters
/// longer.
pub proof fn lemma_suffixed_shape(name: Seq<char>, number: u64)
    ensures
        suffixed(name, number).len() == name.len() + 1 + SUFFIX_DIGITS,
        (name + "_"@).is_prefix_of(suffixed(name, number)),
{
    reveal_strlit("_");
    crate::text::lemma_hex_len(number as nat, SUFFIX_DIGITS as nat);
}

/// Law: different numbers make different names.
pub proof fn lemma_suffixed_injective(name: Seq<char>, a: u64, b: u64)
    requires
        suffixed(name, a) == suffixed(name, b),
    ensures
        a == b,
{
    let digits = SUFFIX_DIGITS as nat;
    crate::text::lemma_hex_len(a as nat, digits);
    crate::text::lemma_hex_len(b as nat, digits);
    let start = (name + "_"@).len() as int;
    assert(suffixed(name, a).skip(start) =~= crate::text::hex(a as nat, digits));
    assert(suffixed(name, b).skip(start) =~= crate::text::hex(b as nat, digits));
    assert(vstd::arithmetic::power::pow(16, 16) == 0x1_0000_0000_0000_0000) by {
        reveal_with_fuel(vstd::arithmetic::power::pow, 17);
    }
    crate::text::lemma_hex_injective(a as nat, b as nat, digits);
}

/// Law: a socket is named by its name, an underscore, and sixteen digits and small letters that
/// have the number as their value in base sixteen.
pub proof fn lemma_suffixed_value(name: Seq<char>, number: u64)
    ensures
        suffixed(name, number).len() == name.len() + 17,
        suffixed(name, number).take(name.len() as int) == name,
        suffixed(name, number)[name.len() as int] == '_',
        forall|i: int|
            name.len() < i < name.len() + 17 ==> 48 <= #[trigger] suffixed(name, number)[i] as int
                <= 57 || 97 <= suffixed(name, number)[i] as int <= 102,
        suffixed(name, number).skip(name.len() as int + 1).fold_left(
            0int,
            |v: int, c: char|
                16 * v + (if c as int <= 57 {
                    c as int - 48
                } else {
                    c as int - 87
                }),
        ) == number,
{
    reveal_strlit("_");
    let digits = crate::text::hex(number as nat, 16);
    crate::text::lemma_hex_value(number as nat, 16);
    assert(vstd::arithmetic::power::pow(16, 16) == 0x1_0000_0000_0000_0000) by {
        reveal_with_fuel(vstd::arithmetic::power::pow, 17);
    }
    assert(suffixed(name, number).take(name.len() as int) =~= name);
    assert(suffixed(name, number).skip(name.len() as int + 1) =~= digits);
    assert forall|i: int| name.len() < i < name.len() + 17 implies 48
        <= #[trigger] suffixed(name, number)[i] as int <= 57 || 97 <= suffixed(name, number)[i] as int
        <= 102 by {
        assert(suffixed(name, number)[i] == digits[i - name.len() - 1]);
    }
}

} // verus!
