use vstd::prelude::*;

use crate::numbers::{hex16, hex_digits};

verus! {

pub const FNV_OFFSET: u64 = 0xcbf29ce484222325;

pub const FNV_PRIME: u64 = 0x100000001b3;

/// One step of FNV-1a: the byte folded in, then a multiplication modulo 2^64.
pub open spec fn fnv_step(value: u64, byte: u8) -> u64 {
    (((value ^ (byte as u64)) as nat * FNV_PRIME as nat) % 0x1_0000_0000_0000_0000) as u64
}

/// FNV-1a of `bytes`, continuing from `value`.
pub open spec fn fnv_from(bytes: Seq<u8>, value: u64) -> u64
    decreases bytes.len(),
{
    if bytes.len() == 0 {
        value
    } else {
        fnv_from(bytes.drop_first(), fnv_step(value, bytes[0]))
    }
}

/// The 64-bit FNV-1a hash of `bytes`.
pub open spec fn fnv1a(bytes: Seq<u8>) -> u64 {
    fnv_from(bytes, FNV_OFFSET)
}

/// The FNV-1a hash of `bytes` as sixteen hexadecimal digits. It detects a
/// change of contents; it is no protection against one made on purpose.
pub fn hash(bytes: &[u8]) -> (r: String)
    ensures
        r@ == hex_digits(fnv1a(bytes@) as nat, 16),
{
    let mut value: u64 = FNV_OFFSET;
    let mut i: usize = 0;
    assert(bytes@.subrange(0, bytes@.len() as int) == bytes@);
    while i < bytes.len()
        invariant
            i <= bytes@.len(),
            fnv1a(bytes@) == fnv_from(bytes@.subrange(i as int, bytes@.len() as int), value),
        decreases bytes@.len() - i,
    {
        assert(bytes@.subrange(i as int, bytes@.len() as int).drop_first() == bytes@.subrange(
            i + 1,
            bytes@.len() as int,
        ));
        value = (value ^ (bytes[i] as u64)).wrapping_mul(FNV_PRIME);
        i += 1;
    }
    hex16(value)
}

/// The directory that a base directory or, failing it, `HOME` (or `.` when
/// that is unset too) gives: `leaf` below the base, else `fallback` below
/// home.
pub open spec fn chosen_path(
    base: Option<Seq<char>>,
    home: Option<Seq<char>>,
    leaf: Seq<char>,
    fallback: Seq<char>,
) -> Seq<char> {
    match base {
        Some(b) => crate::room::joined(b, leaf),
        None => crate::room::joined(
            match home {
                Some(h) => h,
                None => "."@,
            },
            fallback,
        ),
    }
}

/// The configuration file: `nshell/config.nsh` under `XDG_CONFIG_HOME` when
/// it is set, else `.config/nshell/config.nsh` under `HOME`, or under `.`
/// when `HOME` is unset.
pub open spec fn spec_config_file(xdg: Option<Seq<char>>, home: Option<Seq<char>>) -> Seq<char> {
    chosen_path(xdg, home, "nshell/config.nsh"@, ".config/nshell/config.nsh"@)
}

/// The directory of the shell's state (history and trust records): `nshell`
/// under `XDG_STATE_HOME` when it is set, else `.local/state/nshell` under
/// `HOME`, or under `.` when `HOME` is unset.
pub open spec fn spec_state_directory(xdg: Option<Seq<char>>, home: Option<Seq<char>>) -> Seq<char> {
    chosen_path(xdg, home, "nshell"@, ".local/state/nshell"@)
}

fn choose_path(base: &Option<String>, home: &Option<String>, leaf: &str, fallback: &str) -> (r: String)
    ensures
        r@ == chosen_path(
            crate::shell::text_option(*base),
            crate::shell::text_option(*home),
            leaf@,
            fallback@,
        ),
{
    match base {
        Some(b) => {
            let root = crate::text::chars_of(b.as_str());
            let tail = crate::text::chars_of(leaf);
            let j = crate::room::join_path(root.as_slice(), tail.as_slice());
            crate::text::string_of(j.as_slice())
        },
        None => {
            let root = match home {
                Some(h) => crate::text::chars_of(h.as_str()),
                None => crate::text::chars_of("."),
            };
            let tail = crate::text::chars_of(fallback);
            let j = crate::room::join_path(root.as_slice(), tail.as_slice());
            crate::text::string_of(j.as_slice())
        },
    }
}

/// The configuration file, for the values of `XDG_CONFIG_HOME` and `HOME`.
pub fn config_file(xdg: &Option<String>, home: &Option<String>) -> (r: String)
    ensures
        r@ == spec_config_file(crate::shell::text_option(*xdg), crate::shell::text_option(*home)),
{
    choose_path(xdg, home, "nshell/config.nsh", ".config/nshell/config.nsh")
}

/// The state directory, for the values of `XDG_STATE_HOME` and `HOME`.
pub fn state_directory(xdg: &Option<String>, home: &Option<String>) -> (r: String)
    ensures
        r@ == spec_state_directory(crate::shell::text_option(*xdg), crate::shell::text_option(*home)),
{
    choose_path(xdg, home, "nshell", ".local/state/nshell")
}

} // verus!
